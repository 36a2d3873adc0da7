# jerkmon

Monitors mouse movement and display refreshes, and streams their timing over
a WebSocket server on `127.0.0.1:12345`.

`src/` is the library, verified with Verus: everything that the program decides
or computes. `app/` is the program around it, for Linux (evdev and Wayland) and
for Windows (raw input and DXGI). `tests/` runs the library on concrete values.

## Messages

Every message is binary, most significant byte first.

| Bytes | Display refresh | Mouse movement |
|-------|-----------------|----------------|
| 0     | `0x00`          | `0x04`         |
| 1-8   | nanoseconds since the last refresh | nanoseconds since the last movement |
| 9-12  |                 | movement along x, binary32 |
| 13-16 |                 | movement along y, binary32 |

What is handed to a queue is part of the contracts: each sending end has a log,
which grows by exactly the message that is due.

## Modules

| Module | What it holds |
|--------|---------------|
| `bytes` | integers as byte strings |
| `binary32` | integers as IEEE 754 single precision patterns |
| `protocol` | the messages |
| `channel` | the queues that messages travel through |
| `events` | the times between events, and sending them |
| `evdev` | movement from kernel input records, the loop of a device monitor |
| `text` | lines, words and other parts of text |
| `devices` | the search for mice |
| `registry` | the devices that have a monitor |
| `inotify` | devices that come and go |
| `websocket` | the server: its queues, its clients, its loops |
| `wayland` | display refreshes from frame callbacks |
| `win32` | the Windows program |
| `shutdown` | how the loops end |

What is trusted stands in three places: the queues of `crossbeam_channel` and
`tokio` in `channel`, `str::to_lowercase` and `String::push` in `text`, and
`core::str::from_utf8` in `inotify`.
