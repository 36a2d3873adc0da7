//! Mouse and display timing events for a local WebSocket feed.
//!
//! The library decides and computes: what a device listing names as a mouse,
//! what a batch of kernel input records moves, which bytes an event is sent
//! as, and what each loop of the program does next. The program around it
//! opens the devices, sockets and windows, and hands in what it reads.
pub mod binary32;
pub mod bytes;
pub mod channel;
pub mod devices;
pub mod evdev;
pub mod events;
pub mod inotify;
pub mod protocol;
pub mod registry;
pub mod shutdown;
pub mod text;
pub mod wayland;
pub mod websocket;
pub mod win32;
