//! The binary messages that clients receive.
//!
//! Every message starts with one byte for the kind of event and eight bytes
//! for the nanoseconds since the last event of that kind, most significant
//! byte first. A mouse event goes on with the movement along x and along y,
//! each as a binary32 number of four bytes, most significant byte first.
use crate::binary32;
use crate::bytes;
use vstd::prelude::*;

verus! {

/// The kind byte of a display refresh.
pub const EVENT_TYPE_DISPLAY: u8 = 0x00;

/// The kind byte of a mouse movement.
pub const EVENT_TYPE_MOUSE: u8 = 0x04;

/// The part of a message after the header: nothing, or two binary32 patterns.
pub open spec fn payload(data: Option<(u32, u32)>) -> Seq<u8> {
    match data {
        None => Seq::empty(),
        Some((x, y)) => bytes::be_bytes(x as nat, 4) + bytes::be_bytes(y as nat, 4),
    }
}

/// The message for an event of kind `event_type`, `delta_ns` after the last.
pub open spec fn event_frame(event_type: u8, delta_ns: u64, data: Option<(u32, u32)>) -> Seq<u8> {
    seq![event_type] + bytes::be_bytes(delta_ns as nat, 8) + payload(data)
}

/// The binary32 patterns of a movement.
pub open spec fn movement_data(x: int, y: int) -> Option<(u32, u32)> {
    Some((binary32::binary32_of(x) as u32, binary32::binary32_of(y) as u32))
}

/// The message for a display refresh.
pub open spec fn display_frame(delta_ns: u64) -> Seq<u8> {
    event_frame(EVENT_TYPE_DISPLAY, delta_ns, None)
}

/// The message for a mouse movement by `(x, y)`.
pub open spec fn mouse_frame(delta_ns: u64, x: int, y: int) -> Seq<u8> {
    event_frame(EVENT_TYPE_MOUSE, delta_ns, movement_data(x, y))
}

/// Builds the message for an event; `data` holds binary32 patterns.
pub fn encode_event(event_type: u8, delta_ns: u64, data: Option<(u32, u32)>) -> (frame: Vec<u8>)
    ensures
        frame@ == event_frame(event_type, delta_ns, data),
{
    let mut frame: Vec<u8> = Vec::new();
    frame.push(event_type);
    assert(frame@ =~= seq![event_type]);
    bytes::push_be_u64(&mut frame, delta_ns);
    match data {
        None => {},
        Some((x, y)) => {
            bytes::push_be_u32(&mut frame, x);
            bytes::push_be_u32(&mut frame, y);
        },
    }
    assert(frame@ =~= event_frame(event_type, delta_ns, data));
    frame
}

/// Every field of a message is read back from its place: the kind from byte
/// 0, the time from bytes 1 to 8, the x movement from bytes 9 to 12 and the y
/// movement from bytes 13 to 16, all most significant byte first.
pub proof fn lemma_frame_fields(event_type: u8, delta_ns: u64, data: Option<(u32, u32)>)
    ensures
        ({
            let frame = event_frame(event_type, delta_ns, data);
            &&& frame[0] == event_type
            &&& bytes::be_value(frame.subrange(1, 9)) == delta_ns
            &&& data is None ==> frame.len() == 9
            &&& data matches Some((x, y)) ==> {
                &&& frame.len() == 17
                &&& bytes::be_value(frame.subrange(9, 13)) == x
                &&& bytes::be_value(frame.subrange(13, 17)) == y
            }
        }),
{
    let frame = event_frame(event_type, delta_ns, data);
    let time = bytes::be_bytes(delta_ns as nat, 8);
    reveal_with_fuel(bytes::byte_span, 9);
    bytes::lemma_be_bytes_len(delta_ns as nat, 8);
    bytes::lemma_be_round_trip(delta_ns as nat, 8);
    assert(frame.subrange(1, 9) =~= time);
    if let Some((x, y)) = data {
        bytes::lemma_be_bytes_len(x as nat, 4);
        bytes::lemma_be_bytes_len(y as nat, 4);
        bytes::lemma_be_round_trip(x as nat, 4);
        bytes::lemma_be_round_trip(y as nat, 4);
        assert(frame.subrange(9, 13) =~= bytes::be_bytes(x as nat, 4));
        assert(frame.subrange(13, 17) =~= bytes::be_bytes(y as nat, 4));
    }
}

/// What a client reads from a message: the kind, the time, and the two binary32
/// patterns of a longer one.
pub open spec fn decoded(frame: Seq<u8>) -> (u8, u64, Option<(u32, u32)>) {
    (
        frame[0],
        bytes::be_value(frame.subrange(1, 9)) as u64,
        if frame.len() == 9 {
            None
        } else {
            Some(
                (
                    bytes::be_value(frame.subrange(9, 13)) as u32,
                    bytes::be_value(frame.subrange(13, 17)) as u32,
                ),
            )
        },
    )
}

/// Reading the message for an event gives the event.
pub proof fn lemma_decoded(event_type: u8, delta_ns: u64, data: Option<(u32, u32)>)
    ensures
        decoded(event_frame(event_type, delta_ns, data)) == (event_type, delta_ns, data),
{
    lemma_frame_fields(event_type, delta_ns, data);
}

/// Two events with the same message are the same event.
pub proof fn lemma_frame_injective(
    event_type: u8,
    delta_ns: u64,
    data: Option<(u32, u32)>,
    other_type: u8,
    other_delta_ns: u64,
    other_data: Option<(u32, u32)>,
)
    requires
        event_frame(event_type, delta_ns, data) == event_frame(
            other_type,
            other_delta_ns,
            other_data,
        ),
    ensures
        event_type == other_type,
        delta_ns == other_delta_ns,
        data == other_data,
{
    lemma_frame_fields(event_type, delta_ns, data);
    lemma_frame_fields(other_type, other_delta_ns, other_data);
}

/// Every byte of a message: the kind, the eight bytes of the time, and for a
/// movement four bytes for x and four for y, most significant first.
pub proof fn lemma_frame_bytes(event_type: u8, delta_ns: u64, data: Option<(u32, u32)>)
    ensures
        ({
            let frame = event_frame(event_type, delta_ns, data);
            &&& frame.len() == (if data is None {
                9int
            } else {
                17
            })
            &&& frame[0] == event_type
            &&& frame[1] == delta_ns as nat / 0x100000000000000 % 256
            &&& frame[2] == delta_ns as nat / 0x1000000000000 % 256
            &&& frame[3] == delta_ns as nat / 0x10000000000 % 256
            &&& frame[4] == delta_ns as nat / 0x100000000 % 256
            &&& frame[5] == delta_ns as nat / 0x1000000 % 256
            &&& frame[6] == delta_ns as nat / 0x10000 % 256
            &&& frame[7] == delta_ns as nat / 0x100 % 256
            &&& frame[8] == delta_ns as nat % 256
            &&& data matches Some((x, y)) ==> {
                &&& frame[9] == x as nat / 0x1000000 % 256
                &&& frame[10] == x as nat / 0x10000 % 256
                &&& frame[11] == x as nat / 0x100 % 256
                &&& frame[12] == x as nat % 256
                &&& frame[13] == y as nat / 0x1000000 % 256
                &&& frame[14] == y as nat / 0x10000 % 256
                &&& frame[15] == y as nat / 0x100 % 256
                &&& frame[16] == y as nat % 256
            }
        }),
{
    bytes::lemma_be_bytes_8(delta_ns as nat);
    if let Some((x, y)) = data {
        bytes::lemma_be_bytes_4(x as nat);
        bytes::lemma_be_bytes_4(y as nat);
    }
}

/// The message for a display refresh is nine bytes: a zero, and the time, most
/// significant byte first.
pub proof fn lemma_display_message(delta_ns: u64)
    ensures
        ({
            let frame = display_frame(delta_ns);
            &&& frame.len() == 9
            &&& frame[0] == 0x00
            &&& frame[8] + 0x100 * frame[7] + 0x10000 * frame[6] + 0x1000000 * frame[5]
                + 0x100000000 * frame[4] + 0x10000000000 * frame[3] + 0x1000000000000 * frame[2]
                + 0x100000000000000 * frame[1] == delta_ns
        }),
{
    let frame = display_frame(delta_ns);
    lemma_frame_fields(EVENT_TYPE_DISPLAY, delta_ns, None);
    bytes::lemma_unsigned_8(bytes::ByteOrder::Big, frame.subrange(1, 9));
}

/// The message for a mouse movement is seventeen bytes: a four, the time, and
/// the numbers that x and y are rounded to, each in its own four bytes, all
/// most significant byte first.
pub proof fn lemma_mouse_message(delta_ns: u64, x: i32, y: i32)
    ensures
        ({
            let frame = mouse_frame(delta_ns, x as int, y as int);
            &&& frame.len() == 17
            &&& frame[0] == 0x04
            &&& frame[8] + 0x100 * frame[7] + 0x10000 * frame[6] + 0x1000000 * frame[5]
                + 0x100000000 * frame[4] + 0x10000000000 * frame[3] + 0x1000000000000 * frame[2]
                + 0x100000000000000 * frame[1] == delta_ns
            &&& binary32::rounds_to(x as int, frame[12] + 0x100 * frame[11] + 0x10000 * frame[10]
                + 0x1000000 * frame[9])
            &&& binary32::rounds_to(y as int, frame[16] + 0x100 * frame[15] + 0x10000 * frame[14]
                + 0x1000000 * frame[13])
        }),
{
    binary32::lemma_binary32_rounds(x);
    binary32::lemma_binary32_rounds(y);
    let frame = mouse_frame(delta_ns, x as int, y as int);
    lemma_frame_fields(EVENT_TYPE_MOUSE, delta_ns, movement_data(x as int, y as int));
    bytes::lemma_unsigned_8(bytes::ByteOrder::Big, frame.subrange(1, 9));
    bytes::lemma_unsigned_4(bytes::ByteOrder::Big, frame.subrange(9, 13));
    bytes::lemma_unsigned_4(bytes::ByteOrder::Big, frame.subrange(13, 17));
}

} // verus!
