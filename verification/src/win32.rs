//! The decisions of the Windows program: window messages, raw input, and what
//! is sent of them.
use crate::binary32;
use crate::bytes::{self, ByteOrder};
use crate::channel::{self, Delivery, EventSink};
use crate::events::{self, Timeline};
use crate::protocol;
use crate::text;
use vstd::prelude::*;

verus! {

/// The message that a window is being destroyed.
pub const WM_DESTROY: u32 = 0x0002;

/// The message that raw input is there.
pub const WM_INPUT: u32 = 0x00ff;

/// The type of raw input that comes from a mouse.
pub const RIM_TYPEMOUSE: u32 = 0;

/// The result of a raw input call that failed.
pub const RAW_INPUT_ERROR: u32 = 0xffff_ffff;

/// How far into the data of a mouse its movement ends.
pub const RAW_MOUSE_LEN: usize = 20;

/// The width of the window.
pub const WINDOW_WIDTH: i32 = 100;

/// The height of the window.
pub const WINDOW_HEIGHT: i32 = 100;

/// The usage page of generic desktop devices.
pub const HID_USAGE_PAGE_GENERIC: u16 = 0x01;

/// The usage of a mouse.
pub const HID_USAGE_GENERIC_MOUSE: u16 = 0x02;

/// The UTF-16 code units of a character: one, or a pair of surrogates.
pub open spec fn utf16_units(c: char) -> Seq<u16> {
    let n = c as u32;
    if n < 0x1_0000 {
        seq![n as u16]
    } else {
        seq![
            (0xd800 + (n - 0x1_0000) / 0x400) as u16,
            (0xdc00 + (n - 0x1_0000) % 0x400) as u16,
        ]
    }
}

/// The UTF-16 code units of a text.
pub open spec fn utf16(s: Seq<char>) -> Seq<u16>
    decreases s.len(),
{
    if s.len() == 0 {
        Seq::empty()
    } else {
        utf16_units(s[0]) + utf16(s.skip(1))
    }
}

/// The text that UTF-16 code units stand for, where surrogates come in pairs.
pub open spec fn utf16_text(units: Seq<u16>) -> Seq<char>
    decreases units.len(),
{
    if units.len() == 0 {
        Seq::empty()
    } else if units.len() >= 2 && 0xd800 <= units[0] < 0xdc00 {
        seq![(0x1_0000 + (units[0] - 0xd800) * 0x400 + (units[1] - 0xdc00)) as char] + utf16_text(
            units.skip(2),
        )
    } else {
        seq![units[0] as char] + utf16_text(units.skip(1))
    }
}

/// A text in UTF-16 with a zero behind it.
pub fn encode_wide(s: &str) -> (wide: Vec<u16>)
    ensures
        wide@ == utf16(s@).push(0),
{
    let chars = text::chars_of(s);
    let mut wide: Vec<u16> = Vec::new();
    let mut i: usize = 0;
    assert(chars@.skip(0) =~= s@);
    assert(wide@ + utf16(s@) =~= utf16(s@));
    while i < chars.len()
        invariant
            i <= chars@.len(),
            chars@ == s@,
            utf16(s@) == wide@ + utf16(chars@.skip(i as int)),
        decreases chars@.len() - i,
    {
        let c: char = chars[i];
        let n: u32 = c as u32;
        let ghost before = wide@;
        if n < 0x1_0000 {
            wide.push(n as u16);
        } else {
            wide.push((0xd800 + (n - 0x1_0000) / 0x400) as u16);
            wide.push((0xdc00 + (n - 0x1_0000) % 0x400) as u16);
        }
        assert(wide@ =~= before + utf16_units(c));
        assert(chars@.skip(i as int).skip(1) =~= chars@.skip(i + 1));
        assert(before + utf16(chars@.skip(i as int)) =~= wide@ + utf16(chars@.skip(i + 1)));
        i = i + 1;
    }
    assert(wide@ =~= utf16(s@));
    wide.push(0);
    wide
}

/// One code unit is the character itself; a pair holds it in two halves.
proof fn lemma_utf16_units(c: char)
    ensures
        ({
            let units = utf16_units(c);
            ||| units.len() == 1 && !(0xd800 <= units[0] < 0xdc00) && units[0] as char == c
            ||| units.len() == 2 && 0xd800 <= units[0] < 0xdc00 && (0x1_0000 + (units[0] - 0xd800)
                * 0x400 + (units[1] - 0xdc00)) as char == c
        }),
{
    let n = c as u32;
    if n >= 0x1_0000 {
        let high = (n - 0x1_0000) / 0x400;
        let low = (n - 0x1_0000) % 0x400;
        assert(high < 0x400 && low < 0x400);
        assert(high * 0x400 + low == n - 0x1_0000);
    }
}

/// The code units of a text stand for that text.
pub proof fn lemma_utf16_round_trip(s: Seq<char>)
    ensures
        utf16_text(utf16(s)) == s,
    decreases s.len(),
{
    if s.len() > 0 {
        let units = utf16_units(s[0]);
        let rest = utf16(s.skip(1));
        lemma_utf16_round_trip(s.skip(1));
        assert((units + rest).skip(units.len() as int) =~= rest);
        lemma_utf16_units(s[0]);
        assert(utf16(s) == units + rest);
        assert(utf16(s)[0] == units[0]);
        if units.len() == 2 {
            assert(utf16(s)[1] == units[1]);
        }
        assert(utf16_text(utf16(s)) =~= seq![s[0]] + s.skip(1));
        assert(seq![s[0]] + s.skip(1) =~= s);
    } else {
        assert(utf16_text(utf16(s)) =~= s);
    }
}

/// Sends a display refresh that happened `elapsed` nanoseconds after the
/// start. Without a sink, or before the start, nothing is recorded or sent.
pub fn send_display_event(
    sink: &mut Option<EventSink>,
    timeline: &mut Timeline,
    elapsed: Option<u128>,
) -> (delivery: Delivery)
    ensures
        *old(sink) is None || elapsed is None ==> {
            &&& *final(timeline) == *old(timeline)
            &&& *final(sink) == *old(sink)
            &&& delivery is Skipped
        },
        *old(sink) is Some && elapsed is Some ==> {
            &&& *final(timeline) == (Timeline {
                last_display_ns: events::clock_ns(elapsed->0),
                ..*old(timeline)
            })
            &&& channel::sent(
                *old(sink),
                *final(sink),
                protocol::display_frame(
                    events::delta_ns(old(timeline).last_display_ns, events::clock_ns(elapsed->0)),
                ),
                delivery,
            )
        },
{
    if sink.is_none() {
        return Delivery::Skipped;
    }
    events::send_display_event(sink, timeline, elapsed)
}

/// What a mouse movement by `(dx, dy)` does, `elapsed` nanoseconds after the
/// start: it is recorded, and its message is handed to the sink. Without a
/// movement or a sink, or before the start, it does nothing.
pub open spec fn mouse_event_sent(
    sink: Option<EventSink>,
    new_sink: Option<EventSink>,
    timeline: Timeline,
    new_timeline: Timeline,
    elapsed: Option<u128>,
    dx: int,
    dy: int,
    delivery: Delivery,
) -> bool {
    if (dx == 0 && dy == 0) || sink is None || elapsed is None {
        new_timeline == timeline && new_sink == sink && delivery is Skipped
    } else {
        let now = events::clock_ns(elapsed->0);
        &&& new_timeline == (Timeline { last_mouse_ns: now, ..timeline })
        &&& channel::sent(
            sink,
            new_sink,
            protocol::mouse_frame(events::delta_ns(timeline.last_mouse_ns, now), dx, dy),
            delivery,
        )
    }
}

/// Sends a mouse movement by `(dx, dy)` that happened `elapsed` nanoseconds
/// after the start. Without a movement or a sink, or before the start, nothing
/// is recorded or sent.
pub fn send_mouse_event(
    sink: &mut Option<EventSink>,
    timeline: &mut Timeline,
    elapsed: Option<u128>,
    dx: i32,
    dy: i32,
) -> (delivery: Delivery)
    ensures
        mouse_event_sent(
            *old(sink),
            *final(sink),
            *old(timeline),
            *final(timeline),
            elapsed,
            dx as int,
            dy as int,
            delivery,
        ),
{
    if (dx == 0 && dy == 0) || sink.is_none() {
        return Delivery::Skipped;
    }
    events::send_mouse_event(sink, timeline, elapsed, dx, dy)
}

/// How long a buffer the raw input needs; `None` if there is none.
pub fn raw_input_len(size: u32) -> (len: Option<u32>)
    ensures
        len == (if size > 0 {
            Some(size)
        } else {
            None
        }),
{
    if size > 0 {
        Some(size)
    } else {
        None
    }
}

/// The movement in raw input: the type of the device stands at the start of
/// the header, and of a mouse's data, which follow the header, the movement
/// along x at byte 12 and along y at byte 16.
pub open spec fn raw_movement(result: u32, data: Seq<u8>, header_len: nat) -> Option<(int, int)> {
    if result == RAW_INPUT_ERROR || data.len() < header_len + 20 || bytes::unsigned(
        ByteOrder::Little,
        data.subrange(0, 4),
    ) != RIM_TYPEMOUSE {
        None
    } else {
        let x = header_len as int + 12;
        Some(
            (
                bytes::signed(
                    bytes::unsigned(ByteOrder::Little, data.subrange(x, x + 4)),
                    0x8000_0000,
                ),
                bytes::signed(
                    bytes::unsigned(ByteOrder::Little, data.subrange(x + 4, x + 8)),
                    0x8000_0000,
                ),
            ),
        )
    }
}

/// Reads the movement in raw input, after the call that fetched it returned
/// `result`.
pub fn read_raw_movement(result: u32, data: &[u8], header_len: usize) -> (moved: Option<(i32, i32)>)
    ensures
        match moved {
            Some((dx, dy)) => raw_movement(result, data@, header_len as nat) == Some(
                (dx as int, dy as int),
            ),
            None => raw_movement(result, data@, header_len as nat) is None,
        },
{
    if result == RAW_INPUT_ERROR || data.len() < RAW_MOUSE_LEN || data.len() - RAW_MOUSE_LEN
        < header_len {
        return None;
    }
    let kind: u32 = bytes::read_u32(data, 0, ByteOrder::Little);
    if kind != RIM_TYPEMOUSE {
        return None;
    }
    let dx: i32 = bytes::read_i32(data, header_len + 12, ByteOrder::Little);
    let dy: i32 = bytes::read_i32(data, header_len + 16, ByteOrder::Little);
    Some((dx, dy))
}

/// Sends the movement in raw input, if it is from a mouse.
pub fn process_single_raw_input(
    sink: &mut Option<EventSink>,
    timeline: &mut Timeline,
    elapsed: Option<u128>,
    result: u32,
    data: &[u8],
    header_len: usize,
) -> (delivery: Delivery)
    ensures
        match raw_movement(result, data@, header_len as nat) {
            Some((dx, dy)) => mouse_event_sent(
                *old(sink),
                *final(sink),
                *old(timeline),
                *final(timeline),
                elapsed,
                dx,
                dy,
                delivery,
            ),
            None => {
                &&& *final(timeline) == *old(timeline)
                &&& *final(sink) == *old(sink)
                &&& delivery is Skipped
            },
        },
{
    match read_raw_movement(result, data, header_len) {
        Some((dx, dy)) => send_mouse_event(sink, timeline, elapsed, dx, dy),
        None => Delivery::Skipped,
    }
}

/// What the window does with a message.
#[derive(Clone, Copy, PartialEq, Eq, Structural, Debug)]
pub enum WindowAction {
    /// Process the raw input, then do as by default.
    ProcessInput,
    /// Ask the message loop to end.
    Quit,
    /// Do as by default.
    Default,
}

/// Decides what the window does with a message. Destroying the window ends
/// the program.
pub fn wnd_proc(running: &mut bool, msg: u32) -> (action: WindowAction)
    ensures
        action == (if msg == WM_INPUT {
            WindowAction::ProcessInput
        } else if msg == WM_DESTROY {
            WindowAction::Quit
        } else {
            WindowAction::Default
        }),
        *final(running) == (*old(running) && msg != WM_DESTROY),
        action == (if msg == 0x00ff {
            WindowAction::ProcessInput
        } else if msg == 0x0002 {
            WindowAction::Quit
        } else {
            WindowAction::Default
        }),
        msg == 0x0002 ==> !*final(running),
        msg != 0x0002 ==> *final(running) == *old(running),
{
    if msg == WM_INPUT {
        WindowAction::ProcessInput
    } else if msg == WM_DESTROY {
        *running = false;
        WindowAction::Quit
    } else {
        WindowAction::Default
    }
}

/// What the last call to the system came to.
#[derive(Clone, Copy, PartialEq, Eq, Structural, Debug)]
pub enum SetupEvent {
    /// Whether the program's module could be found.
    ModuleFound(bool),
    /// Whether the window could be made.
    WindowCreated(bool),
    /// Whether raw input from mice could be registered for.
    InputRegistered(bool),
    /// Whether the display can be watched.
    DisplayReady(bool),
    /// The result of waiting for a message.
    Message(i32),
}

/// What the program does next.
#[derive(Clone, Copy, PartialEq, Eq, Structural, Debug)]
pub enum SetupAction {
    /// Register the window class and make the window.
    CreateWindow,
    /// Show the window, and register for raw input from mice.
    RegisterInput,
    /// Start to poll for raw input, and prepare to watch the display.
    PrepareDisplay,
    /// Start to watch the display, and wait for a message.
    WatchDisplay,
    /// Dispatch the message, and wait for another.
    Dispatch,
    /// End; all is well.
    Finish,
    /// End with the error of the call that failed.
    Fail,
    /// Say that the display cannot be watched, and end with the error.
    ReportDisplay,
    /// Say that the message loop failed, and end with the error.
    ReportLoop,
}

/// What the program does after `event`: each step follows the one before, and
/// a step that fails ends the program.
pub open spec fn setup_action(event: SetupEvent) -> SetupAction {
    match event {
        SetupEvent::ModuleFound(true) => SetupAction::CreateWindow,
        SetupEvent::WindowCreated(true) => SetupAction::RegisterInput,
        SetupEvent::InputRegistered(true) => SetupAction::PrepareDisplay,
        SetupEvent::DisplayReady(true) => SetupAction::WatchDisplay,
        SetupEvent::DisplayReady(false) => SetupAction::ReportDisplay,
        SetupEvent::Message(result) => if result == -1 {
            SetupAction::ReportLoop
        } else if result == 0 {
            SetupAction::Finish
        } else {
            SetupAction::Dispatch
        },
        SetupEvent::ModuleFound(false)
        | SetupEvent::WindowCreated(false)
        | SetupEvent::InputRegistered(false) => SetupAction::Fail,
    }
}

/// Decides what the program's window thread does next.
pub fn create_window(event: SetupEvent) -> (action: SetupAction)
    ensures
        action == setup_action(event),
{
    match event {
        SetupEvent::ModuleFound(found) => if found {
            SetupAction::CreateWindow
        } else {
            SetupAction::Fail
        },
        SetupEvent::WindowCreated(created) => if created {
            SetupAction::RegisterInput
        } else {
            SetupAction::Fail
        },
        SetupEvent::InputRegistered(registered) => if registered {
            SetupAction::PrepareDisplay
        } else {
            SetupAction::Fail
        },
        SetupEvent::DisplayReady(ready) => if ready {
            SetupAction::WatchDisplay
        } else {
            SetupAction::ReportDisplay
        },
        SetupEvent::Message(result) => if result == -1 {
            SetupAction::ReportLoop
        } else if result == 0 {
            SetupAction::Finish
        } else {
            SetupAction::Dispatch
        },
    }
}

/// The swap chain by which the refreshes of the display are awaited.
#[derive(Clone, Copy, PartialEq, Eq, Structural, Debug)]
pub struct SwapChainPlan {
    /// Its width in pixels.
    pub width: u32,
    /// Its height in pixels.
    pub height: u32,
    /// How many samples a pixel has.
    pub sample_count: u32,
    /// How many buffers it has.
    pub buffer_count: u32,
    /// Whether it shows in a window.
    pub windowed: bool,
}

/// The smallest swap chain that will do: one pixel, two buffers, in a window.
pub fn init_minimal_dxgi() -> (plan: SwapChainPlan)
    ensures
        plan == (SwapChainPlan {
            width: 1,
            height: 1,
            sample_count: 1,
            buffer_count: 2,
            windowed: true,
        }),
{
    SwapChainPlan { width: 1, height: 1, sample_count: 1, buffer_count: 2, windowed: true }
}

/// What waiting for a client to connect came to.
#[derive(Clone, Copy, PartialEq, Eq, Structural, Debug)]
pub enum ServerEvent {
    /// Whether the server could be bound to its address.
    Bound(bool),
    /// A client connected and spoke the protocol.
    Connected,
    /// A client connected and did not.
    HandshakeFailed,
    /// The connection could not be accepted.
    AcceptFailed,
}

/// What the accepting loop does next.
#[derive(Clone, Copy, PartialEq, Eq, Structural, Debug)]
pub enum ServerAction {
    /// Say that the address cannot be had, and end.
    ReportBind,
    /// Add the client to the list, serve it, and wait for another.
    Join,
    /// Wait for another.
    Wait,
    /// Leave the loop.
    Stop,
}

/// What the accepting loop does after `event`.
pub open spec fn server_action(event: ServerEvent) -> ServerAction {
    match event {
        ServerEvent::Bound(false) => ServerAction::ReportBind,
        ServerEvent::Connected => ServerAction::Join,
        ServerEvent::Bound(true) | ServerEvent::HandshakeFailed => ServerAction::Wait,
        ServerEvent::AcceptFailed => ServerAction::Stop,
    }
}

/// Decides what the accepting loop does next. It ends with the first
/// connection that cannot be accepted.
pub fn websocket_server(event: ServerEvent) -> (action: ServerAction)
    ensures
        action == server_action(event),
        action == (match event {
            ServerEvent::Bound(false) => ServerAction::ReportBind,
            ServerEvent::Connected => ServerAction::Join,
            ServerEvent::Bound(true) | ServerEvent::HandshakeFailed => ServerAction::Wait,
            ServerEvent::AcceptFailed => ServerAction::Stop,
        }),
{
    match event {
        ServerEvent::Bound(bound) => if bound {
            ServerAction::Wait
        } else {
            ServerAction::ReportBind
        },
        ServerEvent::Connected => ServerAction::Join,
        ServerEvent::HandshakeFailed => ServerAction::Wait,
        ServerEvent::AcceptFailed => ServerAction::Stop,
    }
}

/// A movement along x or y, `nanos` after the start, adds one message to the
/// log: a four, the time since the movement before it, and x and y, each
/// rounded on its own.
pub proof fn lemma_mouse_event_message(
    sink: EventSink,
    new_sink: Option<EventSink>,
    timeline: Timeline,
    new_timeline: Timeline,
    nanos: u128,
    dx: i32,
    dy: i32,
    delivery: Delivery,
)
    requires
        mouse_event_sent(
            Some(sink),
            new_sink,
            timeline,
            new_timeline,
            Some(nanos),
            dx as int,
            dy as int,
            delivery,
        ),
        dx != 0 || dy != 0,
    ensures
        ({
            let now = nanos % 0x1_0000_0000_0000_0000;
            let time = if now >= timeline.last_mouse_ns {
                now - timeline.last_mouse_ns
            } else {
                0
            };
            &&& new_sink matches Some(after) && {
                let message = after@.last().0;
                &&& after@.len() == sink@.len() + 1
                &&& after@.drop_last() == sink@
                &&& forall|rx: crossbeam_channel::Receiver<Vec<u8>>| #[trigger]
                    after.feeds(rx) == sink.feeds(rx)
                &&& match delivery {
                    Delivery::Skipped => false,
                    Delivery::Queued => after@.last().1,
                    Delivery::Refused(back) => !after@.last().1 && back@ == message,
                }
                &&& message.len() == 17
                &&& message[0] == 0x04
                &&& message[8] + 0x100 * message[7] + 0x10000 * message[6] + 0x1000000 * message[5]
                    + 0x100000000 * message[4] + 0x10000000000 * message[3]
                    + 0x1000000000000 * message[2] + 0x100000000000000 * message[1] == time
                &&& binary32::rounds_to(dx as int, message[12] + 0x100 * message[11]
                    + 0x10000 * message[10] + 0x1000000 * message[9])
                &&& binary32::rounds_to(dy as int, message[16] + 0x100 * message[15]
                    + 0x10000 * message[14] + 0x1000000 * message[13])
            }
            &&& new_timeline.last_mouse_ns == now
            &&& new_timeline.last_display_ns == timeline.last_display_ns
        }),
{
    let now = nanos % 0x1_0000_0000_0000_0000;
    let time: u64 = if now >= timeline.last_mouse_ns {
        (now - timeline.last_mouse_ns) as u64
    } else {
        0
    };
    protocol::lemma_mouse_message(time, dx, dy);
    assert(new_sink->0@.drop_last() =~= sink@);
    assert(new_sink->0.same_queue(&sink));
}

/// A mouse that stands still, a missing sink, or a movement before the start:
/// nothing is sent and nothing recorded.
pub proof fn lemma_nothing_without_movement(
    sink: Option<EventSink>,
    new_sink: Option<EventSink>,
    timeline: Timeline,
    new_timeline: Timeline,
    elapsed: Option<u128>,
    dx: int,
    dy: int,
    delivery: Delivery,
)
    requires
        mouse_event_sent(sink, new_sink, timeline, new_timeline, elapsed, dx, dy, delivery),
        (dx == 0 && dy == 0) || sink is None || elapsed is None,
    ensures
        new_sink == sink,
        new_timeline == timeline,
        delivery == Delivery::Skipped,
{
}

/// What raw input that was fetched without an error moves is decided by three
/// fields of four bytes alone, least significant byte first: a zero at the
/// start says that it is from a mouse, and behind the header the movement
/// along x stands at byte 12 and along y at byte 16. No other byte counts.
pub proof fn lemma_raw_movement_fields(
    result: u32,
    data: Seq<u8>,
    header_len: int,
    dx: i32,
    dy: i32,
)
    requires
        header_len >= 0,
        data.len() >= header_len + 20,
        result != 0xffff_ffff,
        data[header_len + 12] + 0x100 * data[header_len + 13] + 0x10000 * data[header_len + 14]
            + 0x1000000 * data[header_len + 15] == (if dx < 0 {
            dx + 0x1_0000_0000
        } else {
            dx as int
        }),
        data[header_len + 16] + 0x100 * data[header_len + 17] + 0x10000 * data[header_len + 18]
            + 0x1000000 * data[header_len + 19] == (if dy < 0 {
            dy + 0x1_0000_0000
        } else {
            dy as int
        }),
    ensures
        data[0] == 0 && data[1] == 0 && data[2] == 0 && data[3] == 0 ==> raw_movement(
            result,
            data,
            header_len as nat,
        ) == Some((dx as int, dy as int)),
        !(data[0] == 0 && data[1] == 0 && data[2] == 0 && data[3] == 0) ==> raw_movement(
            result,
            data,
            header_len as nat,
        ) is None,
{
    let x = header_len + 12;
    bytes::lemma_unsigned_4(ByteOrder::Little, data.subrange(0, 4));
    bytes::lemma_unsigned_4(ByteOrder::Little, data.subrange(x, x + 4));
    bytes::lemma_unsigned_4(ByteOrder::Little, data.subrange(x + 4, x + 8));
}

/// Raw input that could not be fetched, or is too short to hold a movement,
/// moves nothing.
pub proof fn lemma_no_raw_movement(result: u32, data: Seq<u8>, header_len: nat)
    requires
        result == 0xffff_ffff || data.len() < header_len + 20,
    ensures
        raw_movement(result, data, header_len) is None,
{
}

/// The code units of a text are those of its parts, one behind the other.
pub proof fn lemma_utf16_joins(first: Seq<char>, second: Seq<char>)
    ensures
        utf16(first + second) == utf16(first) + utf16(second),
        utf16(Seq::empty()) == Seq::<u16>::empty(),
    decreases first.len(),
{
    if first.len() == 0 {
        assert(first + second =~= second);
        assert(utf16(first) + utf16(second) =~= utf16(second));
    } else {
        assert((first + second)[0] == first[0]);
        assert((first + second).skip(1) =~= first.skip(1) + second);
        lemma_utf16_joins(first.skip(1), second);
        assert(utf16(first + second) =~= utf16(first) + utf16(second));
    }
}

/// A character below 2^16 is one code unit, itself; any other is two, a high
/// surrogate and a low one with ten bits each of what it is above 2^16.
pub proof fn lemma_utf16_of_char(c: char)
    ensures
        ({
            let units = utf16(seq![c]);
            let n = c as int;
            if n < 0x1_0000 {
                units.len() == 1 && units[0] == n
            } else {
                &&& units.len() == 2
                &&& 0xd800 <= units[0] <= 0xdbff
                &&& 0xdc00 <= units[1] <= 0xdfff
                &&& 0x1_0000 + (units[0] - 0xd800) * 0x400 + (units[1] - 0xdc00) == n
            }
        }),
{
    assert(seq![c].skip(1) =~= Seq::empty());
    reveal_with_fuel(utf16, 2);
    assert(utf16(seq![c]) =~= utf16_units(c));
    let n = c as u32;
    if n >= 0x1_0000 {
        let high = (n - 0x1_0000) / 0x400;
        let low = (n - 0x1_0000) % 0x400;
        assert(high < 0x400 && low < 0x400);
        assert(high * 0x400 + low == n - 0x1_0000);
    }
}

/// The order in which the program sets itself up: the window, raw input, the
/// display, then messages until there are none. Whatever fails ends it with
/// the error, and what fails once there is a window to show it in is said.
pub proof fn lemma_setup_decisions(result: i32)
    ensures
        setup_action(SetupEvent::ModuleFound(true)) == SetupAction::CreateWindow,
        setup_action(SetupEvent::ModuleFound(false)) == SetupAction::Fail,
        setup_action(SetupEvent::WindowCreated(true)) == SetupAction::RegisterInput,
        setup_action(SetupEvent::WindowCreated(false)) == SetupAction::Fail,
        setup_action(SetupEvent::InputRegistered(true)) == SetupAction::PrepareDisplay,
        setup_action(SetupEvent::InputRegistered(false)) == SetupAction::Fail,
        setup_action(SetupEvent::DisplayReady(true)) == SetupAction::WatchDisplay,
        setup_action(SetupEvent::DisplayReady(false)) == SetupAction::ReportDisplay,
        result == -1 ==> setup_action(SetupEvent::Message(result)) == SetupAction::ReportLoop,
        result == 0 ==> setup_action(SetupEvent::Message(result)) == SetupAction::Finish,
        result != -1 && result != 0 ==> setup_action(SetupEvent::Message(result))
            == SetupAction::Dispatch,
{
}

/// A client joins exactly if it connected and spoke the protocol; one that did
/// not is passed over, and the first connection that cannot be accepted ends
/// the loop.
pub proof fn lemma_server_decisions()
    ensures
        server_action(ServerEvent::Bound(true)) == ServerAction::Wait,
        server_action(ServerEvent::Bound(false)) == ServerAction::ReportBind,
        server_action(ServerEvent::Connected) == ServerAction::Join,
        server_action(ServerEvent::HandshakeFailed) == ServerAction::Wait,
        server_action(ServerEvent::AcceptFailed) == ServerAction::Stop,
{
}

} // verus!
