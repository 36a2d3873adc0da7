//! Display timing from the frame callbacks of a Wayland compositor.
//!
//! The program opens a window of one pixel and asks the compositor for a
//! callback at each refresh. What it does next is decided here, from what the
//! last call to the compositor came to.
use crate::channel::{Delivery, EventSink};
use crate::events::{self, Timeline};
use crate::text;
use vstd::prelude::*;

verus! {

/// The width of the window.
pub const WINDOW_WIDTH: i32 = 1;

/// The height of the window.
pub const WINDOW_HEIGHT: i32 = 1;

/// The value of every byte of the window's pixels: grey.
pub const PIXEL_BYTE: u8 = 0x80;

/// An interface of the compositor that the program uses.
#[derive(Clone, Copy, PartialEq, Eq, Structural, Debug)]
pub enum Global {
    Compositor,
    WmBase,
    Shm,
}

/// What the program has of the compositor.
#[derive(Clone, Copy, PartialEq, Eq, Structural, Debug)]
pub struct FrameMonitor {
    /// The compositor interface is bound.
    pub compositor: bool,
    /// The window manager interface is bound.
    pub wm_base: bool,
    /// The shared memory interface is bound.
    pub shm: bool,
    /// The window exists.
    pub surface: bool,
    /// The compositor has configured the window.
    pub configured: bool,
    /// A frame callback has been asked for and has not come.
    pub frame_pending: bool,
}

/// The interface of that name, and the version to bind.
pub open spec fn global_of(interface: Seq<char>) -> Option<(Global, u32)> {
    if interface == "wl_compositor"@ {
        Some((Global::Compositor, 4))
    } else if interface == "xdg_wm_base"@ {
        Some((Global::WmBase, 2))
    } else if interface == "wl_shm"@ {
        Some((Global::Shm, 1))
    } else {
        None
    }
}

/// The monitor after it has bound `global`.
pub open spec fn bound(monitor: FrameMonitor, global: Global) -> FrameMonitor {
    match global {
        Global::Compositor => FrameMonitor { compositor: true, ..monitor },
        Global::WmBase => FrameMonitor { wm_base: true, ..monitor },
        Global::Shm => FrameMonitor { shm: true, ..monitor },
    }
}

impl FrameMonitor {
    /// Nothing yet.
    pub fn new() -> (monitor: FrameMonitor)
        ensures
            monitor == (FrameMonitor {
                compositor: false,
                wm_base: false,
                shm: false,
                surface: false,
                configured: false,
                frame_pending: false,
            }),
    {
        FrameMonitor {
            compositor: false,
            wm_base: false,
            shm: false,
            surface: false,
            configured: false,
            frame_pending: false,
        }
    }

    /// The compositor announces an interface: whether to bind it, and in which
    /// version.
    pub fn on_global(&mut self, interface: &str) -> (bind: Option<(Global, u32)>)
        ensures
            bind == global_of(interface@),
            *final(self) == (match bind {
                Some((global, _)) => bound(*old(self), global),
                None => *old(self),
            }),
    {
        if text::same_text(interface, "wl_compositor") {
            self.compositor = true;
            Some((Global::Compositor, 4))
        } else if text::same_text(interface, "xdg_wm_base") {
            self.wm_base = true;
            Some((Global::WmBase, 2))
        } else if text::same_text(interface, "wl_shm") {
            self.shm = true;
            Some((Global::Shm, 1))
        } else {
            None
        }
    }

    /// The compositor configures the window: the serial number to acknowledge.
    pub fn on_configure(&mut self, serial: u32) -> (acknowledge: u32)
        ensures
            acknowledge == serial,
            *final(self) == (FrameMonitor { configured: true, ..*old(self) }),
    {
        self.configured = true;
        serial
    }

    /// A frame callback comes, `elapsed` nanoseconds after the start: sends a
    /// display event.
    pub fn on_frame_done(
        &mut self,
        sink: &mut Option<EventSink>,
        timeline: &mut Timeline,
        elapsed: Option<u128>,
    ) -> (delivery: Delivery)
        ensures
            *final(self) == after_frame_event(*old(self), FrameEvent::Done),
            events::display_event_sent(
                *old(sink),
                *final(sink),
                *old(timeline),
                *final(timeline),
                elapsed,
                delivery,
            ),
    {
        self.frame_pending = false;
        events::send_display_event(sink, timeline, elapsed)
    }

    /// Decides, after the display event of a frame callback is sent, whether
    /// to ask for the next frame.
    pub fn next_frame(&mut self, running: bool) -> (ask: bool)
        ensures
            ask == asks_again(*old(self), running),
            *final(self) == after_frame_event(*old(self), FrameEvent::Next(running)),
    {
        if running && self.surface {
            self.frame_pending = true;
            true
        } else {
            false
        }
    }
}

/// The compositor asks whether the program is alive: the serial number to
/// answer with.
pub fn on_ping(serial: u32) -> (pong: u32)
    ensures
        pong == serial,
{
    serial
}

/// What the last call came to.
#[derive(Clone, Copy, PartialEq, Eq, Structural, Debug)]
pub enum WaylandEvent {
    /// Whether there is a connection.
    Connected(bool),
    /// Whether the first round trip, which announces the interfaces, worked.
    RoundtripDone(bool),
    /// Whether the window and its buffer could be made.
    WindowCreated(bool),
    /// Before the window is shown: is the program still running?
    ConfigureCheck(bool),
    /// Before the window is shown: whether dispatching worked.
    ConfigureDispatched(bool),
    /// In the event loop: is the program still running?
    StreamCheck(bool),
    /// In the event loop: whether dispatching worked, and whether the program
    /// is still running.
    StreamDispatched(bool, bool),
    /// Whether the requests could be flushed.
    Flushed(bool),
}

/// What to do next.
#[derive(Clone, Copy, PartialEq, Eq, Structural, Debug)]
pub enum WaylandAction {
    /// Make the first round trip.
    Roundtrip,
    /// There is nothing to monitor: wait for the end of the program.
    WaitForShutdown,
    /// Make the window and its buffer, and commit it to be configured.
    CreateWindow,
    /// Ask whether the program is still running, before the window is shown.
    CheckConfigure,
    /// Wait for events and dispatch them.
    Dispatch,
    /// Attach the buffer, ask for the first frame, and commit.
    ShowWindow,
    /// Ask whether the program is still running, in the event loop.
    CheckStream,
    /// Read events and dispatch what is there.
    ReadAndDispatch,
    /// Ask for a frame and commit, then flush.
    RequestFrame,
    /// Flush the requests.
    Flush,
    /// End; all is well.
    Finish,
    /// End with the error of the call that failed.
    Fail,
}

/// What to do after `event`.
pub open spec fn next_action(monitor: FrameMonitor, event: WaylandEvent) -> WaylandAction {
    match event {
        WaylandEvent::Connected(true) => WaylandAction::Roundtrip,
        WaylandEvent::Connected(false) => WaylandAction::WaitForShutdown,
        WaylandEvent::RoundtripDone(true) => if monitor.compositor && monitor.shm
            && monitor.wm_base {
            WaylandAction::CreateWindow
        } else {
            WaylandAction::WaitForShutdown
        },
        WaylandEvent::WindowCreated(true) => WaylandAction::CheckConfigure,
        WaylandEvent::ConfigureCheck(running) => if !monitor.configured && running {
            WaylandAction::Dispatch
        } else if monitor.surface {
            WaylandAction::ShowWindow
        } else {
            WaylandAction::CheckStream
        },
        WaylandEvent::ConfigureDispatched(true) => WaylandAction::CheckConfigure,
        WaylandEvent::StreamCheck(true) => WaylandAction::ReadAndDispatch,
        WaylandEvent::StreamCheck(false) => WaylandAction::Finish,
        WaylandEvent::StreamDispatched(true, running) => if !monitor.frame_pending && running
            && monitor.surface {
            WaylandAction::RequestFrame
        } else {
            WaylandAction::Flush
        },
        WaylandEvent::Flushed(true) => WaylandAction::CheckStream,
        WaylandEvent::RoundtripDone(false)
        | WaylandEvent::WindowCreated(false)
        | WaylandEvent::ConfigureDispatched(false)
        | WaylandEvent::StreamDispatched(false, _)
        | WaylandEvent::Flushed(false) => WaylandAction::Fail,
    }
}

/// The monitor after `event`: a window that has been made is there, and a
/// frame that is asked for is pending.
pub open spec fn next_monitor(monitor: FrameMonitor, event: WaylandEvent) -> FrameMonitor {
    FrameMonitor {
        surface: monitor.surface || event == WaylandEvent::WindowCreated(true),
        frame_pending: monitor.frame_pending || asks_for_frame(next_action(monitor, event)),
        ..monitor
    }
}

/// Whether an action asks for a frame callback.
pub open spec fn asks_for_frame(action: WaylandAction) -> bool {
    action == WaylandAction::ShowWindow || action == WaylandAction::RequestFrame
}

/// Decides what the monitor of the display does next.
pub fn monitor_wayland_frames(monitor: &mut FrameMonitor, event: WaylandEvent) -> (action:
    WaylandAction)
    ensures
        action == next_action(*old(monitor), event),
        *final(monitor) == after_frame_event(*old(monitor), FrameEvent::Step(event)),
{
    match event {
        WaylandEvent::Connected(connected) => if connected {
            WaylandAction::Roundtrip
        } else {
            WaylandAction::WaitForShutdown
        },
        WaylandEvent::RoundtripDone(worked) => if !worked {
            WaylandAction::Fail
        } else if monitor.compositor && monitor.shm && monitor.wm_base {
            WaylandAction::CreateWindow
        } else {
            WaylandAction::WaitForShutdown
        },
        WaylandEvent::WindowCreated(created) => if !created {
            WaylandAction::Fail
        } else {
            monitor.surface = true;
            WaylandAction::CheckConfigure
        },
        WaylandEvent::ConfigureCheck(running) => if !monitor.configured && running {
            WaylandAction::Dispatch
        } else if monitor.surface {
            monitor.frame_pending = true;
            WaylandAction::ShowWindow
        } else {
            WaylandAction::CheckStream
        },
        WaylandEvent::ConfigureDispatched(worked) => if worked {
            WaylandAction::CheckConfigure
        } else {
            WaylandAction::Fail
        },
        WaylandEvent::StreamCheck(running) => if running {
            WaylandAction::ReadAndDispatch
        } else {
            WaylandAction::Finish
        },
        WaylandEvent::StreamDispatched(worked, running) => if !worked {
            WaylandAction::Fail
        } else if !monitor.frame_pending && running && monitor.surface {
            monitor.frame_pending = true;
            WaylandAction::RequestFrame
        } else {
            WaylandAction::Flush
        },
        WaylandEvent::Flushed(worked) => if worked {
            WaylandAction::CheckStream
        } else {
            WaylandAction::Fail
        },
    }
}

/// The shared memory behind the window.
#[derive(Debug, PartialEq, Eq)]
pub struct WindowBuffer {
    /// How many bytes it has.
    pub size: usize,
    /// Its width in pixels.
    pub width: i32,
    /// Its height in pixels.
    pub height: i32,
    /// How many bytes a row of pixels has.
    pub stride: i32,
    /// What it holds.
    pub pixels: Vec<u8>,
}

/// Lays out the window's buffer: four bytes for each pixel, all of them grey.
pub fn create_buffer() -> (buffer: WindowBuffer)
    ensures
        buffer.width == WINDOW_WIDTH,
        buffer.height == WINDOW_HEIGHT,
        buffer.stride == 4 * WINDOW_WIDTH,
        buffer.size == 4 * WINDOW_WIDTH * WINDOW_HEIGHT,
        buffer.pixels@ == Seq::new(buffer.size as nat, |i: int| PIXEL_BYTE),
        buffer.width == 1 && buffer.height == 1 && buffer.stride == 4 && buffer.size == 4,
        buffer.pixels@ == seq![0x80u8, 0x80u8, 0x80u8, 0x80u8],
{
    let size: usize = (WINDOW_WIDTH * WINDOW_HEIGHT * 4) as usize;
    let mut pixels: Vec<u8> = Vec::new();
    while pixels.len() < size
        invariant
            pixels@.len() <= size,
            forall|i: int| 0 <= i < pixels@.len() ==> pixels@[i] == PIXEL_BYTE,
        decreases size - pixels@.len(),
    {
        pixels.push(PIXEL_BYTE);
    }
    assert(pixels@ =~= Seq::new(size as nat, |i: int| PIXEL_BYTE));
    assert(pixels@ =~= seq![0x80u8, 0x80u8, 0x80u8, 0x80u8]);
    WindowBuffer {
        size,
        width: WINDOW_WIDTH,
        height: WINDOW_HEIGHT,
        stride: WINDOW_WIDTH * 4,
        pixels,
    }
}

/// Something that happens to the monitor once the window exists.
pub enum FrameEvent {
    /// A step of the program.
    Step(WaylandEvent),
    /// A frame callback.
    Done,
    /// After a frame callback: is the program still running?
    Next(bool),
}

/// Whether the next frame is asked for after a frame callback.
pub open spec fn asks_again(monitor: FrameMonitor, running: bool) -> bool {
    running && monitor.surface
}

/// The monitor after one such event.
pub open spec fn after_frame_event(monitor: FrameMonitor, event: FrameEvent) -> FrameMonitor {
    match event {
        FrameEvent::Step(step) => next_monitor(monitor, step),
        FrameEvent::Done => FrameMonitor { frame_pending: false, ..monitor },
        FrameEvent::Next(running) => FrameMonitor {
            frame_pending: monitor.frame_pending || asks_again(monitor, running),
            ..monitor
        },
    }
}

/// The monitor after some such events.
pub open spec fn after_frame_events(monitor: FrameMonitor, events: Seq<FrameEvent>) -> FrameMonitor
    decreases events.len(),
{
    if events.len() == 0 {
        monitor
    } else {
        after_frame_event(after_frame_events(monitor, events.drop_last()), events.last())
    }
}

/// How many frame callbacks are asked for and have not come, after some
/// events.
pub open spec fn outstanding(monitor: FrameMonitor, events: Seq<FrameEvent>) -> int
    decreases events.len(),
{
    if events.len() == 0 {
        0
    } else {
        let before = after_frame_events(monitor, events.drop_last());
        outstanding(monitor, events.drop_last()) + match events.last() {
            FrameEvent::Step(step) => if asks_for_frame(next_action(before, step)) {
                1int
            } else {
                0
            },
            FrameEvent::Done => -1int,
            FrameEvent::Next(running) => if asks_again(before, running) {
                1int
            } else {
                0
            },
        }
    }
}

/// Whether a callback comes only where one is awaited, the next frame is asked
/// for only behind a callback, and the window is shown only before the first
/// frame is asked for.
pub open spec fn in_order(monitor: FrameMonitor, events: Seq<FrameEvent>) -> bool
    decreases events.len(),
{
    if events.len() == 0 {
        true
    } else {
        let before = after_frame_events(monitor, events.drop_last());
        &&& in_order(monitor, events.drop_last())
        &&& events.last() is Done ==> before.frame_pending
        &&& events.last() matches FrameEvent::Step(WaylandEvent::ConfigureCheck(_))
            ==> !before.frame_pending
        &&& events.last() is Next ==> !before.frame_pending
    }
}

/// At most one frame callback is outstanding at any time, and one is exactly
/// while the monitor counts a frame as pending: no refresh is counted twice.
pub proof fn lemma_one_frame_outstanding(monitor: FrameMonitor, events: Seq<FrameEvent>)
    requires
        !monitor.frame_pending,
        in_order(monitor, events),
    ensures
        outstanding(monitor, events) == (if after_frame_events(monitor, events).frame_pending {
            1int
        } else {
            0
        }),
    decreases events.len(),
{
    if events.len() > 0 {
        lemma_one_frame_outstanding(monitor, events.drop_last());
    }
}

/// A frame callback leaves a frame pending exactly if the program still runs
/// and the window is there, and changes nothing else.
pub proof fn lemma_callback_asks_for_next(monitor: FrameMonitor, running: bool)
    ensures
        after_frame_event(
            after_frame_event(monitor, FrameEvent::Done),
            FrameEvent::Next(running),
        ) == (FrameMonitor { frame_pending: running && monitor.surface, ..monitor }),
{
}

/// While the program runs and the window is there, each pass through the event
/// loop leaves a frame pending, so that the next refresh will be seen.
pub proof fn lemma_frame_always_pending(monitor: FrameMonitor)
    requires
        monitor.surface,
    ensures
        next_monitor(monitor, WaylandEvent::StreamDispatched(true, true)).frame_pending,
{
}

/// Once the program is to end, neither the event loop nor a frame callback
/// asks for another frame, and the event loop ends.
pub proof fn lemma_no_frame_after_end(monitor: FrameMonitor)
    ensures
        !asks_for_frame(next_action(monitor, WaylandEvent::StreamDispatched(true, false))),
        !asks_again(monitor, false),
        next_action(monitor, WaylandEvent::StreamCheck(false)) == WaylandAction::Finish,
{
}

/// Three interfaces are bound, in these versions; no other is.
pub proof fn lemma_globals(interface: Seq<char>)
    ensures
        global_of("wl_compositor"@) == Some((Global::Compositor, 4u32)),
        global_of("xdg_wm_base"@) == Some((Global::WmBase, 2u32)),
        global_of("wl_shm"@) == Some((Global::Shm, 1u32)),
        interface != "wl_compositor"@ && interface != "xdg_wm_base"@ && interface != "wl_shm"@
            ==> global_of(interface) is None,
{
    reveal_strlit("wl_compositor");
    reveal_strlit("xdg_wm_base");
    reveal_strlit("wl_shm");
    assert("wl_compositor"@.len() == 13 && "xdg_wm_base"@.len() == 11 && "wl_shm"@.len() == 6);
}

/// Binding an interface is remembered of that interface, and changes nothing
/// else.
pub proof fn lemma_bound(monitor: FrameMonitor, global: Global)
    ensures
        ({
            let after = bound(monitor, global);
            &&& after.compositor <==> monitor.compositor || global == Global::Compositor
            &&& after.wm_base <==> monitor.wm_base || global == Global::WmBase
            &&& after.shm <==> monitor.shm || global == Global::Shm
            &&& after.surface == monitor.surface
            &&& after.configured == monitor.configured
            &&& after.frame_pending == monitor.frame_pending
        }),
{
}

/// How the window comes about: the interfaces are asked for once there is a
/// connection, the window is made only with all three of them, and it is shown
/// only once it is configured, or the program is to end. Without a connection
/// or one of the interfaces there is nothing to do but wait for the end.
pub proof fn lemma_window_decisions(monitor: FrameMonitor, running: bool)
    ensures
        next_action(monitor, WaylandEvent::Connected(true)) == WaylandAction::Roundtrip,
        next_action(monitor, WaylandEvent::Connected(false)) == WaylandAction::WaitForShutdown,
        monitor.compositor && monitor.wm_base && monitor.shm ==> next_action(
            monitor,
            WaylandEvent::RoundtripDone(true),
        ) == WaylandAction::CreateWindow,
        !monitor.compositor || !monitor.wm_base || !monitor.shm ==> next_action(
            monitor,
            WaylandEvent::RoundtripDone(true),
        ) == WaylandAction::WaitForShutdown,
        next_action(monitor, WaylandEvent::WindowCreated(true)) == WaylandAction::CheckConfigure,
        next_action(monitor, WaylandEvent::ConfigureDispatched(true))
            == WaylandAction::CheckConfigure,
        !monitor.configured ==> next_action(monitor, WaylandEvent::ConfigureCheck(true))
            == WaylandAction::Dispatch,
        monitor.surface && (monitor.configured || !running) ==> next_action(
            monitor,
            WaylandEvent::ConfigureCheck(running),
        ) == WaylandAction::ShowWindow,
        !monitor.surface && (monitor.configured || !running) ==> next_action(
            monitor,
            WaylandEvent::ConfigureCheck(running),
        ) == WaylandAction::CheckStream,
{
}

/// How the display is watched: events are read while the program runs, a frame
/// is asked for exactly if none is pending, the window is there and the
/// program runs, and each pass ends with a flush. A call that fails ends the
/// monitor with its error.
pub proof fn lemma_stream_decisions(monitor: FrameMonitor, running: bool)
    ensures
        next_action(monitor, WaylandEvent::StreamCheck(true)) == WaylandAction::ReadAndDispatch,
        next_action(monitor, WaylandEvent::StreamCheck(false)) == WaylandAction::Finish,
        !monitor.frame_pending && monitor.surface && running ==> next_action(
            monitor,
            WaylandEvent::StreamDispatched(true, running),
        ) == WaylandAction::RequestFrame,
        monitor.frame_pending || !monitor.surface || !running ==> next_action(
            monitor,
            WaylandEvent::StreamDispatched(true, running),
        ) == WaylandAction::Flush,
        next_action(monitor, WaylandEvent::Flushed(true)) == WaylandAction::CheckStream,
        next_action(monitor, WaylandEvent::RoundtripDone(false)) == WaylandAction::Fail,
        next_action(monitor, WaylandEvent::WindowCreated(false)) == WaylandAction::Fail,
        next_action(monitor, WaylandEvent::ConfigureDispatched(false)) == WaylandAction::Fail,
        next_action(monitor, WaylandEvent::StreamDispatched(false, running))
            == WaylandAction::Fail,
        next_action(monitor, WaylandEvent::Flushed(false)) == WaylandAction::Fail,
{
}

/// What a step changes: a window that was made is there, a frame that is asked
/// for, by showing the window or in the event loop, is pending, and nothing
/// else is different.
pub proof fn lemma_step_remembered(monitor: FrameMonitor, event: WaylandEvent)
    ensures
        ({
            let after = after_frame_event(monitor, FrameEvent::Step(event));
            let action = next_action(monitor, event);
            &&& after.surface <==> monitor.surface || event == WaylandEvent::WindowCreated(true)
            &&& after.frame_pending <==> monitor.frame_pending || action
                == WaylandAction::ShowWindow || action == WaylandAction::RequestFrame
            &&& after.compositor == monitor.compositor
            &&& after.wm_base == monitor.wm_base
            &&& after.shm == monitor.shm
            &&& after.configured == monitor.configured
        }),
{
}

/// A frame callback is no longer pending once it has come, and the next frame
/// is asked for exactly if the program runs and the window is there.
pub proof fn lemma_callback_decisions(monitor: FrameMonitor, running: bool)
    ensures
        after_frame_event(monitor, FrameEvent::Done) == (FrameMonitor {
            frame_pending: false,
            ..monitor
        }),
        asks_again(monitor, running) <==> running && monitor.surface,
        after_frame_event(monitor, FrameEvent::Next(running)).frame_pending
            <==> monitor.frame_pending || (running && monitor.surface),
{
}

} // verus!
