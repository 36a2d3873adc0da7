//! How the program's loops end.
use crate::bytes::ByteOrder;
use crate::evdev;
use crate::inotify;
use crate::wayland;
use crate::websocket;
use vstd::prelude::*;

verus! {

/// Once the program is to end, every loop does so at its next look at whether
/// it is running: the device monitors and the display monitor without an
/// error, the search for devices after closing its descriptor, and the two
/// loops of the server at the next wait in vain.
pub proof fn lemma_every_loop_ends(monitor: wayland::FrameMonitor, order: ByteOrder)
    ensures
        evdev::monitor_step(evdev::MonitorEvent::Running(false), order)
            == evdev::MonitorAction::Finish,
        inotify::discovery_next(inotify::DiscoveryEvent::Running(false), order)
            == inotify::DiscoveryView::Close,
        wayland::next_action(monitor, wayland::WaylandEvent::StreamCheck(false))
            == wayland::WaylandAction::Finish,
        wayland::next_action(monitor, wayland::WaylandEvent::ConfigureCheck(false))
            != wayland::WaylandAction::Dispatch,
        websocket::bridge_flow(websocket::Received::Timeout, false) == websocket::Flow::Stop,
        websocket::accept_action(websocket::AcceptEvent::Tick(false))
            == websocket::AcceptAction::Stop,
{
}

/// While the program runs, no loop ends for want of events: each waits again.
pub proof fn lemma_no_loop_ends_early(monitor: wayland::FrameMonitor, order: ByteOrder)
    ensures
        evdev::monitor_step(evdev::MonitorEvent::Running(true), order)
            == evdev::MonitorAction::Select,
        evdev::monitor_step(evdev::MonitorEvent::Selected(0), order)
            == evdev::MonitorAction::CheckRunning,
        inotify::discovery_next(inotify::DiscoveryEvent::Running(true), order)
            == inotify::DiscoveryView::Select,
        inotify::discovery_next(inotify::DiscoveryEvent::Selected(0), order)
            == inotify::DiscoveryView::CheckRunning,
        wayland::next_action(monitor, wayland::WaylandEvent::StreamCheck(true))
            == wayland::WaylandAction::ReadAndDispatch,
        websocket::bridge_flow(websocket::Received::Timeout, true) == websocket::Flow::Continue,
        websocket::accept_action(websocket::AcceptEvent::Tick(true))
            == websocket::AcceptAction::Wait,
{
}

} // verus!
