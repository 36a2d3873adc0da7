use jerkmon::channel::{event_channel, Delivery};
use jerkmon::events::Timeline;
use jerkmon::wayland::{
    create_buffer, monitor_wayland_frames, on_ping, FrameMonitor, Global, WaylandAction, WaylandEvent, WindowBuffer,
};

fn bound() -> FrameMonitor {
    let mut monitor = FrameMonitor::new();
    monitor.on_global("wl_compositor");
    monitor.on_global("wl_shm");
    monitor.on_global("xdg_wm_base");
    monitor
}

#[test]
fn interfaces_are_bound_by_name() {
    let mut monitor = FrameMonitor::new();
    assert_eq!(monitor.on_global("wl_seat"), None);
    assert_eq!(monitor, FrameMonitor::new());
    assert_eq!(monitor.on_global("wl_compositor"), Some((Global::Compositor, 4)));
    assert_eq!(monitor.on_global("xdg_wm_base"), Some((Global::WmBase, 2)));
    assert!(!monitor.shm);
    assert_eq!(monitor.on_global("wl_shm"), Some((Global::Shm, 1)));
    assert!(monitor.compositor && monitor.wm_base && monitor.shm);
    assert_eq!(monitor.on_global("wl_shm_pool"), None);
}

#[test]
fn without_a_compositor_there_is_nothing_to_do() {
    let mut monitor = FrameMonitor::new();
    assert_eq!(
        monitor_wayland_frames(&mut monitor, WaylandEvent::Connected(false)),
        WaylandAction::WaitForShutdown
    );
    monitor.on_global("wl_compositor");
    assert_eq!(
        monitor_wayland_frames(&mut monitor, WaylandEvent::RoundtripDone(true)),
        WaylandAction::WaitForShutdown
    );
}

#[test]
fn a_run_from_start_to_end() {
    let mut monitor = FrameMonitor::new();
    let mut step = |monitor: &mut FrameMonitor, event| monitor_wayland_frames(monitor, event);
    assert_eq!(step(&mut monitor, WaylandEvent::Connected(true)), WaylandAction::Roundtrip);
    monitor = bound();
    assert_eq!(step(&mut monitor, WaylandEvent::RoundtripDone(true)), WaylandAction::CreateWindow);
    assert_eq!(step(&mut monitor, WaylandEvent::WindowCreated(true)), WaylandAction::CheckConfigure);
    assert_eq!(step(&mut monitor, WaylandEvent::ConfigureCheck(true)), WaylandAction::Dispatch);
    assert_eq!(monitor.on_configure(41), 41);
    assert_eq!(step(&mut monitor, WaylandEvent::ConfigureDispatched(true)), WaylandAction::CheckConfigure);
    assert_eq!(step(&mut monitor, WaylandEvent::ConfigureCheck(true)), WaylandAction::ShowWindow);
    assert!(monitor.frame_pending);
    assert_eq!(step(&mut monitor, WaylandEvent::StreamCheck(true)), WaylandAction::ReadAndDispatch);
    assert_eq!(step(&mut monitor, WaylandEvent::StreamDispatched(true, true)), WaylandAction::Flush);
    assert_eq!(step(&mut monitor, WaylandEvent::Flushed(true)), WaylandAction::CheckStream);
    monitor.frame_pending = false;
    assert_eq!(step(&mut monitor, WaylandEvent::StreamDispatched(true, false)), WaylandAction::Flush);
    assert!(!monitor.frame_pending);
    assert_eq!(step(&mut monitor, WaylandEvent::StreamDispatched(true, true)), WaylandAction::RequestFrame);
    assert!(monitor.frame_pending);
    assert_eq!(step(&mut monitor, WaylandEvent::StreamCheck(false)), WaylandAction::Finish);
}

#[test]
fn a_call_that_fails_ends_the_monitor() {
    for event in [
        WaylandEvent::RoundtripDone(false),
        WaylandEvent::WindowCreated(false),
        WaylandEvent::ConfigureDispatched(false),
        WaylandEvent::StreamDispatched(false, true),
        WaylandEvent::Flushed(false),
    ] {
        let mut monitor = bound();
        assert_eq!(monitor_wayland_frames(&mut monitor, event), WaylandAction::Fail);
        assert_eq!(monitor, bound());
    }
}

#[test]
fn an_early_end_does_not_wait_to_be_configured() {
    let mut monitor = bound();
    monitor.surface = true;
    assert_eq!(
        monitor_wayland_frames(&mut monitor, WaylandEvent::ConfigureCheck(false)),
        WaylandAction::ShowWindow
    );
}

#[test]
fn a_frame_callback_sends_a_display_event() {
    let (sink, rx) = event_channel();
    let mut sink = Some(sink);
    let mut timeline = Timeline { last_display_ns: 100, last_mouse_ns: 0 };
    let mut monitor = bound();
    monitor.surface = true;
    monitor.frame_pending = true;
    assert_eq!(monitor.on_frame_done(&mut sink, &mut timeline, Some(116)), Delivery::Queued);
    assert!(!monitor.frame_pending);
    assert!(monitor.next_frame(true));
    assert!(monitor.frame_pending);
    assert_eq!(rx.try_recv().unwrap(), vec![0, 0, 0, 0, 0, 0, 0, 0, 16]);
    assert_eq!(monitor.on_frame_done(&mut sink, &mut timeline, Some(120)), Delivery::Queued);
    assert!(!monitor.next_frame(false));
    assert!(!monitor.frame_pending);
    assert_eq!(rx.try_recv().unwrap(), vec![0, 0, 0, 0, 0, 0, 0, 0, 4]);
}

#[test]
fn one_frame_is_outstanding_at_a_time() {
    let mut timeline = Timeline::new();
    let mut monitor = bound();
    monitor.surface = true;
    monitor.configured = true;
    let mut outstanding = 0;
    if monitor_wayland_frames(&mut monitor, WaylandEvent::ConfigureCheck(true)) == WaylandAction::ShowWindow {
        outstanding += 1;
    }
    for turn in 0..20u128 {
        if turn % 3 == 0 {
            monitor.on_frame_done(&mut None, &mut timeline, Some(turn));
            outstanding -= 1;
            if monitor.next_frame(turn % 2 == 0) {
                outstanding += 1;
            }
        }
        let action = monitor_wayland_frames(&mut monitor, WaylandEvent::StreamDispatched(true, true));
        if action == WaylandAction::RequestFrame {
            outstanding += 1;
        }
        assert_eq!(outstanding, 1);
        assert!(monitor.frame_pending);
    }
}

#[test]
fn without_a_window_no_frame_is_asked_for() {
    let mut monitor = bound();
    assert!(!monitor.next_frame(true));
    assert!(!monitor.frame_pending);
}

#[test]
fn a_ping_is_answered_with_its_serial() {
    assert_eq!(on_ping(17), 17);
}

#[test]
fn the_window_is_one_grey_pixel() {
    assert_eq!(
        create_buffer(),
        WindowBuffer { size: 4, width: 1, height: 1, stride: 4, pixels: vec![0x80; 4] }
    );
}
