use jerkmon::channel::{event_channel, Delivery};
use jerkmon::events::{send_display_event, send_event, send_mouse_event, Timeline};

#[test]
fn times_count_from_the_event_before() {
    let mut timeline = Timeline::new();
    assert_eq!(timeline.display(100), 100);
    assert_eq!(timeline.display(250), 150);
    assert_eq!(timeline.mouse(300), 300);
    assert_eq!(timeline.mouse(301), 1);
    assert_eq!(timeline.display(400), 150);
    assert_eq!(timeline, Timeline { last_display_ns: 400, last_mouse_ns: 301 });
}

#[test]
fn a_clock_that_runs_back_gives_zero() {
    let mut timeline = Timeline::new();
    timeline.mouse(1000);
    assert_eq!(timeline.mouse(400), 0);
    assert_eq!(timeline.last_mouse_ns, 400);
}

#[test]
fn a_long_time_is_cut_to_sixty_four_bits() {
    let mut timeline = Timeline::new();
    let nanos = (1u128 << 64) + 77;
    assert_eq!(timeline.display(nanos), 77);
    assert_eq!(timeline.last_display_ns, nanos as u64);
    assert_eq!(timeline.mouse(u128::MAX), u64::MAX);
}

#[test]
fn times_add_up_to_the_last_event() {
    let mut timeline = Timeline::new();
    let mut sum = 0;
    for nanos in [5u128, 5, 17, 90, 4000] {
        sum += timeline.display(nanos);
    }
    assert_eq!(sum, 4000);
}

#[test]
fn an_event_travels_through_the_queue() {
    let (sink, rx) = event_channel();
    let mut sink = Some(sink);
    assert_eq!(send_event(&mut sink, 4, 1, Some((2, 3))), Delivery::Queued);
    assert_eq!(rx.try_recv().unwrap(), vec![4, 0, 0, 0, 0, 0, 0, 0, 1, 0, 0, 0, 2, 0, 0, 0, 3]);
    assert!(rx.try_recv().is_err());
}

#[test]
fn events_travel_in_the_order_of_the_calls() {
    let (sink, rx) = event_channel();
    let mut sink = Some(sink);
    let calls = [(0u8, 1u64, None), (4, 2, Some((3u32, 4u32))), (0, u64::MAX, None), (4, 0, Some((u32::MAX, 0)))];
    for (event_type, delta_ns, data) in calls {
        assert_eq!(send_event(&mut sink, event_type, delta_ns, data), Delivery::Queued);
    }
    for (event_type, delta_ns, data) in calls {
        let frame = rx.try_recv().unwrap();
        assert_eq!(frame[0], event_type);
        assert_eq!(frame[1..9], delta_ns.to_be_bytes());
        match data {
            None => assert_eq!(frame.len(), 9),
            Some((x, y)) => {
                assert_eq!(frame[9..13], x.to_be_bytes());
                assert_eq!(frame[13..], y.to_be_bytes());
            }
        }
    }
    assert!(rx.try_recv().is_err());
}

#[test]
fn without_a_sink_nothing_is_sent() {
    assert_eq!(send_event(&mut None, 0, 1, None), Delivery::Skipped);
}

#[test]
fn a_refused_event_comes_back() {
    let (sink, rx) = event_channel();
    let mut sink = Some(sink);
    drop(rx);
    let delivery = send_event(&mut sink, 0, 0x0102, None);
    assert!(matches!(delivery, Delivery::Refused(frame) if frame == [0, 0, 0, 0, 0, 0, 0, 1, 2]));
}

#[test]
fn display_events_carry_the_time_between_them() {
    let (sink, rx) = event_channel();
    let mut sink = Some(sink);
    let mut timeline = Timeline::new();
    send_display_event(&mut sink, &mut timeline, Some(1000));
    send_display_event(&mut sink, &mut timeline, Some(1258));
    assert_eq!(rx.try_recv().unwrap()[1..], 1000u64.to_be_bytes());
    assert_eq!(rx.try_recv().unwrap(), vec![0, 0, 0, 0, 0, 0, 0, 1, 2]);
    assert_eq!(timeline, Timeline { last_display_ns: 1258, last_mouse_ns: 0 });
}

#[test]
fn mouse_events_carry_the_movement() {
    let (sink, rx) = event_channel();
    let mut sink = Some(sink);
    let mut timeline = Timeline { last_display_ns: 7, last_mouse_ns: 10 };
    assert_eq!(send_mouse_event(&mut sink, &mut timeline, Some(11), -5, 16_777_217), Delivery::Queued);
    let mut expected = vec![4, 0, 0, 0, 0, 0, 0, 0, 1];
    expected.extend_from_slice(&(-5f32).to_be_bytes());
    expected.extend_from_slice(&(16_777_217i32 as f32).to_be_bytes());
    assert_eq!(rx.try_recv().unwrap(), expected);
    assert_eq!(timeline, Timeline { last_display_ns: 7, last_mouse_ns: 11 });
}

#[test]
fn before_the_start_nothing_is_recorded() {
    let (sink, rx) = event_channel();
    let mut sink = Some(sink);
    let mut timeline = Timeline { last_display_ns: 3, last_mouse_ns: 4 };
    assert_eq!(send_display_event(&mut sink, &mut timeline, None), Delivery::Skipped);
    assert_eq!(send_mouse_event(&mut sink, &mut timeline, None, 1, 1), Delivery::Skipped);
    assert_eq!(timeline, Timeline { last_display_ns: 3, last_mouse_ns: 4 });
    assert!(rx.try_recv().is_err());
}

#[test]
fn without_a_sink_the_time_is_still_recorded() {
    let mut timeline = Timeline::new();
    assert_eq!(send_display_event(&mut None, &mut timeline, Some(50)), Delivery::Skipped);
    assert_eq!(send_mouse_event(&mut None, &mut timeline, Some(60), 1, 0), Delivery::Skipped);
    assert_eq!(timeline, Timeline { last_display_ns: 50, last_mouse_ns: 60 });
}

#[test]
fn the_queue_has_no_limit() {
    let (sink, rx) = event_channel();
    let mut sink = Some(sink);
    for i in 0..10_000u64 {
        assert_eq!(send_event(&mut sink, 0, i, None), Delivery::Queued);
    }
    assert_eq!(rx.len(), 10_000);
}

#[test]
fn the_times_of_each_kind_are_read_from_the_queue() {
    let (sink, rx) = event_channel();
    let mut sink = Some(sink);
    let mut timeline = Timeline::new();
    send_display_event(&mut sink, &mut timeline, Some(100));
    send_mouse_event(&mut sink, &mut timeline, Some(130), 1, 0);
    send_mouse_event(&mut sink, &mut timeline, Some(135), 1, 0);
    send_display_event(&mut sink, &mut timeline, Some(180));
    send_mouse_event(&mut sink, &mut timeline, Some(200), 0, 1);
    let mut display = Vec::new();
    let mut mouse = Vec::new();
    while let Ok(frame) = rx.try_recv() {
        let mut time = [0u8; 8];
        time.copy_from_slice(&frame[1..9]);
        let times = if frame[0] == 0 { &mut display } else { &mut mouse };
        times.push(u64::from_be_bytes(time));
    }
    assert_eq!(display, vec![100, 80]);
    assert_eq!(mouse, vec![130, 5, 65]);
}
