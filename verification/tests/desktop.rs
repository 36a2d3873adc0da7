use jerkmon::channel::{event_channel, Delivery};
use jerkmon::events::Timeline;
use jerkmon::win32::{
    create_window, encode_wide, init_minimal_dxgi, process_single_raw_input, raw_input_len,
    read_raw_movement, send_display_event, send_mouse_event, websocket_server, wnd_proc, ServerAction, ServerEvent,
    SetupAction, SetupEvent, SwapChainPlan, WindowAction, RAW_INPUT_ERROR, WM_DESTROY, WM_INPUT,
};

fn raw_input(kind: u32, header_len: usize, dx: i32, dy: i32) -> Vec<u8> {
    let mut data = kind.to_le_bytes().to_vec();
    data.resize(header_len + 12, 0xee);
    data.extend_from_slice(&dx.to_le_bytes());
    data.extend_from_slice(&dy.to_le_bytes());
    data.extend_from_slice(&[0; 4]);
    data
}

#[test]
fn wide_text_is_that_of_the_standard_library() {
    for text in ["", "jerkmon", "h\u{e9}llo", "\u{ffff}", "\u{10000}", "\u{10ffff}", "a\u{1f42d}b\u{d7ff}\u{e000}"] {
        let expected: Vec<u16> = text.encode_utf16().chain(std::iter::once(0)).collect();
        assert_eq!(encode_wide(text), expected, "{:?}", text);
        let wide = encode_wide(text);
        assert_eq!(String::from_utf16(&wide[..wide.len() - 1]).unwrap(), text);
    }
    assert_eq!(encode_wide("\u{1f42d}"), vec![0xd83d, 0xdc2d, 0]);
}

#[test]
fn a_display_event_is_one_byte_and_a_time() {
    let (sink, rx) = event_channel();
    let mut sink = Some(sink);
    let mut timeline = Timeline { last_display_ns: 10, last_mouse_ns: 20 };
    assert_eq!(send_display_event(&mut sink, &mut timeline, Some(12)), Delivery::Queued);
    assert_eq!(rx.try_recv().unwrap(), vec![0, 0, 0, 0, 0, 0, 0, 0, 2]);
    assert!(rx.try_recv().is_err());
    assert_eq!(timeline, Timeline { last_display_ns: 12, last_mouse_ns: 20 });
    assert_eq!(send_display_event(&mut None, &mut timeline, Some(30)), Delivery::Skipped);
    assert_eq!(send_display_event(&mut sink, &mut timeline, None), Delivery::Skipped);
    assert_eq!(timeline, Timeline { last_display_ns: 12, last_mouse_ns: 20 });
    assert!(rx.try_recv().is_err());
}

#[test]
fn a_mouse_that_stands_still_sends_nothing() {
    let (sink, rx) = event_channel();
    let mut sink = Some(sink);
    let mut timeline = Timeline::new();
    assert_eq!(send_mouse_event(&mut sink, &mut timeline, Some(9), 0, 0), Delivery::Skipped);
    assert_eq!(timeline, Timeline::new());
    assert_eq!(send_mouse_event(&mut sink, &mut timeline, Some(9), 0, -1), Delivery::Queued);
    let mut expected = vec![4, 0, 0, 0, 0, 0, 0, 0, 9, 0, 0, 0, 0];
    expected.extend_from_slice(&(-1f32).to_be_bytes());
    assert_eq!(rx.try_recv().unwrap(), expected);
    assert_eq!(send_mouse_event(&mut None, &mut timeline, Some(11), 1, 1), Delivery::Skipped);
    assert_eq!(send_mouse_event(&mut sink, &mut timeline, None, 1, 1), Delivery::Skipped);
    assert_eq!(timeline.last_mouse_ns, 9);
    drop(rx);
    let refused = send_mouse_event(&mut sink, &mut timeline, Some(10), 1, 0);
    assert!(matches!(refused, Delivery::Refused(frame) if frame[8] == 1));
}

#[test]
fn raw_input_is_read_behind_its_header() {
    for header_len in [16usize, 24] {
        let data = raw_input(0, header_len, -3, 70_000);
        assert_eq!(read_raw_movement(data.len() as u32, &data, header_len), Some((-3, 70_000)));
        assert_eq!(read_raw_movement(RAW_INPUT_ERROR, &data, header_len), None);
        assert_eq!(read_raw_movement(1, &raw_input(1, header_len, 5, 5), header_len), None);
        assert_eq!(read_raw_movement(1, &data[..header_len + 19], header_len), None);
        assert_eq!(read_raw_movement(1, &data[..header_len + 20], header_len), Some((-3, 70_000)));
    }
    assert_eq!(read_raw_movement(1, &[0; 40], usize::MAX), None);
    assert_eq!(read_raw_movement(1, &[], 0), None);
}

#[test]
fn raw_input_from_a_mouse_is_sent() {
    let (sink, rx) = event_channel();
    let mut sink = Some(sink);
    let mut timeline = Timeline::new();
    let data = raw_input(0, 24, 2, 0);
    assert_eq!(process_single_raw_input(&mut sink, &mut timeline, Some(6), 48, &data, 24), Delivery::Queued);
    assert_eq!(rx.try_recv().unwrap()[9..13], 2f32.to_be_bytes());
    let keyboard = raw_input(1, 24, 2, 0);
    assert_eq!(process_single_raw_input(&mut sink, &mut timeline, Some(8), 48, &keyboard, 24), Delivery::Skipped);
    assert_eq!(timeline.last_mouse_ns, 6);
}

#[test]
fn empty_raw_input_is_not_fetched() {
    assert_eq!(raw_input_len(0), None);
    assert_eq!(raw_input_len(48), Some(48));
}

#[test]
fn destroying_the_window_ends_the_program() {
    let mut running = true;
    assert_eq!(wnd_proc(&mut running, WM_INPUT), WindowAction::ProcessInput);
    assert_eq!(wnd_proc(&mut running, 0x0010), WindowAction::Default);
    assert!(running);
    assert_eq!(wnd_proc(&mut running, WM_DESTROY), WindowAction::Quit);
    assert!(!running);
    assert_eq!(wnd_proc(&mut running, 1), WindowAction::Default);
    assert!(!running);
}

#[test]
fn the_window_is_set_up_step_by_step() {
    assert_eq!(create_window(SetupEvent::ModuleFound(true)), SetupAction::CreateWindow);
    assert_eq!(create_window(SetupEvent::WindowCreated(true)), SetupAction::RegisterInput);
    assert_eq!(create_window(SetupEvent::InputRegistered(true)), SetupAction::PrepareDisplay);
    assert_eq!(create_window(SetupEvent::DisplayReady(true)), SetupAction::WatchDisplay);
    assert_eq!(create_window(SetupEvent::ModuleFound(false)), SetupAction::Fail);
    assert_eq!(create_window(SetupEvent::WindowCreated(false)), SetupAction::Fail);
    assert_eq!(create_window(SetupEvent::InputRegistered(false)), SetupAction::Fail);
    assert_eq!(create_window(SetupEvent::DisplayReady(false)), SetupAction::ReportDisplay);
}

#[test]
fn the_message_loop_ends_on_quit_or_error() {
    assert_eq!(create_window(SetupEvent::Message(1)), SetupAction::Dispatch);
    assert_eq!(create_window(SetupEvent::Message(-2)), SetupAction::Dispatch);
    assert_eq!(create_window(SetupEvent::Message(0)), SetupAction::Finish);
    assert_eq!(create_window(SetupEvent::Message(-1)), SetupAction::ReportLoop);
}

#[test]
fn the_swap_chain_is_minimal() {
    assert_eq!(
        init_minimal_dxgi(),
        SwapChainPlan { width: 1, height: 1, sample_count: 1, buffer_count: 2, windowed: true }
    );
}

#[test]
fn the_server_ends_when_it_cannot_accept() {
    assert_eq!(websocket_server(ServerEvent::Bound(true)), ServerAction::Wait);
    assert_eq!(websocket_server(ServerEvent::Bound(false)), ServerAction::ReportBind);
    assert_eq!(websocket_server(ServerEvent::Connected), ServerAction::Join);
    assert_eq!(websocket_server(ServerEvent::HandshakeFailed), ServerAction::Wait);
    assert_eq!(websocket_server(ServerEvent::AcceptFailed), ServerAction::Stop);
}
