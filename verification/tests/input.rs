use jerkmon::bytes::ByteOrder;
use jerkmon::evdev::{
    is_mouse_device, monitor_device, read_movement, InputEvent, MonitorAction, MonitorEvent, EV_REL,
    INPUT_EVENT_LEN, READ_BUFFER_LEN, REL_X, REL_Y,
};

fn record(type_: u16, code: u16, value: i32) -> Vec<u8> {
    let mut bytes = Vec::new();
    bytes.extend_from_slice(&1_700_000_000i64.to_le_bytes());
    bytes.extend_from_slice(&(-3i64).to_le_bytes());
    bytes.extend_from_slice(&type_.to_le_bytes());
    bytes.extend_from_slice(&code.to_le_bytes());
    bytes.extend_from_slice(&value.to_le_bytes());
    bytes
}

fn moved(bytes: &[u8]) -> Option<(i32, i32)> {
    read_movement(bytes, ByteOrder::Little)
}

#[test]
fn a_record_is_read_field_by_field() {
    let event = InputEvent::decode(&record(2, 1, -40), ByteOrder::Little);
    assert_eq!(
        event,
        InputEvent { tv_sec: 1_700_000_000, tv_usec: -3, type_: 2, code: 1, value: -40 }
    );
    assert_eq!(record(0, 0, 0).len(), INPUT_EVENT_LEN);
    assert_eq!(READ_BUFFER_LEN, 64 * INPUT_EVENT_LEN);
}

#[test]
fn a_record_is_read_on_a_big_endian_machine() {
    let mut bytes = Vec::new();
    bytes.extend_from_slice(&5i64.to_be_bytes());
    bytes.extend_from_slice(&6i64.to_be_bytes());
    bytes.extend_from_slice(&2u16.to_be_bytes());
    bytes.extend_from_slice(&0u16.to_be_bytes());
    bytes.extend_from_slice(&(-9i32).to_be_bytes());
    assert_eq!(
        InputEvent::decode(&bytes, ByteOrder::Big),
        InputEvent { tv_sec: 5, tv_usec: 6, type_: EV_REL, code: REL_X, value: -9 }
    );
    assert_eq!(read_movement(&bytes, ByteOrder::Big), Some((-9, 0)));
}

#[test]
fn movements_of_a_batch_add_up() {
    let mut batch = Vec::new();
    batch.extend(record(EV_REL, REL_X, 4));
    batch.extend(record(EV_REL, REL_Y, -2));
    batch.extend(record(EV_REL, 8, 100));
    batch.extend(record(1, REL_X, 100));
    batch.extend(record(EV_REL, REL_X, -7));
    batch.extend(record(0, 0, 0));
    assert_eq!(moved(&batch), Some((-3, -2)));
}

#[test]
fn a_movement_of_zero_is_still_a_movement() {
    let mut batch = record(EV_REL, REL_X, 5);
    batch.extend(record(EV_REL, REL_X, -5));
    assert_eq!(moved(&batch), Some((0, 0)));
}

#[test]
fn other_records_are_no_movement() {
    let mut batch = record(1, REL_X, 5);
    batch.extend(record(EV_REL, 2, 5));
    assert_eq!(moved(&batch), None);
    assert_eq!(moved(&[]), None);
    assert_eq!(moved(&record(EV_REL, REL_X, 5)[..23]), None);
}

#[test]
fn a_partial_record_is_ignored() {
    let mut batch = record(EV_REL, REL_X, 5);
    batch.extend(&record(EV_REL, REL_X, 70)[..20]);
    assert_eq!(moved(&batch), Some((5, 0)));
}

#[test]
fn two_reads_add_up_to_one() {
    let first = record(EV_REL, REL_X, 5);
    let second = [record(EV_REL, REL_Y, 3), record(EV_REL, REL_X, 1)].concat();
    let (x1, y1) = moved(&first).unwrap();
    let (x2, y2) = moved(&second).unwrap();
    assert_eq!(moved(&[first, second].concat()), Some((x1 + x2, y1 + y2)));
}

#[test]
fn sums_wrap_around() {
    let mut batch = record(EV_REL, REL_X, i32::MAX);
    batch.extend(record(EV_REL, REL_X, 2));
    batch.extend(record(EV_REL, REL_Y, i32::MIN));
    batch.extend(record(EV_REL, REL_Y, -1));
    assert_eq!(moved(&batch), Some((i32::MIN + 1, i32::MAX)));
}

#[test]
fn a_mouse_has_both_axes() {
    assert!(is_mouse_device(0, [0x03, 0]));
    assert!(is_mouse_device(2, [0xff, 0xff]));
    assert!(!is_mouse_device(-1, [0x03, 0]));
    assert!(!is_mouse_device(0, [0x01, 0]));
    assert!(!is_mouse_device(0, [0x02, 0xff]));
    assert!(!is_mouse_device(0, [0, 0x03]));
}

#[test]
fn a_monitor_goes_through_its_loop() {
    let order = ByteOrder::Little;
    assert_eq!(monitor_device(MonitorEvent::Opened(true), order), MonitorAction::CheckRunning);
    assert_eq!(monitor_device(MonitorEvent::Opened(false), order), MonitorAction::Abandon);
    assert_eq!(monitor_device(MonitorEvent::Running(true), order), MonitorAction::Select);
    assert_eq!(monitor_device(MonitorEvent::Running(false), order), MonitorAction::Finish);
    assert_eq!(monitor_device(MonitorEvent::Selected(-1), order), MonitorAction::Fail);
    assert_eq!(monitor_device(MonitorEvent::Selected(0), order), MonitorAction::CheckRunning);
    assert_eq!(monitor_device(MonitorEvent::Selected(1), order), MonitorAction::Read);
    assert_eq!(monitor_device(MonitorEvent::Read(&[1, 2]), order), MonitorAction::CheckRunning);
    let step = record(EV_REL, REL_Y, 6);
    assert_eq!(monitor_device(MonitorEvent::Read(&step), order), MonitorAction::Report(0, 6));
    assert_eq!(monitor_device(MonitorEvent::ReadFailed, order), MonitorAction::Fail);
}
