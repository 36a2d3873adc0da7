use jerkmon::bytes::ByteOrder;
use jerkmon::inotify::{
    device_change, device_changes, discovery_step, DeviceChange, DiscoveryAction, DiscoveryEvent, IN_ATTRIB, IN_CREATE,
    IN_DELETE,
};

fn record(mask: u32, name: &[u8], len: u32) -> Vec<u8> {
    let mut bytes = Vec::new();
    bytes.extend_from_slice(&1i32.to_le_bytes());
    bytes.extend_from_slice(&mask.to_le_bytes());
    bytes.extend_from_slice(&0xaaaa_aaaau32.to_le_bytes());
    bytes.extend_from_slice(&len.to_le_bytes());
    bytes.extend_from_slice(name);
    while bytes.len() < 16 + len as usize {
        bytes.push(0);
    }
    bytes
}

fn all_changes(data: &[u8], order: ByteOrder) -> Vec<DeviceChange> {
    device_changes(data, data.len(), order)
}

fn appeared(path: &str) -> DeviceChange {
    DeviceChange::Appeared(path.to_string())
}

fn removed(path: &str) -> DeviceChange {
    DeviceChange::Removed(path.to_string())
}

#[test]
fn masks_are_those_of_the_system() {
    assert_eq!(IN_ATTRIB, libc::IN_ATTRIB);
    assert_eq!(IN_CREATE, libc::IN_CREATE);
    assert_eq!(IN_DELETE, libc::IN_DELETE);
    assert_eq!(std::mem::size_of::<libc::inotify_event>(), 16);
}

#[test]
fn new_devices_are_noticed() {
    let mut data = record(IN_CREATE, b"event7", 16);
    data.extend(record(IN_ATTRIB, b"event12", 16));
    data.extend(record(IN_CREATE, b"mouse1", 16));
    data.extend(record(IN_DELETE, b"event7", 16));
    assert_eq!(
        all_changes(&data, ByteOrder::Little),
        vec![
            appeared("/dev/input/event7"),
            appeared("/dev/input/event12"),
            DeviceChange::Ignored,
            removed("/dev/input/event7"),
        ]
    );
}

#[test]
fn a_deletion_comes_first() {
    assert_eq!(device_change(IN_DELETE | IN_CREATE, b"event1\0"), removed("/dev/input/event1"));
    assert_eq!(device_change(IN_CREATE | IN_ATTRIB, b"event1\0"), appeared("/dev/input/event1"));
    assert_eq!(device_change(0x8000, b"event1\0"), DeviceChange::Ignored);
    assert_eq!(device_change(0, b"event1\0"), DeviceChange::Ignored);
}

#[test]
fn a_name_ends_at_the_first_zero() {
    assert_eq!(device_change(IN_CREATE, b"event1\0x\0\0"), appeared("/dev/input/event1"));
    assert_eq!(device_change(IN_CREATE, b"event1"), appeared("/dev/input/event1"));
    assert_eq!(device_change(IN_CREATE, b"\0event1"), DeviceChange::Ignored);
    assert_eq!(device_change(IN_CREATE, b""), DeviceChange::Ignored);
}

#[test]
fn a_name_has_to_be_text() {
    assert_eq!(device_change(IN_CREATE, b"event\xff\0"), DeviceChange::Ignored);
    assert_eq!(device_change(IN_CREATE, b"event\xc3\xa9\0"), appeared("/dev/input/event\u{e9}"));
}

#[test]
fn a_record_goes_on_in_the_buffer() {
    let first = record(IN_CREATE, b"event1", 16);
    let mut buffer = first.clone();
    buffer.extend(record(IN_ATTRIB, b"event2", 16));
    buffer.resize(4096, 0);
    let both = vec![appeared("/dev/input/event1"), appeared("/dev/input/event2")];
    for count in 1..=first.len() {
        assert_eq!(device_changes(&buffer, count, ByteOrder::Little), both[..1]);
    }
    for count in first.len() + 1..=2 * first.len() {
        assert_eq!(device_changes(&buffer, count, ByteOrder::Little), both);
    }
    assert!(device_changes(&buffer, 0, ByteOrder::Little).is_empty());
}

#[test]
fn a_name_goes_on_to_its_zero() {
    let mut buffer = record(IN_CREATE, b"event1", 6);
    buffer.extend_from_slice(b"23\0");
    assert_eq!(device_changes(&buffer, 22, ByteOrder::Little), vec![appeared("/dev/input/event123")]);
}

#[test]
fn the_reading_ends_with_the_buffer() {
    let whole = record(IN_CREATE, b"event1", 16);
    assert!(all_changes(&whole[..15], ByteOrder::Little).is_empty());
    assert!(device_changes(&whole[..15], usize::MAX, ByteOrder::Little).is_empty());
    assert_eq!(device_changes(&whole, usize::MAX, ByteOrder::Little), vec![appeared("/dev/input/event1")]);
    let long = record(IN_CREATE, b"event1\0", 0xffff)[..32].to_vec();
    assert_eq!(device_changes(&long, usize::MAX, ByteOrder::Little), vec![appeared("/dev/input/event1")]);
    assert_eq!(all_changes(&record(IN_CREATE, b"", 0), ByteOrder::Little), vec![DeviceChange::Ignored]);
}

#[test]
fn a_record_without_a_name_is_ignored() {
    let mut data = record(IN_CREATE, b"", 0);
    data.extend_from_slice(b"event1\0");
    assert_eq!(device_changes(&data, 16, ByteOrder::Little), vec![DeviceChange::Ignored]);
}

#[test]
fn what_an_earlier_read_left_makes_no_difference() {
    let mut data = record(IN_CREATE, b"event4", 16);
    data.extend(record(IN_DELETE, b"event5", 16));
    let alone = all_changes(&data, ByteOrder::Little);
    for left in [0u8, 0xff, b'7'] {
        let mut buffer = data.clone();
        buffer.resize(4096, left);
        assert_eq!(device_changes(&buffer, data.len(), ByteOrder::Little), alone);
    }
}

#[test]
fn only_devices_that_appeared_are_asked() {
    assert_eq!(appeared("/dev/input/event1").to_probe(), Some(&"/dev/input/event1".to_string()));
    assert_eq!(removed("/dev/input/event1").to_probe(), None);
    assert_eq!(DeviceChange::Ignored.to_probe(), None);
}

#[test]
fn records_on_a_big_endian_machine_are_read() {
    let mut data = Vec::new();
    data.extend_from_slice(&1i32.to_be_bytes());
    data.extend_from_slice(&IN_CREATE.to_be_bytes());
    data.extend_from_slice(&0u32.to_be_bytes());
    data.extend_from_slice(&8u32.to_be_bytes());
    data.extend_from_slice(b"event3\0\0");
    assert_eq!(all_changes(&data, ByteOrder::Big), vec![appeared("/dev/input/event3")]);
}

#[test]
fn the_search_goes_through_its_loop() {
    let order = ByteOrder::Little;
    assert_eq!(discovery_step(DiscoveryEvent::Initialized(-1), order), DiscoveryAction::GiveUp);
    assert_eq!(discovery_step(DiscoveryEvent::Initialized(0), order), DiscoveryAction::AddWatch);
    assert_eq!(discovery_step(DiscoveryEvent::Watching(-1), order), DiscoveryAction::CloseAndGiveUp);
    assert_eq!(discovery_step(DiscoveryEvent::Watching(1), order), DiscoveryAction::CheckRunning);
    assert_eq!(discovery_step(DiscoveryEvent::Running(true), order), DiscoveryAction::Select);
    assert_eq!(discovery_step(DiscoveryEvent::Running(false), order), DiscoveryAction::Close);
    assert_eq!(discovery_step(DiscoveryEvent::Selected(-1), order), DiscoveryAction::CheckRunning);
    assert_eq!(discovery_step(DiscoveryEvent::Selected(0), order), DiscoveryAction::CheckRunning);
    assert_eq!(discovery_step(DiscoveryEvent::Selected(1), order), DiscoveryAction::Read);
    let mut buffer = record(IN_CREATE, b"event7", 16);
    let len = buffer.len() as isize;
    buffer.extend(record(IN_CREATE, b"event8", 16));
    assert_eq!(
        discovery_step(DiscoveryEvent::Read(len, &buffer), order),
        DiscoveryAction::Handle(vec![appeared("/dev/input/event7")])
    );
    assert_eq!(discovery_step(DiscoveryEvent::Read(-1, &buffer), order), DiscoveryAction::CheckRunning);
    assert_eq!(discovery_step(DiscoveryEvent::Read(0, &buffer), order), DiscoveryAction::CheckRunning);
}
