use jerkmon::binary32::binary32_bits;
use jerkmon::bytes::{push_be_u32, push_be_u64, read_i32, read_i64, read_u16, read_u32, read_unsigned, ByteOrder};
use jerkmon::protocol::{encode_event, EVENT_TYPE_DISPLAY, EVENT_TYPE_MOUSE};

#[test]
fn big_endian_bytes_match_the_standard_library() {
    for value in [0u64, 1, 255, 256, 0x0102_0304_0506_0708, u64::MAX - 1, u64::MAX] {
        let mut buf = vec![0xaa];
        push_be_u64(&mut buf, value);
        assert_eq!(buf[0], 0xaa);
        assert_eq!(&buf[1..], &value.to_be_bytes()[..]);
    }
    for value in [0u32, 1, 0x0102_0304, u32::MAX] {
        let mut buf = Vec::new();
        push_be_u32(&mut buf, value);
        assert_eq!(buf, value.to_be_bytes().to_vec());
    }
}

#[test]
fn numbers_are_read_in_either_order() {
    let data = [9u8, 0x01, 0x02, 0x03, 0x04, 0x05, 0x06, 0x07, 0xf8];
    assert_eq!(read_u16(&data, 1, ByteOrder::Big), 0x0102);
    assert_eq!(read_u16(&data, 1, ByteOrder::Little), 0x0201);
    assert_eq!(read_u32(&data, 1, ByteOrder::Big), 0x0102_0304);
    assert_eq!(read_u32(&data, 5, ByteOrder::Little), 0xf807_0605);
    assert_eq!(read_i32(&data, 5, ByteOrder::Little), 0xf807_0605u32 as i32);
    assert_eq!(read_i64(&data, 1, ByteOrder::Little), 0xf807_0605_0403_0201u64 as i64);
    assert_eq!(read_i64(&data, 1, ByteOrder::Big), 0x0102_0304_0506_07f8);
    assert_eq!(read_unsigned(&data[..3], ByteOrder::Big), 0x09_0102);
    assert_eq!(read_unsigned(&[], ByteOrder::Little), 0);
}

#[test]
fn extreme_signed_numbers_are_read() {
    for value in [i32::MIN, -1, 0, 1, i32::MAX] {
        assert_eq!(read_i32(&value.to_le_bytes(), 0, ByteOrder::Little), value);
        assert_eq!(read_i32(&value.to_be_bytes(), 0, ByteOrder::Big), value);
    }
    for value in [i64::MIN, -1, 0, 1, i64::MAX] {
        assert_eq!(read_i64(&value.to_le_bytes(), 0, ByteOrder::Little), value);
    }
}

#[test]
fn small_movements_are_exact() {
    assert_eq!(binary32_bits(0), 0);
    assert_eq!(binary32_bits(1), 0x3f80_0000);
    assert_eq!(binary32_bits(3), 0x4040_0000);
    assert_eq!(binary32_bits(-2), 0xc000_0000);
    for x in -100_000i32..=100_000 {
        assert_eq!(f32::from_bits(binary32_bits(x)), x as f32);
        assert_eq!(f32::from_bits(binary32_bits(x)) as i32, x);
    }
}

#[test]
fn ties_round_to_even() {
    // 2^24 + 1 lies halfway between two numbers; 2^24 + 3 too.
    assert_eq!(binary32_bits(16_777_217), 16_777_216f32.to_bits());
    assert_eq!(binary32_bits(16_777_219), 16_777_220f32.to_bits());
    assert_eq!(binary32_bits(-16_777_217), (-16_777_216f32).to_bits());
}

#[test]
fn conversion_matches_the_hardware() {
    for x in [i32::MIN, i32::MIN + 1, i32::MAX, i32::MAX - 1, i32::MAX - 63, i32::MAX - 64, i32::MAX - 65] {
        assert_eq!(binary32_bits(x), (x as f32).to_bits(), "{}", x);
    }
    let mut x: i64 = i32::MIN as i64;
    while x <= i32::MAX as i64 {
        assert_eq!(binary32_bits(x as i32), (x as i32 as f32).to_bits(), "{}", x);
        x += 4099;
    }
    for power in 0..31 {
        for step in -40i64..=40 {
            let x = (1i64 << power) + step;
            if x <= i32::MAX as i64 {
                assert_eq!(binary32_bits(x as i32), (x as i32 as f32).to_bits(), "{}", x);
                assert_eq!(binary32_bits(-x as i32), (-x as i32 as f32).to_bits(), "{}", -x);
            }
        }
    }
}

#[test]
fn a_display_event_has_nine_bytes() {
    let frame = encode_event(EVENT_TYPE_DISPLAY, 16_666_667, None);
    assert_eq!(frame, vec![0x00, 0, 0, 0, 0, 0x00, 0xfe, 0x50, 0x2b]);
}

#[test]
fn a_mouse_event_has_seventeen_bytes() {
    let frame = encode_event(EVENT_TYPE_MOUSE, 258, Some((binary32_bits(3), binary32_bits(-2))));
    let mut expected = vec![0x04];
    expected.extend_from_slice(&258u64.to_be_bytes());
    expected.extend_from_slice(&3f32.to_be_bytes());
    expected.extend_from_slice(&(-2f32).to_be_bytes());
    assert_eq!(frame, expected);
    assert_eq!(frame.len(), 17);
}

#[test]
fn fields_are_read_back_from_their_places() {
    let frame = encode_event(7, u64::MAX - 5, Some((0x0102_0304, 0xfffe_fdfc)));
    assert_eq!(frame[0], 7);
    assert_eq!(read_unsigned(&frame[1..9], ByteOrder::Big), u64::MAX - 5);
    assert_eq!(read_u32(&frame, 9, ByteOrder::Big), 0x0102_0304);
    assert_eq!(read_u32(&frame, 13, ByteOrder::Big), 0xfffe_fdfc);
}

#[test]
fn different_events_have_different_messages() {
    let events = [
        (0u8, 0u64, None),
        (4, 0, None),
        (0, 1, None),
        (0, 256, None),
        (0, 0, Some((0u32, 0u32))),
        (0, 0, Some((1, 0))),
        (0, 0, Some((0, 1))),
    ];
    for (i, a) in events.iter().enumerate() {
        for (j, b) in events.iter().enumerate() {
            assert_eq!(encode_event(a.0, a.1, a.2) == encode_event(b.0, b.1, b.2), i == j);
        }
    }
}
