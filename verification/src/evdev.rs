//! Mouse movement from the kernel's input event records.
use crate::bytes::{self, ByteOrder};
use vstd::prelude::*;
use vstd::slice::slice_subrange;

verus! {

/// The record type of a relative movement.
pub const EV_REL: u16 = 0x02;

/// The code of a movement along x.
pub const REL_X: u16 = 0x00;

/// The code of a movement along y.
pub const REL_Y: u16 = 0x01;

/// The length of one record.
pub const INPUT_EVENT_LEN: usize = 24;

/// How much is read at once: 64 records.
pub const READ_BUFFER_LEN: usize = 1536;

/// One input event record: two words of time, then type, code and value.
#[derive(Clone, Copy, PartialEq, Eq, Structural, Debug)]
pub struct InputEvent {
    pub tv_sec: i64,
    pub tv_usec: i64,
    pub type_: u16,
    pub code: u16,
    pub value: i32,
}

/// The record that 24 bytes hold in the machine's byte order.
pub open spec fn input_event(order: ByteOrder, record: Seq<u8>) -> InputEvent {
    InputEvent {
        tv_sec: bytes::signed(
            bytes::unsigned(order, record.subrange(0, 8)),
            0x8000_0000_0000_0000,
        ) as i64,
        tv_usec: bytes::signed(
            bytes::unsigned(order, record.subrange(8, 16)),
            0x8000_0000_0000_0000,
        ) as i64,
        type_: bytes::unsigned(order, record.subrange(16, 18)) as u16,
        code: bytes::unsigned(order, record.subrange(18, 20)) as u16,
        value: bytes::signed(
            bytes::unsigned(order, record.subrange(20, 24)),
            0x8000_0000,
        ) as i32,
    }
}

/// The whole records at the start of `data`; a part of a record at the end
/// does not count.
pub open spec fn input_events(order: ByteOrder, data: Seq<u8>) -> Seq<InputEvent> {
    Seq::new(
        data.len() / 24,
        |i: int| input_event(order, data.subrange(24 * i, 24 * i + 24)),
    )
}

/// Whether the record is a relative movement along `axis`.
pub open spec fn is_relative(event: InputEvent, axis: u16) -> bool {
    event.type_ == EV_REL && event.code == axis
}

/// Whether any of the records is a movement along x or y.
pub open spec fn any_movement(events: Seq<InputEvent>) -> bool {
    exists|i: int|
        0 <= i < events.len() && (is_relative(#[trigger] events[i], REL_X) || is_relative(
            events[i],
            REL_Y,
        ))
}

/// The sum of the movements along `axis`.
pub open spec fn axis_sum(events: Seq<InputEvent>, axis: u16) -> int
    decreases events.len(),
{
    if events.len() == 0 {
        0
    } else {
        axis_sum(events.drop_last(), axis) + if is_relative(events.last(), axis) {
            events.last().value as int
        } else {
            0
        }
    }
}

/// A sum as 32-bit arithmetic holds it: reduced by a multiple of 2^32 to the
/// range of `i32`.
pub open spec fn wrap_i32(n: int) -> int {
    (n + 0x8000_0000) % 0x1_0000_0000 - 0x8000_0000
}

/// What a batch of records moves: nothing, or a step along x and y.
pub open spec fn movement(events: Seq<InputEvent>) -> Option<(i32, i32)> {
    if any_movement(events) {
        Some((wrap_i32(axis_sum(events, REL_X)) as i32, wrap_i32(axis_sum(events, REL_Y)) as i32))
    } else {
        None
    }
}

impl InputEvent {
    /// Reads one record.
    pub fn decode(record: &[u8], order: ByteOrder) -> (event: InputEvent)
        requires
            record@.len() == 24,
        ensures
            event == input_event(order, record@),
    {
        assert(record.len() == 24);
        InputEvent {
            tv_sec: bytes::read_i64(record, 0, order),
            tv_usec: bytes::read_i64(record, 8, order),
            type_: bytes::read_u16(record, 16, order),
            code: bytes::read_u16(record, 18, order),
            value: bytes::read_i32(record, 20, order),
        }
    }
}

/// Adding to a wrapped sum wraps the sum.
proof fn lemma_wrap_step(sum: int, value: i32, wrapped: i32)
    requires
        wrapped == wrap_i32(sum),
    ensures
        wrapped.wrapping_add(value) == wrap_i32(sum + value),
{
}

/// Adds up what the records in `data` move.
pub fn read_movement(data: &[u8], order: ByteOrder) -> (moved: Option<(i32, i32)>)
    ensures
        moved == movement(input_events(order, data@)),
{
    let count: usize = data.len() / INPUT_EVENT_LEN;
    let ghost events = input_events(order, data@);
    let mut x: i32 = 0;
    let mut y: i32 = 0;
    let mut moved: bool = false;
    let mut i: usize = 0;
    assert(events.take(0) =~= Seq::empty());
    while i < count
        invariant
            i <= count,
            count == data@.len() / 24,
            data@.len() <= usize::MAX,
            events == input_events(order, data@),
            x == wrap_i32(axis_sum(events.take(i as int), REL_X)),
            y == wrap_i32(axis_sum(events.take(i as int), REL_Y)),
            moved <==> any_movement(events.take(i as int)),
        decreases count - i,
    {
        let offset: usize = i * INPUT_EVENT_LEN;
        let event = InputEvent::decode(
            slice_subrange(data, offset, offset + INPUT_EVENT_LEN),
            order,
        );
        let ghost before = events.take(i as int);
        let ghost after = events.take(i + 1);
        proof {
            assert(event == events[i as int]);
            assert(after.drop_last() =~= before);
            assert(after.last() == event);
            lemma_wrap_step(axis_sum(before, REL_X), event.value, x);
            lemma_wrap_step(axis_sum(before, REL_Y), event.value, y);
            assert forall|j: int| 0 <= j < i implies before[j] == #[trigger] after[j] by {}
            assert(any_movement(after) <==> any_movement(before) || is_relative(event, REL_X)
                || is_relative(event, REL_Y)) by {
                assert(after[i as int] == event);
                if any_movement(before) {
                    let j = choose|j: int|
                        0 <= j < before.len() && (is_relative(#[trigger] before[j], REL_X)
                            || is_relative(before[j], REL_Y));
                    assert(after[j] == before[j]);
                }
                if any_movement(after) {
                    let j = choose|j: int|
                        0 <= j < after.len() && (is_relative(#[trigger] after[j], REL_X)
                            || is_relative(after[j], REL_Y));
                    if j < i {
                        assert(before[j] == after[j]);
                    }
                }
            }
        }
        if event.type_ == EV_REL {
            if event.code == REL_X {
                x = x.wrapping_add(event.value);
                moved = true;
            } else if event.code == REL_Y {
                y = y.wrapping_add(event.value);
                moved = true;
            }
        }
        i = i + 1;
    }
    assert(events.take(count as int) =~= events);
    if moved {
        Some((x, y))
    } else {
        None
    }
}

/// Whether bit `k` of a byte is set.
pub open spec fn has_bit(byte: u8, k: u8) -> bool {
    (byte >> k) & 1 == 1
}

/// Whether a device that answered the query for its relative axes with
/// `result` and `rel_bits` is a mouse: it has to have both x and y.
pub fn is_mouse_device(result: i32, rel_bits: [u8; 2]) -> (mouse: bool)
    ensures
        mouse <==> result >= 0 && has_bit(rel_bits[0], 0) && has_bit(rel_bits[0], 1),
        mouse <==> result >= 0 && rel_bits[0] % 4 == 3,
{
    let axes: u8 = rel_bits[0];
    assert((axes & 0x03) == 0x03 <==> ((axes >> 0u8) & 1 == 1 && (axes >> 1u8) & 1 == 1))
        by (bit_vector);
    assert((axes & 0x03) == 0x03 <==> axes % 4 == 3) by (bit_vector);
    result >= 0 && (axes & 0x03) == 0x03
}

/// What the monitor of a device has just learnt.
pub enum MonitorEvent<'a> {
    /// Whether the device could be opened.
    Opened(bool),
    /// Whether the program is still running.
    Running(bool),
    /// The result of waiting for input with `select`.
    Selected(i32),
    /// The bytes that a read returned.
    Read(&'a [u8]),
    /// A read that failed.
    ReadFailed,
}

/// What the monitor of a device does next.
#[derive(Clone, Copy, PartialEq, Eq, Structural, Debug)]
pub enum MonitorAction {
    /// Ask whether the program is still running.
    CheckRunning,
    /// Wait for input.
    Select,
    /// Read input.
    Read,
    /// Send a mouse event for this movement, then ask whether to go on.
    Report(i32, i32),
    /// End; all is well. The device is monitored no more.
    Finish,
    /// End with the error of the call that failed. The device is monitored no
    /// more.
    Fail,
    /// End with the error of opening the device.
    Abandon,
}

/// Whether the monitor ends with the action.
pub open spec fn ends(action: MonitorAction) -> bool {
    action == MonitorAction::Finish || action == MonitorAction::Fail || action
        == MonitorAction::Abandon
}

/// The step of a device monitor after `event`.
pub open spec fn monitor_step(event: MonitorEvent, order: ByteOrder) -> MonitorAction {
    match event {
        MonitorEvent::Opened(true) => MonitorAction::CheckRunning,
        MonitorEvent::Opened(false) => MonitorAction::Abandon,
        MonitorEvent::Running(true) => MonitorAction::Select,
        MonitorEvent::Running(false) => MonitorAction::Finish,
        MonitorEvent::Selected(result) => if result == -1 {
            MonitorAction::Fail
        } else if result == 0 {
            MonitorAction::CheckRunning
        } else {
            MonitorAction::Read
        },
        MonitorEvent::Read(data) => match movement(input_events(order, data@)) {
            Some((x, y)) => MonitorAction::Report(x, y),
            None => MonitorAction::CheckRunning,
        },
        MonitorEvent::ReadFailed => MonitorAction::Fail,
    }
}

/// Decides what the monitor of one device does next.
pub fn monitor_device(event: MonitorEvent, order: ByteOrder) -> (action: MonitorAction)
    ensures
        action == monitor_step(event, order),
{
    match event {
        MonitorEvent::Opened(opened) => if opened {
            MonitorAction::CheckRunning
        } else {
            MonitorAction::Abandon
        },
        MonitorEvent::Running(running) => if running {
            MonitorAction::Select
        } else {
            MonitorAction::Finish
        },
        MonitorEvent::Selected(result) => if result == -1 {
            MonitorAction::Fail
        } else if result == 0 {
            MonitorAction::CheckRunning
        } else {
            MonitorAction::Read
        },
        MonitorEvent::Read(data) => match read_movement(data, order) {
            Some((x, y)) => MonitorAction::Report(x, y),
            None => MonitorAction::CheckRunning,
        },
        MonitorEvent::ReadFailed => MonitorAction::Fail,
    }
}

/// The sums of two batches add up to the sum of the batch that joins them.
pub proof fn lemma_axis_sum_joins(first: Seq<InputEvent>, second: Seq<InputEvent>, axis: u16)
    ensures
        axis_sum(first + second, axis) == axis_sum(first, axis) + axis_sum(second, axis),
    decreases second.len(),
{
    if second.len() == 0 {
        assert(first + second =~= first);
    } else {
        lemma_axis_sum_joins(first, second.drop_last(), axis);
        assert((first + second).drop_last() =~= first + second.drop_last());
    }
}

/// However whole records are cut into reads, the records are the same.
pub proof fn lemma_input_events_join(order: ByteOrder, first: Seq<u8>, second: Seq<u8>)
    requires
        first.len() % 24 == 0,
    ensures
        input_events(order, first + second) == input_events(order, first) + input_events(
            order,
            second,
        ),
{
    let joined = input_events(order, first + second);
    let parts = input_events(order, first) + input_events(order, second);
    let n = first.len() / 24;
    assert(first.len() == 24 * n);
    assert(joined.len() == parts.len());
    assert forall|i: int| 0 <= i < joined.len() implies joined[i] == parts[i] by {
        if i < n {
            assert((first + second).subrange(24 * i, 24 * i + 24) =~= first.subrange(
                24 * i,
                24 * i + 24,
            ));
        } else {
            assert((first + second).subrange(24 * i, 24 * i + 24) =~= second.subrange(
                24 * (i - n),
                24 * (i - n) + 24,
            ));
        }
    }
    assert(joined =~= parts);
}

/// Bytes after the last whole record change nothing.
pub proof fn lemma_partial_record_ignored(order: ByteOrder, data: Seq<u8>, rest: Seq<u8>)
    requires
        data.len() % 24 == 0,
        rest.len() < 24,
    ensures
        movement(input_events(order, data + rest)) == movement(input_events(order, data)),
{
    lemma_input_events_join(order, data, rest);
    assert(input_events(order, rest) =~= Seq::empty());
    assert(input_events(order, data + rest) =~= input_events(order, data));
}

/// The fields of a record, byte by byte: two words of eight bytes for the time,
/// two bytes each for type and code, and four for the value. Times and value
/// are in two's complement.
pub proof fn lemma_record_fields(order: ByteOrder, record: Seq<u8>)
    requires
        record.len() == 24,
    ensures
        ({
            let event = input_event(order, record);
            let sec: int = (if order == ByteOrder::Little {
                record[0] + 0x100 * record[1] + 0x10000 * record[2] + 0x1000000 * record[3]
                    + 0x100000000 * record[4] + 0x10000000000 * record[5]
                    + 0x1000000000000 * record[6] + 0x100000000000000 * record[7]
            } else {
                record[7] + 0x100 * record[6] + 0x10000 * record[5] + 0x1000000 * record[4]
                    + 0x100000000 * record[3] + 0x10000000000 * record[2]
                    + 0x1000000000000 * record[1] + 0x100000000000000 * record[0]
            });
            let usec: int = (if order == ByteOrder::Little {
                record[8] + 0x100 * record[9] + 0x10000 * record[10] + 0x1000000 * record[11]
                    + 0x100000000 * record[12] + 0x10000000000 * record[13]
                    + 0x1000000000000 * record[14] + 0x100000000000000 * record[15]
            } else {
                record[15] + 0x100 * record[14] + 0x10000 * record[13] + 0x1000000 * record[12]
                    + 0x100000000 * record[11] + 0x10000000000 * record[10]
                    + 0x1000000000000 * record[9] + 0x100000000000000 * record[8]
            });
            let value: int = (if order == ByteOrder::Little {
                record[20] + 0x100 * record[21] + 0x10000 * record[22] + 0x1000000 * record[23]
            } else {
                record[23] + 0x100 * record[22] + 0x10000 * record[21] + 0x1000000 * record[20]
            });
            &&& event.tv_sec == (if sec < 0x8000000000000000 {
                sec as int
            } else {
                sec - 0x10000000000000000
            })
            &&& event.tv_usec == (if usec < 0x8000000000000000 {
                usec as int
            } else {
                usec - 0x10000000000000000
            })
            &&& event.type_ == (if order == ByteOrder::Little {
                record[16] + 0x100 * record[17]
            } else {
                record[17] + 0x100 * record[16]
            })
            &&& event.code == (if order == ByteOrder::Little {
                record[18] + 0x100 * record[19]
            } else {
                record[19] + 0x100 * record[18]
            })
            &&& event.value == (if value < 0x80000000 {
                value as int
            } else {
                value - 0x100000000
            })
        }),
{
    bytes::lemma_unsigned_8(order, record.subrange(0, 8));
    bytes::lemma_unsigned_8(order, record.subrange(8, 16));
    bytes::lemma_unsigned_2(order, record.subrange(16, 18));
    bytes::lemma_unsigned_2(order, record.subrange(18, 20));
    bytes::lemma_unsigned_4(order, record.subrange(20, 24));
}

/// A read of one record: a relative record of type 2 with code 0 is reported as
/// a movement along x by its value, one with code 1 as a movement along y; any
/// other record is not reported.
pub proof fn lemma_one_record_reported(data: &[u8], order: ByteOrder)
    requires
        data@.len() == 24,
    ensures
        ({
            let record = data@;
            let kind: int = (if order == ByteOrder::Little {
                record[16] + 0x100 * record[17]
            } else {
                record[17] + 0x100 * record[16]
            });
            let code: int = (if order == ByteOrder::Little {
                record[18] + 0x100 * record[19]
            } else {
                record[19] + 0x100 * record[18]
            });
            let raw: int = (if order == ByteOrder::Little {
                record[20] + 0x100 * record[21] + 0x10000 * record[22] + 0x1000000 * record[23]
            } else {
                record[23] + 0x100 * record[22] + 0x10000 * record[21] + 0x1000000 * record[20]
            });
            let value: int = (if raw < 0x80000000 {
                raw as int
            } else {
                raw - 0x100000000
            });
            monitor_step(MonitorEvent::Read(data), order) == (if kind == 2 && code == 0 {
                MonitorAction::Report(value as i32, 0)
            } else if kind == 2 && code == 1 {
                MonitorAction::Report(0, value as i32)
            } else {
                MonitorAction::CheckRunning
            })
        }),
{
    let events = input_events(order, data@);
    lemma_record_fields(order, data@);
    assert(data@.subrange(0, 24) =~= data@);
    assert(events.len() == 1 && events[0] == input_event(order, data@));
    reveal_with_fuel(axis_sum, 2);
    assert(any_movement(events) <==> is_relative(events[0], REL_X) || is_relative(
        events[0],
        REL_Y,
    ));
}

/// A read without a whole record is not reported.
pub proof fn lemma_short_read_not_reported(data: &[u8], order: ByteOrder)
    requires
        data@.len() < 24,
    ensures
        monitor_step(MonitorEvent::Read(data), order) == MonitorAction::CheckRunning,
{
}

/// Two batches of whole records in one read: x is the sum of what the two move
/// along x alone, y the sum of what they move along y alone, in 32-bit
/// arithmetic. A batch that is not reported adds nothing, and the read is
/// reported if one of the two is.
pub proof fn lemma_reports_add_up(
    first: &[u8],
    second: &[u8],
    joined: &[u8],
    order: ByteOrder,
)
    requires
        first@.len() % 24 == 0,
        joined@ == first@ + second@,
    ensures
        match (
            monitor_step(MonitorEvent::Read(first), order),
            monitor_step(MonitorEvent::Read(second), order),
        ) {
            (MonitorAction::Report(x, y), MonitorAction::Report(dx, dy)) => monitor_step(
                MonitorEvent::Read(joined),
                order,
            ) == MonitorAction::Report(x.wrapping_add(dx), y.wrapping_add(dy)),
            (MonitorAction::Report(x, y), MonitorAction::CheckRunning) => monitor_step(
                MonitorEvent::Read(joined),
                order,
            ) == MonitorAction::Report(x, y),
            (MonitorAction::CheckRunning, MonitorAction::Report(x, y)) => monitor_step(
                MonitorEvent::Read(joined),
                order,
            ) == MonitorAction::Report(x, y),
            (MonitorAction::CheckRunning, MonitorAction::CheckRunning) => monitor_step(
                MonitorEvent::Read(joined),
                order,
            ) == MonitorAction::CheckRunning,
            _ => false,
        },
{
    lemma_input_events_join(order, first@, second@);
    lemma_movement_joins(input_events(order, first@), input_events(order, second@));
}

/// Wrapping two sums and adding them in 32-bit arithmetic wraps their sum.
proof fn lemma_wrap_sum(m: int, n: int)
    ensures
        (wrap_i32(m) as i32).wrapping_add(wrap_i32(n) as i32) == wrap_i32(m + n),
{
    let value = wrap_i32(n) as i32;
    lemma_wrap_step(m, value, wrap_i32(m) as i32);
    assert(wrap_i32(m + value) == wrap_i32(m + n));
}

/// What two batches move adds up, each axis on its own.
proof fn lemma_movement_joins(first: Seq<InputEvent>, second: Seq<InputEvent>)
    ensures
        movement(first + second) == (match (movement(first), movement(second)) {
            (Some((x, y)), Some((dx, dy))) => Some((x.wrapping_add(dx), y.wrapping_add(dy))),
            (Some(step), None) => Some(step),
            (None, other) => other,
        }),
{
    lemma_axis_sum_joins(first, second, REL_X);
    lemma_axis_sum_joins(first, second, REL_Y);
    lemma_any_movement_joins(first, second);
    lemma_wrap_sum(axis_sum(first, REL_X), axis_sum(second, REL_X));
    lemma_wrap_sum(axis_sum(first, REL_Y), axis_sum(second, REL_Y));
    if !any_movement(first) {
        lemma_no_movement_no_sum(first);
    }
    if !any_movement(second) {
        lemma_no_movement_no_sum(second);
    }
}

/// A batch moves if one of its parts does.
proof fn lemma_any_movement_joins(first: Seq<InputEvent>, second: Seq<InputEvent>)
    ensures
        any_movement(first + second) <==> any_movement(first) || any_movement(second),
{
    let joined = first + second;
    assert forall|i: int| 0 <= i < first.len() implies first[i] == #[trigger] joined[i] by {}
    if any_movement(first) {
        let i = choose|i: int|
            0 <= i < first.len() && (is_relative(#[trigger] first[i], REL_X) || is_relative(
                first[i],
                REL_Y,
            ));
        assert(joined[i] == first[i]);
    }
    if any_movement(second) {
        let i = choose|i: int|
            0 <= i < second.len() && (is_relative(#[trigger] second[i], REL_X) || is_relative(
                second[i],
                REL_Y,
            ));
        assert(joined[first.len() + i] == second[i]);
    }
    if any_movement(joined) {
        let i = choose|i: int|
            0 <= i < joined.len() && (is_relative(#[trigger] joined[i], REL_X) || is_relative(
                joined[i],
                REL_Y,
            ));
        if i < first.len() {
            assert(first[i] == joined[i]);
        } else {
            assert(second[i - first.len()] == joined[i]);
        }
    }
}

/// Without a movement there is nothing to add up.
proof fn lemma_no_movement_no_sum(events: Seq<InputEvent>)
    requires
        !any_movement(events),
    ensures
        axis_sum(events, REL_X) == 0,
        axis_sum(events, REL_Y) == 0,
    decreases events.len(),
{
    if events.len() > 0 {
        let head = events.drop_last();
        assert(!is_relative(events[events.len() - 1], REL_X));
        assert(!is_relative(events[events.len() - 1], REL_Y));
        if any_movement(head) {
            let i = choose|i: int|
                0 <= i < head.len() && (is_relative(#[trigger] head[i], REL_X) || is_relative(
                    head[i],
                    REL_Y,
                ));
            assert(events[i] == head[i]);
        }
        lemma_no_movement_no_sum(head);
    }
}

/// What is reported of a read, on its records: there is a report exactly if a
/// record has type 2 and code 0 or 1, x is the sum of the values of those with
/// code 0 and y of those with code 1, up to multiples of 2^32.
pub proof fn lemma_reported_sums(data: &[u8], order: ByteOrder)
    ensures
        ({
            let records = Seq::new(
                data@.len() / 24,
                |i: int| input_event(order, data@.subrange(24 * i, 24 * i + 24)),
            );
            let x_sum = records.fold_left(
                0int,
                |sum: int, r: InputEvent|
                    if r.type_ == 2 && r.code == 0 {
                        sum + r.value
                    } else {
                        sum
                    },
            );
            let y_sum = records.fold_left(
                0int,
                |sum: int, r: InputEvent|
                    if r.type_ == 2 && r.code == 1 {
                        sum + r.value
                    } else {
                        sum
                    },
            );
            let moves = exists|i: int|
                0 <= i < records.len() && (#[trigger] records[i]).type_ == 2 && records[i].code
                    <= 1;
            match monitor_step(MonitorEvent::Read(data), order) {
                MonitorAction::Report(x, y) => {
                    &&& moves
                    &&& (x - x_sum) % 0x1_0000_0000 == 0
                    &&& (y - y_sum) % 0x1_0000_0000 == 0
                },
                MonitorAction::CheckRunning => !moves,
                _ => false,
            }
        }),
{
    let events = input_events(order, data@);
    let f = |sum: int, r: InputEvent|
        if r.type_ == 2 && r.code == 0 {
            sum + r.value
        } else {
            sum
        };
    let g = |sum: int, r: InputEvent|
        if r.type_ == 2 && r.code == 1 {
            sum + r.value
        } else {
            sum
        };
    lemma_axis_sum_folds(events, REL_X, f);
    lemma_axis_sum_folds(events, REL_Y, g);
    let records = Seq::new(
        data@.len() / 24,
        |i: int| input_event(order, data@.subrange(24 * i, 24 * i + 24)),
    );
    assert(records =~= events);
    if any_movement(events) {
        let i = choose|i: int|
            0 <= i < events.len() && (is_relative(#[trigger] events[i], REL_X) || is_relative(
                events[i],
                REL_Y,
            ));
        assert(records[i].type_ == 2 && records[i].code <= 1);
    } else {
        assert forall|i: int| 0 <= i < records.len() implies !((#[trigger] records[i]).type_ == 2
            && records[i].code <= 1) by {
            assert(!is_relative(events[i], REL_X) && !is_relative(events[i], REL_Y));
        }
    }
}

proof fn lemma_axis_sum_folds(
    events: Seq<InputEvent>,
    axis: u16,
    f: spec_fn(int, InputEvent) -> int,
)
    requires
        forall|sum: int, r: InputEvent| #[trigger]
            f(sum, r) == (if r.type_ == 2 && r.code == axis {
                sum + r.value
            } else {
                sum
            }),
    ensures
        events.fold_left(0int, f) == axis_sum(events, axis),
    decreases events.len(),
{
    if events.len() > 0 {
        lemma_axis_sum_folds(events.drop_last(), axis, f);
    }
}

/// A record of a movement along x, anywhere in a read that is reported, changes
/// nothing about the reported y, and one along y nothing about the reported x.
pub proof fn lemma_axes_independent(
    before: &[u8],
    record: &[u8],
    after: &[u8],
    without: &[u8],
    with: &[u8],
    order: ByteOrder,
)
    requires
        before@.len() % 24 == 0,
        record@.len() == 24,
        without@ == before@ + after@,
        with@ == before@ + record@ + after@,
    ensures
        match (
            monitor_step(MonitorEvent::Read(without), order),
            monitor_step(MonitorEvent::Read(record), order),
            monitor_step(MonitorEvent::Read(with), order),
        ) {
            (
                MonitorAction::Report(x, y),
                MonitorAction::Report(dx, dy),
                MonitorAction::Report(new_x, new_y),
            ) => (dx == 0 ==> new_x == x) && (dy == 0 ==> new_y == y),
            (MonitorAction::Report(_, _), _, last) => last is Report,
            _ => true,
        },
{
    let a = input_events(order, before@);
    let r = input_events(order, record@);
    let b = input_events(order, after@);
    lemma_input_events_join(order, before@, after@);
    lemma_input_events_join(order, before@, record@);
    lemma_input_events_join(order, before@ + record@, after@);
    lemma_movement_joins(a, b);
    lemma_movement_joins(a, r);
    lemma_movement_joins(a + r, b);
}

/// The other decisions of a monitor: it begins only with a device that could be
/// opened, ends when the program does, reads when there is input, waits again
/// when there was none, and gives up when a call fails.
pub proof fn lemma_monitor_decisions(result: i32, order: ByteOrder)
    ensures
        monitor_step(MonitorEvent::Opened(true), order) == MonitorAction::CheckRunning,
        monitor_step(MonitorEvent::Opened(false), order) == MonitorAction::Abandon,
        monitor_step(MonitorEvent::Running(true), order) == MonitorAction::Select,
        monitor_step(MonitorEvent::Running(false), order) == MonitorAction::Finish,
        monitor_step(MonitorEvent::ReadFailed, order) == MonitorAction::Fail,
        result == -1 ==> monitor_step(MonitorEvent::Selected(result), order)
            == MonitorAction::Fail,
        result == 0 ==> monitor_step(MonitorEvent::Selected(result), order)
            == MonitorAction::CheckRunning,
        result != -1 && result != 0 ==> monitor_step(MonitorEvent::Selected(result), order)
            == MonitorAction::Read,
{
}

} // verus!
