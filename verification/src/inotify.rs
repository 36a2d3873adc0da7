//! Devices that come and go, from the kernel's directory notifications.
use crate::bytes::{self, ByteOrder};
use crate::devices;
use crate::text;
use vstd::prelude::*;
use vstd::slice::slice_subrange;
use vstd::string::*;
use vstd::utf8::*;

verus! {

/// The mask bit for changed attributes.
pub const IN_ATTRIB: u32 = 0x0000_0004;

/// The mask bit for a new file.
pub const IN_CREATE: u32 = 0x0000_0100;

/// The mask bit for a deleted file.
pub const IN_DELETE: u32 = 0x0000_0200;

/// The length of a record without its name.
pub const HEADER_LEN: usize = 16;

/// The reason why bytes are no UTF-8 text.
#[verifier::external_type_specification]
#[verifier::external_body]
pub struct ExUtf8Error(core::str::Utf8Error);

/// `core::str::from_utf8` accepts exactly the bytes that are valid UTF-8, and
/// returns the text that they encode.
pub assume_specification<'a>[ core::str::from_utf8 ](v: &'a [u8]) -> (parsed: Result<
    &'a str,
    core::str::Utf8Error,
>)
    ensures
        parsed is Ok <==> valid_utf8(v@),
        parsed matches Ok(s) ==> s.spec_bytes() == v@,
;

/// One notification: the kinds of change, and the bytes from the file's name
/// on, which ends at the first zero byte.
#[verifier::ext_equal]
pub struct NotificationView {
    pub mask: u32,
    pub field: Seq<u8>,
}

/// The length that the record at `offset` gives for its name, with the zero
/// bytes that fill it up.
pub open spec fn name_field_len(order: ByteOrder, buffer: Seq<u8>, offset: nat) -> nat {
    bytes::unsigned(order, buffer.subrange(offset as int + 12, offset as int + 16))
}

/// The length of the record at `offset`.
pub open spec fn record_len(order: ByteOrder, buffer: Seq<u8>, offset: nat) -> nat {
    16 + name_field_len(order, buffer, offset)
}

/// The record at `offset`: without a name field there is no name.
pub open spec fn record_at(order: ByteOrder, buffer: Seq<u8>, offset: nat) -> NotificationView {
    NotificationView {
        mask: bytes::unsigned(order, buffer.subrange(offset as int + 4, offset as int + 8)) as u32,
        field: if name_field_len(order, buffer, offset) > 0 {
            buffer.skip(offset as int + 16)
        } else {
            Seq::empty()
        },
    }
}

/// The records that begin at `offset` or behind it within the first `count`
/// bytes of `buffer`, one behind the other. A record may go on in the buffer
/// behind those bytes; where its header does not fit into the buffer, the
/// reading ends.
pub open spec fn notifications(order: ByteOrder, buffer: Seq<u8>, offset: nat, count: nat) -> Seq<
    NotificationView,
>
    decreases
            (if offset < count {
                count - offset
            } else {
                0
            }),
{
    if offset < count && offset + 16 <= buffer.len() {
        seq![record_at(order, buffer, offset)] + notifications(
            order,
            buffer,
            offset + record_len(order, buffer, offset),
            count,
        )
    } else {
        Seq::empty()
    }
}

/// The number of bytes before the first zero byte.
pub open spec fn name_len(field: Seq<u8>) -> nat
    decreases field.len(),
{
    if field.len() == 0 || field[0] == 0 {
        0
    } else {
        1 + name_len(field.skip(1))
    }
}

/// What a notification says of a device.
pub enum ChangeView {
    /// Nothing of interest.
    Ignored,
    /// The device with this path is gone.
    Removed(Seq<char>),
    /// The device with this path is new, or may now be opened.
    Appeared(Seq<char>),
}

/// What a notification says: it counts only if the file's name is text that
/// begins with `event`. A deletion comes before anything else in the mask.
pub open spec fn change(record: NotificationView) -> ChangeView {
    let raw = record.field.take(name_len(record.field) as int);
    let name = decode_utf8(raw);
    if !valid_utf8(raw) || !text::starts_with(name, "event"@) {
        ChangeView::Ignored
    } else if record.mask & IN_DELETE != 0 {
        ChangeView::Removed(devices::device_path(name))
    } else if record.mask & (IN_CREATE | IN_ATTRIB) != 0 {
        ChangeView::Appeared(devices::device_path(name))
    } else {
        ChangeView::Ignored
    }
}

/// What a notification says of a device.
#[derive(Debug, PartialEq, Eq)]
pub enum DeviceChange {
    /// Nothing of interest.
    Ignored,
    /// The device with this path is gone; its monitor will notice by itself.
    Removed(String),
    /// The device with this path is new, or may now be opened: it is to be
    /// asked whether it is a mouse.
    Appeared(String),
}

impl View for DeviceChange {
    type V = ChangeView;

    open spec fn view(&self) -> ChangeView {
        match self {
            DeviceChange::Ignored => ChangeView::Ignored,
            DeviceChange::Removed(path) => ChangeView::Removed(path@),
            DeviceChange::Appeared(path) => ChangeView::Appeared(path@),
        }
    }
}

impl DeviceChange {
    /// The path of the device that has to be asked whether it is a mouse, if
    /// there is one.
    pub fn to_probe(&self) -> (path: Option<&String>)
        ensures
            match self@ {
                ChangeView::Appeared(name) => path matches Some(p) && p@ == name,
                ChangeView::Removed(_) | ChangeView::Ignored => path is None,
            },
    {
        match self {
            DeviceChange::Appeared(path) => Some(path),
            DeviceChange::Removed(_) | DeviceChange::Ignored => None,
        }
    }
}

/// What each change says.
pub open spec fn change_views(changes: Seq<DeviceChange>) -> Seq<ChangeView> {
    Seq::new(changes.len(), |i: int| changes[i]@)
}

/// What each record says.
pub open spec fn changes_of(records: Seq<NotificationView>) -> Seq<ChangeView> {
    Seq::new(records.len(), |i: int| change(records[i]))
}

/// The bytes of the name in its field.
fn name_of(field: &[u8]) -> (name: &[u8])
    ensures
        name@ == field@.take(name_len(field@) as int),
{
    let len: usize = field.len();
    let mut end: usize = 0;
    assert(field@.skip(0) =~= field@);
    while end < len && field[end] != 0
        invariant
            end <= len,
            len == field@.len(),
            name_len(field@) == end + name_len(field@.skip(end as int)),
        decreases len - end,
    {
        assert(field@.skip(end as int).skip(1) =~= field@.skip(end + 1));
        end = end + 1;
    }
    assert(field@.subrange(0, end as int) =~= field@.take(end as int));
    slice_subrange(field, 0, end)
}

/// Reads what one notification says.
pub fn device_change(mask: u32, field: &[u8]) -> (found: DeviceChange)
    ensures
        found@ == change(NotificationView { mask, field: field@ }),
{
    match core::str::from_utf8(name_of(field)) {
        Err(_) => DeviceChange::Ignored,
        Ok(name) => {
            proof {
                encode_utf8_decode_utf8(name@);
            }
            let chars = text::chars_of(name);
            if !text::has_prefix(&chars, "event") {
                DeviceChange::Ignored
            } else if mask & IN_DELETE != 0 {
                DeviceChange::Removed(devices::path_of(&chars))
            } else if mask & (IN_CREATE | IN_ATTRIB) != 0 {
                DeviceChange::Appeared(devices::path_of(&chars))
            } else {
                DeviceChange::Ignored
            }
        },
    }
}

/// Reads what all the notifications in the first `count` bytes of `buffer`
/// say.
pub fn device_changes(buffer: &[u8], count: usize, order: ByteOrder) -> (found: Vec<DeviceChange>)
    ensures
        change_views(found@) == changes_of(notifications(order, buffer@, 0, count as nat)),
{
    let len: usize = buffer.len();
    let mut found: Vec<DeviceChange> = Vec::new();
    let mut offset: usize = 0;
    let ghost all = changes_of(notifications(order, buffer@, 0, count as nat));
    assert(change_views(found@) + all =~= all);
    while offset < count && offset <= len && len - offset >= HEADER_LEN
        invariant_except_break
            all == change_views(found@) + changes_of(
                notifications(order, buffer@, offset as nat, count as nat),
            ),
        invariant
            len == buffer@.len(),
        ensures
            all == change_views(found@),
        decreases count - offset,
    {
        let ghost here = record_at(order, buffer@, offset as nat);
        let mask: u32 = bytes::read_u32(buffer, offset + 4, order);
        let name_field: u32 = bytes::read_u32(buffer, offset + 12, order);
        let start: usize = offset + HEADER_LEN;
        let field = if name_field > 0 {
            slice_subrange(buffer, start, len)
        } else {
            slice_subrange(buffer, start, start)
        };
        assert(field@ =~= here.field);
        let ghost done = change_views(found@);
        found.push(device_change(mask, field));
        let ghost next = (start + name_field) as nat;
        proof {
            assert(change_views(found@) =~= done.push(change(here)));
            assert(done + changes_of(notifications(order, buffer@, offset as nat, count as nat))
                =~= done.push(change(here)) + changes_of(
                notifications(order, buffer@, next, count as nat),
            ));
        }
        if name_field as u64 >= (count as u64).saturating_sub(start as u64) {
            assert(changes_of(notifications(order, buffer@, next, count as nat)) =~= Seq::empty());
            assert(all =~= change_views(found@));
            break;
        }
        offset = start + name_field as usize;
    }
    assert(all =~= change_views(found@));
    found
}

/// What the loop that watches for devices has just learnt.
pub enum DiscoveryEvent<'a> {
    /// The descriptor that the watch facility returned.
    Initialized(i32),
    /// The descriptor of the watch on the device directory.
    Watching(i32),
    /// Whether the program is still running.
    Running(bool),
    /// The result of waiting for notifications with `select`.
    Selected(i32),
    /// The result of a read and the buffer that it filled.
    Read(isize, &'a [u8]),
}

/// What the loop that watches for devices does next.
#[derive(Debug, PartialEq, Eq)]
pub enum DiscoveryAction {
    /// Report that the facility is not to be had, and end.
    GiveUp,
    /// Add a watch on the device directory.
    AddWatch,
    /// Report that the watch failed, close the descriptor, and end.
    CloseAndGiveUp,
    /// Ask whether the program is still running.
    CheckRunning,
    /// Wait for notifications.
    Select,
    /// Read notifications.
    Read,
    /// Deal with these changes in order, then ask whether to go on.
    Handle(Vec<DeviceChange>),
    /// Close the descriptor, and end.
    Close,
}

/// What the loop that watches for devices does next.
pub enum DiscoveryView {
    GiveUp,
    AddWatch,
    CloseAndGiveUp,
    CheckRunning,
    Select,
    Read,
    Handle(Seq<ChangeView>),
    Close,
}

impl View for DiscoveryAction {
    type V = DiscoveryView;

    open spec fn view(&self) -> DiscoveryView {
        match self {
            DiscoveryAction::GiveUp => DiscoveryView::GiveUp,
            DiscoveryAction::AddWatch => DiscoveryView::AddWatch,
            DiscoveryAction::CloseAndGiveUp => DiscoveryView::CloseAndGiveUp,
            DiscoveryAction::CheckRunning => DiscoveryView::CheckRunning,
            DiscoveryAction::Select => DiscoveryView::Select,
            DiscoveryAction::Read => DiscoveryView::Read,
            DiscoveryAction::Handle(changes) => DiscoveryView::Handle(change_views(changes@)),
            DiscoveryAction::Close => DiscoveryView::Close,
        }
    }
}

/// What the loop does after `event`: without its descriptors it gives up; a
/// wait or a read that yields nothing only leads to the next wait.
pub open spec fn discovery_next(event: DiscoveryEvent, order: ByteOrder) -> DiscoveryView {
    match event {
        DiscoveryEvent::Initialized(fd) => if fd < 0 {
            DiscoveryView::GiveUp
        } else {
            DiscoveryView::AddWatch
        },
        DiscoveryEvent::Watching(wd) => if wd < 0 {
            DiscoveryView::CloseAndGiveUp
        } else {
            DiscoveryView::CheckRunning
        },
        DiscoveryEvent::Running(running) => if running {
            DiscoveryView::Select
        } else {
            DiscoveryView::Close
        },
        DiscoveryEvent::Selected(result) => if result <= 0 {
            DiscoveryView::CheckRunning
        } else {
            DiscoveryView::Read
        },
        DiscoveryEvent::Read(result, buffer) => if result <= 0 {
            DiscoveryView::CheckRunning
        } else {
            DiscoveryView::Handle(
                changes_of(notifications(order, buffer@, 0, result as nat)),
            )
        },
    }
}

/// Decides what the loop that watches for devices does next.
pub fn discovery_step(event: DiscoveryEvent, order: ByteOrder) -> (action: DiscoveryAction)
    ensures
        action@ == discovery_next(event, order),
{
    match event {
        DiscoveryEvent::Initialized(fd) => if fd < 0 {
            DiscoveryAction::GiveUp
        } else {
            DiscoveryAction::AddWatch
        },
        DiscoveryEvent::Watching(wd) => if wd < 0 {
            DiscoveryAction::CloseAndGiveUp
        } else {
            DiscoveryAction::CheckRunning
        },
        DiscoveryEvent::Running(running) => if running {
            DiscoveryAction::Select
        } else {
            DiscoveryAction::Close
        },
        DiscoveryEvent::Selected(result) => if result <= 0 {
            DiscoveryAction::CheckRunning
        } else {
            DiscoveryAction::Read
        },
        DiscoveryEvent::Read(result, buffer) => if result <= 0 {
            DiscoveryAction::CheckRunning
        } else {
            DiscoveryAction::Handle(device_changes(buffer, result as usize, order))
        },
    }
}

/// Whether `data` is made of whole records, in each of which a zero byte ends
/// the name, as the kernel writes them.
pub open spec fn whole_records(order: ByteOrder, data: Seq<u8>) -> bool
    decreases data.len(),
{
    data.len() == 0 || {
        &&& data.len() >= 16
        &&& record_len(order, data, 0) <= data.len()
        &&& name_field_len(order, data, 0) > 0 ==> data.subrange(
            16,
            record_len(order, data, 0) as int,
        ).contains(0u8)
        &&& whole_records(order, data.skip(record_len(order, data, 0) as int))
    }
}

/// Bytes behind a zero byte do not belong to the name.
proof fn lemma_name_ends(field: Seq<u8>, rest: Seq<u8>)
    requires
        field.contains(0u8),
    ensures
        name_len(field) < field.len(),
        name_len(field + rest) == name_len(field),
    decreases field.len(),
{
    if field[0] != 0 {
        let k = choose|k: int| 0 <= k < field.len() && field[k] == 0;
        assert(field.skip(1)[k - 1] == 0);
        lemma_name_ends(field.skip(1), rest);
        assert((field + rest).skip(1) =~= field.skip(1) + rest);
    }
}

/// Bytes before a record do not change how it is read.
proof fn lemma_notifications_shift(
    order: ByteOrder,
    before: Seq<u8>,
    buffer: Seq<u8>,
    offset: nat,
    count: nat,
)
    ensures
        notifications(order, before + buffer, before.len() + offset, before.len() + count)
            == notifications(order, buffer, offset, count),
    decreases
            (if offset < count {
                count - offset
            } else {
                0
            }),
{
    if offset < count && offset + 16 <= buffer.len() {
        let joined = before + buffer;
        let at = before.len() + offset;
        assert(joined.subrange(at as int + 4, at as int + 8) =~= buffer.subrange(offset as int + 4, offset as int + 8));
        assert(joined.subrange(at as int + 12, at as int + 16) =~= buffer.subrange(offset as int + 12, offset as int + 16));
        assert(joined.skip(at as int + 16) =~= buffer.skip(offset as int + 16));
        let next = offset + record_len(order, buffer, offset);
        lemma_notifications_shift(order, before, buffer, next, count);
        assert(before.len() + next == at + record_len(order, joined, at));
    }
}

/// A whole record says the same, whatever follows it.
proof fn lemma_whole_record_stands(order: ByteOrder, first: Seq<u8>, rest: Seq<u8>)
    requires
        first.len() > 0,
        whole_records(order, first),
    ensures
        record_len(order, first + rest, 0) == record_len(order, first, 0),
        change(record_at(order, first + rest, 0)) == change(record_at(order, first, 0)),
{
    let joined = first + rest;
    let len = record_len(order, first, 0);
    assert(joined.subrange(4, 8) =~= first.subrange(4, 8));
    assert(joined.subrange(12, 16) =~= first.subrange(12, 16));
    if name_field_len(order, first, 0) > 0 {
        let field = first.subrange(16, len as int);
        assert(first.skip(16) =~= field + first.skip(len as int));
        assert(joined.skip(16) =~= field + joined.skip(len as int));
        lemma_name_ends(field, first.skip(len as int));
        lemma_name_ends(field, joined.skip(len as int));
        let k = name_len(field) as int;
        assert(first.skip(16).take(k) =~= field.take(k));
        assert(joined.skip(16).take(k) =~= field.take(k));
    }
}

/// What the first record says comes before what the others say.
proof fn lemma_first_change(order: ByteOrder, buffer: Seq<u8>, count: nat)
    requires
        0 < count,
        16 <= buffer.len(),
    ensures
        changes_of(notifications(order, buffer, 0, count)) == seq![
            change(record_at(order, buffer, 0)),
        ] + changes_of(notifications(order, buffer, record_len(order, buffer, 0), count)),
{
    let rest = notifications(order, buffer, record_len(order, buffer, 0), count);
    let here = record_at(order, buffer, 0);
    assert(notifications(order, buffer, 0, count) == seq![here] + rest);
    assert(changes_of(seq![here] + rest) =~= seq![change(here)] + changes_of(rest));
}

/// Whole records are read one after another, and what follows them in the
/// buffer is read as it would be alone: neither what an earlier read has left
/// there nor where the records lie makes a difference.
pub proof fn lemma_notifications_join(order: ByteOrder, first: Seq<u8>, rest: Seq<u8>, count: nat)
    requires
        whole_records(order, first),
    ensures
        changes_of(notifications(order, first + rest, 0, first.len() + count)) == changes_of(
            notifications(order, first, 0, first.len()),
        ) + changes_of(notifications(order, rest, 0, count)),
    decreases first.len(),
{
    let tail = changes_of(notifications(order, rest, 0, count));
    if first.len() == 0 {
        assert(first + rest =~= rest);
        assert(changes_of(notifications(order, first, 0, 0)) + tail =~= tail);
    } else {
        let len = record_len(order, first, 0);
        let head = first.take(len as int);
        let others = first.skip(len as int);
        let total = first.len() + count;
        lemma_whole_record_stands(order, first, rest);
        lemma_first_change(order, first, first.len());
        lemma_first_change(order, first + rest, total);
        assert(first + rest =~= head + (others + rest));
        assert(first =~= head + others);
        lemma_notifications_shift(order, head, others + rest, 0, others.len() + count);
        lemma_notifications_shift(order, head, others, 0, others.len());
        lemma_notifications_join(order, others, rest, count);
        let here = change(record_at(order, first, 0));
        let behind = changes_of(notifications(order, others, 0, others.len()));
        assert(seq![here] + (behind + tail) =~= (seq![here] + behind) + tail);
    }
}

/// What a notification says, on its mask and the bytes of its name, which ends
/// at the first zero byte: of a name that is text and begins with `event`, a
/// mask with the bit of value 0x200 says that the device is gone, else one with
/// the bit of value 0x100 or 4 that it appeared. The path is the name under
/// `/dev/input/`, whatever its length. Nothing else says anything.
pub proof fn lemma_what_a_notification_says(mask: u32, name: Seq<u8>, rest: Seq<u8>)
    requires
        forall|i: int| 0 <= i < name.len() ==> name[i] != 0,
    ensures
        ({
            let said = change(NotificationView { mask, field: name.push(0) + rest });
            let chars = decode_utf8(name);
            let is_event = valid_utf8(name) && chars.len() >= 5 && chars[0] == 'e' && chars[1]
                == 'v' && chars[2] == 'e' && chars[3] == 'n' && chars[4] == 't';
            said == (if !is_event {
                ChangeView::Ignored
            } else if mask / 0x200 % 2 == 1 {
                ChangeView::Removed("/dev/input/"@ + chars)
            } else if mask / 0x100 % 2 == 1 || mask / 4 % 2 == 1 {
                ChangeView::Appeared("/dev/input/"@ + chars)
            } else {
                ChangeView::Ignored
            })
        }),
        change(NotificationView { mask, field: name }) == change(
            NotificationView { mask, field: name.push(0) + rest },
        ),
{
    let field = name.push(0) + rest;
    lemma_name_alone(name);
    assert(name.take(name.len() as int) =~= name);
    lemma_name_len(name, rest);
    assert(field.take(name.len() as int) =~= name);
    let chars = decode_utf8(name);
    reveal_strlit("event");
    text::lemma_starts_with(chars, "event"@);
    if text::starts_with(chars, "event"@) {
        assert(chars[0] == "event"@[0] && chars[1] == "event"@[1] && chars[2] == "event"@[2]
            && chars[3] == "event"@[3] && chars[4] == "event"@[4]);
    }
    assert(mask & 0x200 != 0 <==> mask / 0x200 % 2 == 1) by (bit_vector);
    assert(mask & (0x100u32 | 4u32) != 0 <==> mask / 0x100 % 2 == 1 || mask / 4 % 2
        == 1) by (bit_vector);
}

/// A name without a zero byte in it is as long as it is.
proof fn lemma_name_len(name: Seq<u8>, rest: Seq<u8>)
    requires
        forall|i: int| 0 <= i < name.len() ==> name[i] != 0,
    ensures
        name_len(name.push(0) + rest) == name.len(),
    decreases name.len(),
{
    if name.len() > 0 {
        assert((name.push(0) + rest).skip(1) =~= name.skip(1).push(0) + rest);
        lemma_name_len(name.skip(1), rest);
    }
}

/// A name that ends with its bytes is as long as they are.
proof fn lemma_name_alone(name: Seq<u8>)
    requires
        forall|i: int| 0 <= i < name.len() ==> name[i] != 0,
    ensures
        name_len(name) == name.len(),
    decreases name.len(),
{
    if name.len() > 0 {
        lemma_name_alone(name.skip(1));
    }
}

/// The first record of a read, byte by byte: the mask stands at byte 4, and at
/// byte 12 the length of what follows the sixteen bytes of the header. Without
/// anything behind the header the record says nothing; else the name begins
/// there. The next record begins where that length ends.
pub proof fn lemma_record_layout(order: ByteOrder, buffer: Seq<u8>, count: nat)
    requires
        count > 0,
        buffer.len() >= 16,
    ensures
        ({
            let mask: int = (if order == ByteOrder::Little {
                buffer[4] + 0x100 * buffer[5] + 0x10000 * buffer[6] + 0x1000000 * buffer[7]
            } else {
                buffer[7] + 0x100 * buffer[6] + 0x10000 * buffer[5] + 0x1000000 * buffer[4]
            });
            let len: int = (if order == ByteOrder::Little {
                buffer[12] + 0x100 * buffer[13] + 0x10000 * buffer[14] + 0x1000000 * buffer[15]
            } else {
                buffer[15] + 0x100 * buffer[14] + 0x10000 * buffer[13] + 0x1000000 * buffer[12]
            });
            changes_of(notifications(order, buffer, 0, count)) == seq![
                if len == 0 {
                    ChangeView::Ignored
                } else {
                    change(NotificationView { mask: mask as u32, field: buffer.skip(16) })
                },
            ] + changes_of(notifications(order, buffer, (16 + len) as nat, count))
        }),
{
    bytes::lemma_unsigned_4(order, buffer.subrange(4, 8));
    bytes::lemma_unsigned_4(order, buffer.subrange(12, 16));
    lemma_first_change(order, buffer, count);
    let none = Seq::<u8>::empty();
    if name_field_len(order, buffer, 0) == 0 {
        assert(none.take(0) =~= none);
        if valid_utf8(none) {
            reveal_strlit("event");
            assert(decode_utf8(none).len() == 0);
        }
    }
}

/// A record is read in the same way wherever it lies.
pub proof fn lemma_records_anywhere(order: ByteOrder, buffer: Seq<u8>, offset: nat, count: nat)
    requires
        offset <= count,
        offset <= buffer.len(),
    ensures
        notifications(order, buffer, offset, count) == notifications(
            order,
            buffer.skip(offset as int),
            0,
            (count - offset) as nat,
        ),
{
    assert(buffer =~= buffer.take(offset as int) + buffer.skip(offset as int));
    lemma_notifications_shift(
        order,
        buffer.take(offset as int),
        buffer.skip(offset as int),
        0,
        (count - offset) as nat,
    );
}

/// No record begins behind what was read, or where its header does not fit.
pub proof fn lemma_no_more_records(order: ByteOrder, buffer: Seq<u8>, offset: nat, count: nat)
    requires
        offset >= count || offset + 16 > buffer.len(),
    ensures
        notifications(order, buffer, offset, count) == Seq::<NotificationView>::empty(),
{
}

/// The decisions of the loop that watches for devices: a descriptor below zero
/// is none, a wait or a read that yields nothing leads back to the question
/// whether the program runs, and a read of some bytes to what they say.
pub proof fn lemma_discovery_decisions(n: i32, result: isize, buffer: &[u8], order: ByteOrder)
    ensures
        discovery_next(DiscoveryEvent::Initialized(n), order) == (if n < 0 {
            DiscoveryView::GiveUp
        } else {
            DiscoveryView::AddWatch
        }),
        discovery_next(DiscoveryEvent::Watching(n), order) == (if n < 0 {
            DiscoveryView::CloseAndGiveUp
        } else {
            DiscoveryView::CheckRunning
        }),
        discovery_next(DiscoveryEvent::Running(true), order) == DiscoveryView::Select,
        discovery_next(DiscoveryEvent::Running(false), order) == DiscoveryView::Close,
        discovery_next(DiscoveryEvent::Selected(n), order) == (if n > 0 {
            DiscoveryView::Read
        } else {
            DiscoveryView::CheckRunning
        }),
        result <= 0 ==> discovery_next(DiscoveryEvent::Read(result, buffer), order)
            == DiscoveryView::CheckRunning,
        result > 0 ==> discovery_next(DiscoveryEvent::Read(result, buffer), order)
            == DiscoveryView::Handle(
            changes_of(notifications(order, buffer@, 0, result as nat)),
        ),
{
}

/// What is said of each record stands at the place of the record.
pub proof fn lemma_one_change_per_record(records: Seq<NotificationView>)
    ensures
        changes_of(records).len() == records.len(),
        forall|i: int| 0 <= i < records.len() ==> #[trigger] changes_of(records)[i] == change(
            records[i],
        ),
{
}

/// A change, and what the loop does next, are seen for what they are.
pub proof fn lemma_views(path: String, changes: Vec<DeviceChange>, i: int)
    ensures
        DeviceChange::Ignored@ == ChangeView::Ignored,
        DeviceChange::Removed(path)@ == ChangeView::Removed(path@),
        DeviceChange::Appeared(path)@ == ChangeView::Appeared(path@),
        change_views(changes@).len() == changes@.len(),
        0 <= i < changes@.len() ==> change_views(changes@)[i] == changes@[i]@,
        DiscoveryAction::GiveUp@ == DiscoveryView::GiveUp,
        DiscoveryAction::AddWatch@ == DiscoveryView::AddWatch,
        DiscoveryAction::CloseAndGiveUp@ == DiscoveryView::CloseAndGiveUp,
        DiscoveryAction::CheckRunning@ == DiscoveryView::CheckRunning,
        DiscoveryAction::Select@ == DiscoveryView::Select,
        DiscoveryAction::Read@ == DiscoveryView::Read,
        DiscoveryAction::Handle(changes)@ == DiscoveryView::Handle(change_views(changes@)),
        DiscoveryAction::Close@ == DiscoveryView::Close,
{
}

} // verus!
