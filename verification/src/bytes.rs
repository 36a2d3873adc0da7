//! Unsigned integers as byte strings, in either byte order.
use vstd::prelude::*;
use vstd::slice::slice_subrange;

verus! {

/// The order in which the bytes of an integer lie in memory.
#[derive(Clone, Copy, PartialEq, Eq, Structural, Debug)]
pub enum ByteOrder {
    /// Least significant byte first.
    Little,
    /// Most significant byte first.
    Big,
}

/// The last `width` base-256 digits of `value`, most significant first.
pub open spec fn be_bytes(value: nat, width: nat) -> Seq<u8>
    decreases width,
{
    if width == 0 {
        Seq::empty()
    } else {
        be_bytes(value / 256, (width - 1) as nat).push((value % 256) as u8)
    }
}

/// The number whose base-256 digits, most significant first, are `bytes`.
pub open spec fn be_value(bytes: Seq<u8>) -> nat
    decreases bytes.len(),
{
    if bytes.len() == 0 {
        0
    } else {
        be_value(bytes.drop_last()) * 256 + bytes.last() as nat
    }
}

/// The unsigned number that `bytes` hold in the given order.
pub open spec fn unsigned(order: ByteOrder, bytes: Seq<u8>) -> nat {
    match order {
        ByteOrder::Big => be_value(bytes),
        ByteOrder::Little => be_value(bytes.reverse()),
    }
}

/// The number of values that `width` bytes can hold.
pub open spec fn byte_span(width: nat) -> nat
    decreases width,
{
    if width == 0 {
        1
    } else {
        256 * byte_span((width - 1) as nat)
    }
}

/// The two's complement reading of an unsigned number below `2 * half`.
pub open spec fn signed(value: nat, half: nat) -> int {
    if value < half {
        value as int
    } else {
        value - 2 * half
    }
}

/// `be_bytes` yields exactly `width` bytes.
pub proof fn lemma_be_bytes_len(value: nat, width: nat)
    ensures
        be_bytes(value, width).len() == width,
    decreases width,
{
    if width > 0 {
        lemma_be_bytes_len(value / 256, (width - 1) as nat);
    }
}

/// Reading back the bytes of a number that fits gives the number.
pub proof fn lemma_be_round_trip(value: nat, width: nat)
    requires
        value < byte_span(width),
    ensures
        be_value(be_bytes(value, width)) == value,
    decreases width,
{
    if width > 0 {
        lemma_be_round_trip(value / 256, (width - 1) as nat);
        let head = be_bytes(value / 256, (width - 1) as nat);
        assert(be_bytes(value, width).drop_last() =~= head);
    }
}

/// Writing the number that some bytes hold gives those bytes again.
pub proof fn lemma_be_bytes_of_value(bytes: Seq<u8>)
    ensures
        be_bytes(be_value(bytes), bytes.len()) == bytes,
    decreases bytes.len(),
{
    if bytes.len() > 0 {
        lemma_be_bytes_of_value(bytes.drop_last());
        let high = be_value(bytes.drop_last());
        let low = bytes.last() as nat;
        assert((high * 256 + low) / 256 == high);
        assert((high * 256 + low) % 256 == low);
        assert(bytes.drop_last().push(bytes.last()) =~= bytes);
    } else {
        assert(bytes =~= Seq::empty());
    }
}

/// A number held in `width` bytes is below `byte_span(width)`.
pub proof fn lemma_be_value_bound(bytes: Seq<u8>)
    ensures
        be_value(bytes) < byte_span(bytes.len()),
    decreases bytes.len(),
{
    if bytes.len() > 0 {
        lemma_be_value_bound(bytes.drop_last());
    }
}

/// Appends the eight bytes of `value`, most significant first.
pub fn push_be_u64(buf: &mut Vec<u8>, value: u64)
    ensures
        final(buf)@ == old(buf)@ + be_bytes(value as nat, 8),
{
    let v1: u64 = value / 256;
    let v2: u64 = v1 / 256;
    let v3: u64 = v2 / 256;
    let v4: u64 = v3 / 256;
    let v5: u64 = v4 / 256;
    let v6: u64 = v5 / 256;
    let v7: u64 = v6 / 256;
    buf.push((v7 % 256) as u8);
    buf.push((v6 % 256) as u8);
    buf.push((v5 % 256) as u8);
    buf.push((v4 % 256) as u8);
    buf.push((v3 % 256) as u8);
    buf.push((v2 % 256) as u8);
    buf.push((v1 % 256) as u8);
    buf.push((value % 256) as u8);
    proof {
        reveal_with_fuel(be_bytes, 9);
        assert(buf@ =~= old(buf)@ + be_bytes(value as nat, 8));
    }
}

/// Appends the four bytes of `value`, most significant first.
pub fn push_be_u32(buf: &mut Vec<u8>, value: u32)
    ensures
        final(buf)@ == old(buf)@ + be_bytes(value as nat, 4),
{
    let v1: u32 = value / 256;
    let v2: u32 = v1 / 256;
    let v3: u32 = v2 / 256;
    buf.push((v3 % 256) as u8);
    buf.push((v2 % 256) as u8);
    buf.push((v1 % 256) as u8);
    buf.push((value % 256) as u8);
    proof {
        reveal_with_fuel(be_bytes, 5);
        assert(buf@ =~= old(buf)@ + be_bytes(value as nat, 4));
    }
}

/// Extends a big-endian number by one digit.
proof fn lemma_be_value_push(head: Seq<u8>, digit: u8)
    ensures
        be_value(head.push(digit)) == be_value(head) * 256 + digit as nat,
{
    assert(head.push(digit).drop_last() =~= head);
}

/// Reads the unsigned number in `bytes`, which are at most eight.
pub fn read_unsigned(bytes: &[u8], order: ByteOrder) -> (value: u64)
    requires
        bytes@.len() <= 8,
    ensures
        value == unsigned(order, bytes@),
{
    let len: usize = bytes.len();
    let mut value: u64 = 0;
    let mut i: usize = 0;
    let ghost digits: Seq<u8> = match order {
        ByteOrder::Big => bytes@,
        ByteOrder::Little => bytes@.reverse(),
    };
    assert(digits.take(0) =~= Seq::empty());
    while i < len
        invariant
            i <= len,
            len == bytes@.len(),
            len <= 8,
            digits == (match order {
                ByteOrder::Big => bytes@,
                ByteOrder::Little => bytes@.reverse(),
            }),
            value == be_value(digits.take(i as int)),
        decreases len - i,
    {
        let digit: u8 = match order {
            ByteOrder::Big => bytes[i],
            ByteOrder::Little => bytes[len - 1 - i],
        };
        proof {
            assert(digits.take(i as int).push(digit) =~= digits.take(i + 1));
            lemma_be_value_push(digits.take(i as int), digit);
            lemma_be_value_bound(digits.take(i + 1));
            lemma_byte_span_monotone((i + 1) as nat, 8);
            reveal_with_fuel(byte_span, 9);
        }
        value = value * 256 + digit as u64;
        i = i + 1;
    }
    assert(digits.take(len as int) =~= digits);
    value
}

/// A longer byte string holds at least as many values.
proof fn lemma_byte_span_monotone(a: nat, b: nat)
    requires
        a <= b,
    ensures
        byte_span(a) <= byte_span(b),
    decreases b,
{
    if a < b {
        lemma_byte_span_monotone(a, (b - 1) as nat);
    }
}

/// An unsigned number of `width` bytes is below `byte_span(width)` in either
/// order.
pub proof fn lemma_unsigned_bound(order: ByteOrder, bytes: Seq<u8>)
    ensures
        unsigned(order, bytes) < byte_span(bytes.len()),
{
    lemma_be_value_bound(bytes);
    lemma_be_value_bound(bytes.reverse());
}

/// Reads the unsigned number of two bytes at `offset`.
pub fn read_u16(bytes: &[u8], offset: usize, order: ByteOrder) -> (value: u16)
    requires
        offset + 2 <= bytes.len(),
    ensures
        value == unsigned(order, bytes@.subrange(offset as int, offset + 2)),
{
    let field = slice_subrange(bytes, offset, offset + 2);
    let value: u64 = read_unsigned(field, order);
    proof {
        lemma_unsigned_bound(order, field@);
        reveal_with_fuel(byte_span, 9);
    }
    value as u16
}

/// Reads the unsigned number of four bytes at `offset`.
pub fn read_u32(bytes: &[u8], offset: usize, order: ByteOrder) -> (value: u32)
    requires
        offset + 4 <= bytes.len(),
    ensures
        value == unsigned(order, bytes@.subrange(offset as int, offset + 4)),
{
    let field = slice_subrange(bytes, offset, offset + 4);
    let value: u64 = read_unsigned(field, order);
    proof {
        lemma_unsigned_bound(order, field@);
        reveal_with_fuel(byte_span, 9);
    }
    value as u32
}

/// Reads the two's complement number of four bytes at `offset`.
pub fn read_i32(bytes: &[u8], offset: usize, order: ByteOrder) -> (value: i32)
    requires
        offset + 4 <= bytes.len(),
    ensures
        value == signed(
            unsigned(order, bytes@.subrange(offset as int, offset + 4)),
            0x8000_0000,
        ),
{
    let raw: u32 = read_u32(bytes, offset, order);
    if raw < 0x8000_0000 {
        raw as i32
    } else {
        (raw - 0x8000_0000) as i32 + i32::MIN
    }
}

/// Reads the two's complement number of eight bytes at `offset`.
pub fn read_i64(bytes: &[u8], offset: usize, order: ByteOrder) -> (value: i64)
    requires
        offset + 8 <= bytes.len(),
    ensures
        value == signed(
            unsigned(order, bytes@.subrange(offset as int, offset + 8)),
            0x8000_0000_0000_0000,
        ),
{
    let raw: u64 = read_unsigned(slice_subrange(bytes, offset, offset + 8), order);
    if raw < 0x8000_0000_0000_0000 {
        raw as i64
    } else {
        (raw - 0x8000_0000_0000_0000) as i64 + i64::MIN
    }
}

/// The number in two bytes, place by place.
pub proof fn lemma_unsigned_2(order: ByteOrder, bytes: Seq<u8>)
    requires
        bytes.len() == 2,
    ensures
        unsigned(order, bytes) == (if order == ByteOrder::Little {
            bytes[0] + 0x100 * bytes[1]
        } else {
            bytes[1] + 0x100 * bytes[0]
        }),
{
    reveal_with_fuel(be_value, 3);
}

/// The number in four bytes, place by place.
pub proof fn lemma_unsigned_4(order: ByteOrder, bytes: Seq<u8>)
    requires
        bytes.len() == 4,
    ensures
        unsigned(order, bytes) == (if order == ByteOrder::Little {
            bytes[0] + 0x100 * bytes[1] + 0x10000 * bytes[2] + 0x1000000 * bytes[3]
        } else {
            bytes[3] + 0x100 * bytes[2] + 0x10000 * bytes[1] + 0x1000000 * bytes[0]
        }),
{
    reveal_with_fuel(be_value, 5);
}

/// The number in eight bytes, place by place.
pub proof fn lemma_unsigned_8(order: ByteOrder, bytes: Seq<u8>)
    requires
        bytes.len() == 8,
    ensures
        unsigned(order, bytes) == (if order == ByteOrder::Little {
            bytes[0] + 0x100 * bytes[1] + 0x10000 * bytes[2] + 0x1000000 * bytes[3]
                + 0x100000000 * bytes[4] + 0x10000000000 * bytes[5] + 0x1000000000000 * bytes[6]
                + 0x100000000000000 * bytes[7]
        } else {
            bytes[7] + 0x100 * bytes[6] + 0x10000 * bytes[5] + 0x1000000 * bytes[4]
                + 0x100000000 * bytes[3] + 0x10000000000 * bytes[2] + 0x1000000000000 * bytes[1]
                + 0x100000000000000 * bytes[0]
        }),
{
    reveal_with_fuel(be_value, 9);
}

/// The four bytes of a number, place by place.
pub proof fn lemma_be_bytes_4(value: nat)
    ensures
        be_bytes(value, 4).len() == 4,
        be_bytes(value, 4)[0] == value / 0x1000000 % 256,
        be_bytes(value, 4)[1] == value / 0x10000 % 256,
        be_bytes(value, 4)[2] == value / 0x100 % 256,
        be_bytes(value, 4)[3] == value % 256,
{
    reveal_with_fuel(be_bytes, 5);
}

/// The eight bytes of a number, place by place.
pub proof fn lemma_be_bytes_8(value: nat)
    ensures
        be_bytes(value, 8).len() == 8,
        be_bytes(value, 8)[0] == value / 0x100000000000000 % 256,
        be_bytes(value, 8)[1] == value / 0x1000000000000 % 256,
        be_bytes(value, 8)[2] == value / 0x10000000000 % 256,
        be_bytes(value, 8)[3] == value / 0x100000000 % 256,
        be_bytes(value, 8)[4] == value / 0x1000000 % 256,
        be_bytes(value, 8)[5] == value / 0x10000 % 256,
        be_bytes(value, 8)[6] == value / 0x100 % 256,
        be_bytes(value, 8)[7] == value % 256,
{
    reveal_with_fuel(be_bytes, 9);
}

/// A number in any bytes: each byte more is a digit to the base of 256, behind
/// the others if the most significant comes first; the other order is the same
/// backwards.
pub proof fn lemma_unsigned_digits(bytes: Seq<u8>, digit: u8)
    ensures
        unsigned(ByteOrder::Big, Seq::empty()) == 0,
        unsigned(ByteOrder::Big, bytes.push(digit)) == unsigned(ByteOrder::Big, bytes) * 256
            + digit as nat,
        unsigned(ByteOrder::Little, bytes) == unsigned(ByteOrder::Big, bytes.reverse()),
{
    lemma_be_value_push(bytes, digit);
}

/// Two's complement: the upper half of the numbers stands for those below zero.
pub proof fn lemma_signed(value: nat, half: nat)
    requires
        value < 2 * half,
    ensures
        -half <= signed(value, half) < half,
        signed(value, half) == value || signed(value, half) + 2 * half == value,
{
}

} // verus!
