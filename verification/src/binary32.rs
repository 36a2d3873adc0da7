//! Integers as IEEE 754 binary32 bit patterns.
use vstd::arithmetic::power2::*;
use vstd::prelude::*;

verus! {

/// The position of the highest one bit of `m`.
pub open spec fn floor_log2(m: nat) -> nat
    decreases m,
{
    if m < 2 {
        0
    } else {
        1 + floor_log2(m / 2)
    }
}

/// `m / d` rounded to the nearest integer, to the even one on a tie.
pub open spec fn div_half_even(m: nat, d: nat) -> nat {
    let q = m / d;
    let r = m % d;
    if 2 * r > d || (2 * r == d && q % 2 == 1) {
        q + 1
    } else {
        q
    }
}

/// `m` scaled and rounded to 24 significant bits.
pub open spec fn significand(m: nat) -> nat {
    let e = floor_log2(m);
    if e <= 23 {
        m * pow2((23 - e) as nat)
    } else {
        div_half_even(m, pow2((e - 23) as nat))
    }
}

/// The absolute value of `x`.
pub open spec fn magnitude(x: int) -> nat {
    if x < 0 {
        (-x) as nat
    } else {
        x as nat
    }
}

/// The bit pattern of the binary32 number nearest to `x`.
///
/// The significand carries its leading one bit, which adds one to the
/// exponent field; a significand rounded up to the next power of two carries
/// into it in the same way.
pub open spec fn binary32_of(x: int) -> int {
    if x == 0 {
        0
    } else {
        let m = magnitude(x);
        (if x < 0 {
            0x8000_0000int
        } else {
            0
        }) + (floor_log2(m) + 126) * 0x80_0000 + significand(m)
    }
}

proof fn lemma_floor_log2_bounds(m: nat)
    requires
        m > 0,
    ensures
        pow2(floor_log2(m)) <= m < 2 * pow2(floor_log2(m)),
    decreases m,
{
    lemma2_to64();
    if m >= 2 {
        lemma_floor_log2_bounds(m / 2);
        lemma_pow2_unfold(floor_log2(m));
    }
}

/// Two to the power `k`, below 2^32.
fn power_of_two(k: u32) -> (p: u32)
    requires
        k <= 31,
    ensures
        p == pow2(k as nat),
{
    let mut p: u32 = 1;
    let mut i: u32 = 0;
    proof {
        lemma2_to64();
    }
    while i < k
        invariant
            i <= k <= 31,
            p == pow2(i as nat),
        decreases k - i,
    {
        proof {
            lemma_pow2_unfold((i + 1) as nat);
            if i < 30 {
                lemma_pow2_strictly_increases(i as nat, 30);
            }
            lemma2_to64();
        }
        p = p * 2;
        i = i + 1;
    }
    p
}

/// The position of the highest one bit of `m`.
fn highest_bit(m: u32) -> (e: u32)
    requires
        m > 0,
    ensures
        e == floor_log2(m as nat),
        e <= 31,
{
    let mut e: u32 = 0;
    let mut rest: u32 = m;
    proof {
        lemma_log2_below_32(m);
    }
    while rest >= 2
        invariant
            rest > 0,
            e + floor_log2(rest as nat) == floor_log2(m as nat),
            floor_log2(m as nat) <= 31,
        decreases rest,
    {
        rest = rest / 2;
        e = e + 1;
    }
    e
}

proof fn lemma_log2_below_32(m: u32)
    requires
        m > 0,
    ensures
        floor_log2(m as nat) <= 31,
{
    lemma_floor_log2_bounds(m as nat);
    lemma2_to64();
    let e = floor_log2(m as nat);
    if e >= 32 {
        if e > 32 {
            lemma_pow2_strictly_increases(32, e);
        }
        assert(false);
    }
}

proof fn lemma_significand_range(m: nat)
    requires
        m > 0,
    ensures
        0x80_0000 <= significand(m) <= 0x100_0000,
{
    lemma_floor_log2_bounds(m);
    lemma2_to64();
    let e = floor_log2(m);
    if e <= 23 {
        let scale = pow2((23 - e) as nat);
        lemma_pow2_adds(e, (23 - e) as nat);
        assert(pow2(e) * scale <= m * scale < (2 * pow2(e)) * scale) by (nonlinear_arith)
            requires
                pow2(e) <= m < 2 * pow2(e),
                scale > 0,
        ;
        assert((2 * pow2(e)) * scale == 2 * (pow2(e) * scale)) by (nonlinear_arith);
    } else {
        let d = pow2((e - 23) as nat);
        lemma_pow2_adds(23, (e - 23) as nat);
        assert(0x80_0000 <= m / d < 0x100_0000) by (nonlinear_arith)
            requires
                0x80_0000 * d <= m < 2 * (0x80_0000 * d),
                d > 0,
        ;
    }
}

/// The bit pattern of the binary32 number nearest to `x`, ties to even.
pub fn binary32_bits(x: i32) -> (bits: u32)
    ensures
        bits == binary32_of(x as int),
{
    if x == 0 {
        return 0;
    }
    let m: u32 = if x < 0 {
        (-(x as i64)) as u32
    } else {
        x as u32
    };
    let e: u32 = highest_bit(m);
    proof {
        lemma_significand_range(m as nat);
        lemma_floor_log2_bounds(m as nat);
        lemma2_to64();
    }
    let sig: u32 = if e <= 23 {
        let scale: u32 = power_of_two(23 - e);
        m * scale
    } else {
        let d: u32 = power_of_two(e - 23);
        proof {
            lemma_pow2_pos((e - 23) as nat);
        }
        let q: u32 = m / d;
        let r: u32 = m % d;
        if r > d - r || (r == d - r && q % 2 == 1) {
            q + 1
        } else {
            q
        }
    };
    let sign: u32 = if x < 0 {
        0x8000_0000
    } else {
        0
    };
    sign + (e + 126) * 0x80_0000 + sig
}

/// Whether the pattern stands for a number, not an infinity or a NaN.
pub open spec fn is_finite(bits: u32) -> bool {
    (bits as nat / 0x80_0000) % 256 != 255
}

/// The absolute value of a finite binary32 number, in units of 2^-149, the
/// smallest positive one.
pub open spec fn magnitude_units(bits: u32) -> nat {
    let exponent = (bits as nat / 0x80_0000) % 256;
    let fraction = bits as nat % 0x80_0000;
    if exponent == 0 {
        fraction
    } else {
        (0x80_0000 + fraction) * pow2((exponent - 1) as nat)
    }
}

/// The value of a finite binary32 number, in units of 2^-149.
pub open spec fn units(bits: u32) -> int {
    if bits >= 0x8000_0000 {
        -(magnitude_units(bits) as int)
    } else {
        magnitude_units(bits) as int
    }
}

/// How far the finite binary32 number `bits` lies from `x`, in units of 2^-149.
pub open spec fn distance(bits: u32, x: int) -> nat {
    magnitude(units(bits) - x * pow2(149))
}

/// Rounding a quotient half to even gives an integer that no other is nearer
/// than, and an even one where another is as near.
proof fn lemma_div_half_even_nearest(m: nat, d: nat, k: int)
    requires
        d > 0,
    ensures
        magnitude(div_half_even(m, d) * d - m) <= magnitude(k * d - m),
        2 * magnitude(div_half_even(m, d) * d - m) <= d,
        k != div_half_even(m, d) && magnitude(k * d - m) == magnitude(div_half_even(m, d) * d - m)
            ==> div_half_even(m, d) % 2 == 0,
{
    let q = m / d;
    let r = m % d;
    vstd::arithmetic::div_mod::lemma_fundamental_div_mod(m as int, d as int);
    assert(m == q * d + r && r < d) by (nonlinear_arith)
        requires
            m == d * q + r,
            0 <= r < d,
    ;
    assert((q + 1) * d == q * d + d) by (nonlinear_arith);
    if k <= q - 1 {
        assert(k * d <= q * d - d) by (nonlinear_arith)
            requires
                k <= q - 1,
                d > 0,
        ;
    } else if k >= q + 2 {
        assert(k * d >= q * d + 2 * d) by (nonlinear_arith)
            requires
                k >= q + 2,
                d > 0,
        ;
    } else if k == q {
        assert(k * d == q * d);
    } else {
        assert(k * d == (q + 1) * d);
    }
}

/// The magnitude of `binary32_of(x)` is the rounded significand, scaled.
proof fn lemma_binary32_of_units(x: int, bits: u32)
    requires
        x != 0,
        magnitude(x) <= 0x8000_0000,
        bits == binary32_of(x),
    ensures
        is_finite(bits),
        bits >= 0x8000_0000 <==> x < 0,
        bits % 2 == significand(magnitude(x)) % 2,
        magnitude_units(bits) == significand(magnitude(x)) * pow2(
            (floor_log2(magnitude(x)) + 126) as nat,
        ),
{
    let m = magnitude(x);
    let e = floor_log2(m);
    let sig = significand(m);
    lemma_significand_range(m);
    lemma_log2_below_32(m as u32);
    let low = bits as nat - (if x < 0 {
        0x8000_0000int
    } else {
        0
    });
    assert(low == (e + 126) * 0x80_0000 + sig);
    if sig == 0x100_0000 {
        assert(bits as nat / 0x80_0000 % 256 == e + 128);
        assert(bits as nat % 0x80_0000 == 0);
        lemma_pow2_unfold((e + 127) as nat);
        assert(0x80_0000 * pow2((e + 127) as nat) == 0x100_0000 * pow2((e + 126) as nat));
    } else {
        assert(bits as nat / 0x80_0000 % 256 == e + 127);
        assert(bits as nat % 0x80_0000 == sig - 0x80_0000);
    }
}

/// A finite magnitude `b` is no nearer to the magnitude of `x` than the
/// rounded one, and if it is another one as near, the rounded one is even.
proof fn lemma_magnitude_nearest(m: nat, b: u32)
    requires
        0 < m <= 0x8000_0000,
        is_finite(b),
    ensures
        ({
            let rounded = significand(m) * pow2((floor_log2(m) + 126) as nat);
            let exact = m * pow2(149);
            &&& magnitude(rounded - exact) <= magnitude(magnitude_units(b) - exact)
            &&& magnitude(rounded - exact) < exact
            &&& magnitude_units(b) != rounded && magnitude(magnitude_units(b) - exact)
                == magnitude(rounded - exact) ==> significand(m) % 2 == 0
        }),
{
    let e = floor_log2(m);
    let sig = significand(m);
    let unit = pow2((e + 126) as nat);
    let one = pow2(149);
    let exact = m * one;
    lemma_pow2_pos(149);
    lemma_floor_log2_bounds(m);
    lemma_log2_below_32(m as u32);
    assert(exact > 0) by (nonlinear_arith)
        requires
            exact == m * one,
            m > 0,
            one > 0,
    ;
    if e <= 23 {
        lemma_pow2_adds((23 - e) as nat, (e + 126) as nat);
        let scale = pow2((23 - e) as nat);
        assert(sig * unit == exact) by (nonlinear_arith)
            requires
                sig == m * scale,
                scale * unit == one,
                exact == m * one,
        ;
    } else {
        let d = pow2((e - 23) as nat);
        lemma_pow2_pos((e - 23) as nat);
        lemma_pow2_adds((e - 23) as nat, 149);
        lemma_pow2_adds(23, (e - 23) as nat);
        lemma2_to64();
        lemma_scaled(sig as int, d, m, one, unit);
        lemma_div_half_even_nearest(m, d, 0x80_0000);
        let exponent = (b as nat / 0x80_0000) % 256;
        let fraction = b as nat % 0x80_0000;
        assert(2 * magnitude(sig * unit - exact) <= d * one) by (nonlinear_arith)
            requires
                magnitude(sig * unit - exact) == magnitude(sig * d - m) * one,
                2 * magnitude(sig * d - m) <= d,
        ;
        assert(0x80_0000 * (d * one) <= exact) by (nonlinear_arith)
            requires
                0x80_0000 * d <= m,
                exact == m * one,
        ;
        lemma_scaled(0x80_0000, d, m, one, unit);
        if exponent >= e + 127 {
            let steps = pow2((exponent - (e + 127)) as nat);
            lemma_pow2_adds((exponent - (e + 127)) as nat, (e + 126) as nat);
            let k: int = ((0x80_0000 + fraction) * steps) as int;
            assert(magnitude_units(b) == k * unit) by (nonlinear_arith)
                requires
                    magnitude_units(b) == (0x80_0000 + fraction) * (steps * unit),
                    k == (0x80_0000 + fraction) * steps,
            ;
            lemma_scaled(k, d, m, one, unit);
            lemma_div_half_even_nearest(m, d, k);
            lemma_scaled_order(magnitude(sig * d - m), magnitude(k * d - m), one);
        } else {
            lemma_small_magnitude(b, (e + 126) as nat);
            lemma_scaled_order(magnitude(sig * d - m), magnitude(0x80_0000 * d - m), one);
            assert(magnitude_units(b) < 0x80_0000 * unit <= exact);
        }
    }
}

/// Multiples of `d` seen through a factor `one`.
proof fn lemma_scaled(k: int, d: nat, m: nat, one: nat, unit: nat)
    requires
        unit == d * one,
    ensures
        k * unit - m * one == (k * d - m) * one,
        magnitude(k * unit - m * one) == magnitude(k * d - m) * one,
{
    assert(k * unit - m * one == (k * d - m) * one) by (nonlinear_arith)
        requires
            unit == d * one,
    ;
    let t = k * d - m;
    assert(t < 0 ==> t * one <= 0 && (-t) * one == -(t * one)) by (nonlinear_arith)
        requires
            one >= 0,
    ;
    assert(t >= 0 ==> t * one >= 0) by (nonlinear_arith)
        requires
            one >= 0,
    ;
    if t < 0 {
        if t * one == 0 {
            assert(magnitude(t) * one == 0);
        }
    }
}

/// A positive factor keeps the order of magnitudes and their equality.
proof fn lemma_scaled_order(a: nat, b: nat, one: nat)
    requires
        one > 0,
    ensures
        a <= b ==> a * one <= b * one,
        a * one == b * one ==> a == b,
{
    assert(a <= b ==> a * one <= b * one) by (nonlinear_arith);
    assert(a * one == b * one ==> a == b) by (nonlinear_arith)
        requires
            one > 0,
    ;
}

/// A number whose exponent is too small for a unit of 2^u lies below 2^23 of
/// those units.
proof fn lemma_small_magnitude(b: u32, u: nat)
    requires
        (b as nat / 0x80_0000) % 256 <= u,
        u > 0,
    ensures
        magnitude_units(b) < 0x80_0000 * pow2(u),
{
    let exponent = (b as nat / 0x80_0000) % 256;
    let fraction = b as nat % 0x80_0000;
    lemma_pow2_pos(u);
    if exponent > 0 {
        let p = pow2((exponent - 1) as nat);
        lemma_pow2_unfold(exponent);
        if exponent < u {
            lemma_pow2_strictly_increases(exponent, u);
        }
        lemma_pow2_pos((exponent - 1) as nat);
        assert((0x80_0000 + fraction) * p < 0x80_0000 * (2 * p)) by (nonlinear_arith)
            requires
                fraction < 0x80_0000,
                p > 0,
        ;
    } else {
        assert(fraction < 0x80_0000 * pow2(u)) by (nonlinear_arith)
            requires
                fraction < 0x80_0000,
                pow2(u) > 0,
        ;
    }
}

/// `binary32_of(x)` is the number that IEEE 754 rounds `x` to: no finite
/// binary32 number lies nearer to `x`, and where another lies as near, the
/// result is the one with an even last bit.
pub proof fn lemma_binary32_nearest_even(x: i32, bits: u32, other: u32)
    requires
        bits == binary32_of(x as int),
        is_finite(other),
    ensures
        is_finite(bits),
        distance(bits, x as int) <= distance(other, x as int),
        units(other) != units(bits) && distance(other, x as int) == distance(bits, x as int)
            ==> bits % 2 == 0,
{
    if x == 0 {
        assert(0 * pow2(149) == 0) by (nonlinear_arith);
    } else {
        let m = magnitude(x as int);
        lemma_binary32_of_units(x as int, bits);
        lemma_magnitude_nearest(m, other);
        let one = pow2(149);
        let exact = m * one;
        assert(x < 0 ==> x * one == -(exact as int)) by (nonlinear_arith)
            requires
                exact == m * one,
                x < 0 ==> m == -x,
        ;
    }
}

/// An integer of at most 24 bits is represented exactly.
pub proof fn lemma_binary32_exact(x: i32, bits: u32)
    requires
        bits == binary32_of(x as int),
        -0x100_0000 <= x <= 0x100_0000,
    ensures
        units(bits) == x * pow2(149),
{
    if x == 0 {
        assert(0 * pow2(149) == 0) by (nonlinear_arith);
    } else {
        let m = magnitude(x as int);
        let e = floor_log2(m);
        let one = pow2(149);
        lemma_binary32_of_units(x as int, bits);
        lemma_floor_log2_bounds(m);
        lemma2_to64();
        if e > 24 {
            lemma_pow2_strictly_increases(24, e);
        }
        let sig = significand(m);
        let unit = pow2((e + 126) as nat);
        if e <= 23 {
            let scale = pow2((23 - e) as nat);
            lemma_pow2_adds((23 - e) as nat, (e + 126) as nat);
            assert(sig * unit == m * one) by (nonlinear_arith)
                requires
                    sig == m * scale,
                    scale * unit == one,
            ;
        } else {
            assert(m == 0x100_0000);
            lemma_pow2_unfold(150);
            assert(sig == 0x80_0000);
            assert(sig * unit == m * one) by (nonlinear_arith)
                requires
                    sig == 0x80_0000,
                    m == 0x100_0000,
                    unit == 2 * one,
            ;
        }
        assert(x < 0 ==> x * one == -((m * one) as int)) by (nonlinear_arith)
            requires
                x < 0 ==> m == -x,
        ;
    }
}

/// The number with the exponent field `exponent` and the fraction field
/// `fraction`, times 2^23. It is at least one.
pub open spec fn normal_scaled(exponent: nat, fraction: nat) -> int {
    ((0x80_0000 + fraction) * pow2((exponent - 127) as nat)) as int
}

/// Whether `bits` is what the integer `x` is rounded to: zero is all zero bits;
/// else the highest bit is the sign, and of all numbers with the eight bits
/// below it as exponent and the rest as fraction none lies nearer to `x`, and
/// where another lies as near, the last bit is zero.
pub open spec fn rounds_to(x: int, bits: int) -> bool {
    let exponent = (bits / 0x80_0000) % 256;
    let fraction = bits % 0x80_0000;
    let size = 0x80_0000 * (if x < 0 {
        -x
    } else {
        x
    });
    let error = normal_scaled(exponent as nat, fraction as nat) - size;
    if x == 0 {
        bits == 0
    } else {
        &&& 0 <= bits < 0x1_0000_0000
        &&& bits >= 0x8000_0000 <==> x < 0
        &&& 127 <= exponent < 255
        &&& forall|e: nat, f: nat|
            #![trigger normal_scaled(e, f)]
            127 <= e < 255 && f < 0x80_0000 ==> {
                let other = normal_scaled(e, f) - size;
                let near = if error < 0 {
                    -error
                } else {
                    error
                };
                let far = if other < 0 {
                    -other
                } else {
                    other
                };
                &&& near <= far
                &&& near == far && other != error ==> bits % 2 == 0
            }
    }
}

/// The magnitude of a number that is at least one, in its scaled form.
proof fn lemma_normal_units(bits: u32)
    requires
        127 <= (bits as nat / 0x80_0000) % 256 < 255,
    ensures
        magnitude_units(bits) == normal_scaled(
            (bits as nat / 0x80_0000) % 256,
            bits as nat % 0x80_0000,
        ) * pow2(126),
{
    let e = (bits as nat / 0x80_0000) % 256;
    let f = bits as nat % 0x80_0000;
    lemma_pow2_adds((e - 127) as nat, 126);
    let p = pow2((e - 127) as nat);
    assert((0x80_0000 + f) * (p * pow2(126)) == (0x80_0000 + f) * p * pow2(126)) by (nonlinear_arith);
}

/// The pattern that an integer is sent as is what it is rounded to.
pub proof fn lemma_binary32_rounds(x: i32)
    ensures
        rounds_to(x as int, binary32_of(x as int)),
{
    let bits = binary32_of(x as int) as u32;
    if x != 0 {
        let m = magnitude(x as int);
        lemma_log2_below_32(m as u32);
        lemma_significand_range(m);
        assert(binary32_of(x as int) == bits);
        let sig = significand(m);
        let e0 = floor_log2(m);
        assert(bits as nat / 0x80_0000 % 256 == e0 + (if sig == 0x100_0000 {
            128int
        } else {
            127
        }));
        let exponent = (bits as nat / 0x80_0000) % 256;
        let fraction = bits as nat % 0x80_0000;
        let size = 0x80_0000 * m;
        let one = pow2(126);
        lemma_pow2_pos(126);
        lemma2_to64();
        lemma_pow2_adds(23, 126);
        assert(m * pow2(149) == size * one) by (nonlinear_arith)
            requires
                pow2(149) == 0x80_0000 * one,
                size == 0x80_0000 * m,
        ;
        lemma_normal_units(bits);
        lemma_binary32_of_units(x as int, bits);
        let mine = normal_scaled(exponent, fraction);
        assert forall|e: nat, f: nat|
            #![trigger normal_scaled(e, f)]
            127 <= e < 255 && f < 0x80_0000 implies {
            &&& magnitude(mine - size) <= magnitude(normal_scaled(e, f) - size)
            &&& magnitude(mine - size) == magnitude(normal_scaled(e, f) - size) && normal_scaled(
                e,
                f,
            ) != mine ==> bits % 2 == 0
        } by {
            let other = (e * 0x80_0000 + f) as u32;
            assert(other as nat / 0x80_0000 % 256 == e);
            assert(other as nat % 0x80_0000 == f);
            lemma_normal_units(other);
            lemma_magnitude_nearest(m, other);
            let theirs = normal_scaled(e, f);
            lemma_scaled(mine, 1, size, one, one);
            lemma_scaled(theirs, 1, size, one, one);
            assert(mine * 1 == mine && theirs * 1 == theirs);
            let a = magnitude(mine - size);
            let b = magnitude(theirs - size);
            lemma_scaled_order(a, b, one);
            lemma_scaled_order(b, a, one);
            assert(a * one <= b * one ==> a <= b) by (nonlinear_arith)
                requires
                    one > 0,
            ;
            if mine != theirs {
                assert(mine * one != theirs * one) by (nonlinear_arith)
                    requires
                        one > 0,
                        mine != theirs,
                ;
            }
        }
    }
}

} // verus!
