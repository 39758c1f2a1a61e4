//! Fractions without floating point.
//!
//! Scores, coverage and the boost weight reach this library as the bit
//! patterns of IEEE 754 binary32 numbers. A pattern is decoded here into
//! its significand and its scale, which give the number exactly. For the
//! blending of colours, the coverage of a pixel also becomes a count of
//! units of 2^-32, rounded down.

use vstd::prelude::*;
use vstd::arithmetic::power2::{pow2, lemma_pow2_unfold, lemma_pow2_pos, lemma_pow2_adds, lemma_pow2_strictly_increases, lemma2_to64, lemma2_to64_rest};
use vstd::arithmetic::div_mod::{lemma_basic_div, lemma_div_by_multiple, lemma_div_is_ordered, lemma_div_multiples_vanish_quotient, lemma_div_nonincreasing};
use vstd::arithmetic::mul::lemma_mul_inequality;

verus! {

/// The number of units in one whole: fractions are counted in units of 2^-32.
pub const UNIT: u64 = 0x1_0000_0000;

/// The bit pattern of the binary32 number 1.0.
pub const ONE_BITS: u32 = 0x3f80_0000;

/// The bit pattern of binary32 positive infinity; every finite positive
/// number has a smaller pattern.
pub const INFINITY_BITS: u32 = 0x7f80_0000;

/// The exponent field of a binary32 bit pattern.
pub open spec fn exponent_field(bits: u32) -> nat {
    (bits as nat / 0x80_0000) % 0x100
}

/// The integer significand of a binary32 bit pattern: the fraction field,
/// with the implicit leading one unless the number is subnormal.
pub open spec fn significand(bits: u32) -> nat {
    if exponent_field(bits) == 0 {
        bits as nat % 0x80_0000
    } else {
        bits as nat % 0x80_0000 + 0x80_0000
    }
}

/// The power of two by which the significand is scaled. A pattern below
/// `INFINITY_BITS` denotes the number `significand * 2^(scale - 149)`.
pub open spec fn scale(bits: u32) -> nat {
    if exponent_field(bits) == 0 {
        0
    } else {
        (exponent_field(bits) - 1) as nat
    }
}

/// The binary32 number with pattern `bits`, cut to the range from 0 to 1 and
/// counted in units of 2^-32, rounded down. Negative numbers and patterns
/// that are not a number count as 0.
pub open spec fn unit_fraction(bits: u32) -> nat {
    if bits >= 0x8000_0000 || bits > INFINITY_BITS {
        0
    } else if bits >= ONE_BITS {
        UNIT as nat
    } else if scale(bits) >= 117 {
        significand(bits) * pow2((scale(bits) - 117) as nat)
    } else {
        significand(bits) / pow2((117 - scale(bits)) as nat)
    }
}

/// The part of `whole`, a number below 2^16, that the fraction `units / UNIT`
/// of it makes, rounded down; `halved` takes half of `whole` first, exactly.
pub open spec fn scaled(whole: u16, halved: bool, units: nat) -> nat {
    if halved {
        whole as nat * units / (2 * UNIT as nat)
    } else {
        whole as nat * units / (UNIT as nat)
    }
}

/// `2^k` as a machine integer, for `k` below 128.
pub fn power_of_two(k: u32) -> (r: u128)
    requires
        k < 128,
    ensures
        r == pow2(k as nat),
        r >= 1,
{
    let mut r: u128 = 1;
    let mut i: u32 = 0;
    proof {
        lemma2_to64();
    }
    while i < k
        invariant
            i <= k < 128,
            r == pow2(i as nat),
            r >= 1,
        decreases k - i,
    {
        proof {
            lemma_pow2_unfold((i + 1) as nat);
            if i + 1 < 127 {
                lemma_pow2_strictly_increases((i + 1) as nat, 127);
            }
            lemma2_to64_rest();
            lemma_pow2_adds(64, 63);
        }
        r = r * 2;
        i = i + 1;
    }
    r
}

/// Decodes a bit pattern without sign into its significand and its scale.
pub(crate) fn fields(bits: u32) -> (r: (u32, u32))
    requires
        bits < 0x8000_0000,
    ensures
        r.0 == significand(bits),
        r.1 == scale(bits),
        r.0 < 0x100_0000,
        r.1 <= 254,
        bits < INFINITY_BITS ==> r.1 <= 253,
        bits < ONE_BITS ==> r.1 <= 125,
        bits > 0 && bits < INFINITY_BITS ==> r.0 > 0,
{
    let exponent: u32 = bits / 0x80_0000;
    let fraction: u32 = bits % 0x80_0000;
    if exponent == 0 {
        (fraction, 0)
    } else {
        (fraction + 0x80_0000, exponent - 1)
    }
}

/// Decodes a bit pattern into the fraction it denotes, in units of 2^-32.
pub fn to_unit_fraction(bits: u32) -> (r: u64)
    ensures
        r == unit_fraction(bits),
        r <= UNIT,
{
    if bits >= 0x8000_0000 || bits > INFINITY_BITS {
        return 0;
    }
    if bits >= ONE_BITS {
        return UNIT;
    }
    let (m, s) = fields(bits);
    if s >= 117 {
        let p: u128 = power_of_two(s - 117);
        proof {
            lemma2_to64();
            assert(p <= 0x100) by {
                if s - 117 < 8 {
                    lemma_pow2_strictly_increases((s - 117) as nat, 8);
                }
            }
            assert(m as int * p as int <= 0xff_ffff * 0x100) by (nonlinear_arith)
                requires
                    0 <= m <= 0xff_ffff,
                    0 <= p <= 0x100,
            ;
            lemma_normal_below_one(bits);
        }
        let r: u128 = m as u128 * p;
        r as u64
    } else if 117 - s >= 24 {
        proof {
            if 117 - s > 24 {
                lemma_pow2_strictly_increases(24, (117 - s) as nat);
            }
            lemma2_to64();
            lemma_pow2_pos((117 - s) as nat);
            lemma_basic_div(m as int, pow2((117 - s) as nat) as int);
        }
        0
    } else {
        let p: u128 = power_of_two(117 - s);
        proof {
            lemma_pow2_pos((117 - s) as nat);
        }
        let r: u128 = m as u128 / p;
        r as u64
    }
}

/// No fraction exceeds one whole.
pub proof fn lemma_unit_fraction_bound(bits: u32)
    ensures
        unit_fraction(bits) <= UNIT,
{
    if bits >= 0x8000_0000 || bits > INFINITY_BITS {
    } else if bits >= ONE_BITS {
    } else if scale(bits) >= 117 {
        lemma_normal_below_one(bits);
    } else {
        let p = pow2((117 - scale(bits)) as nat);
        lemma_pow2_pos((117 - scale(bits)) as nat);
        lemma_div_nonincreasing(significand(bits) as int, p as int);
    }
}

/// The magnitude of a bit pattern below `INFINITY_BITS`: the number it
/// denotes, times 2^149.
pub open spec fn magnitude(bits: u32) -> nat {
    significand(bits) * pow2(scale(bits))
}

/// A fraction below one whole is its magnitude over 2^117, rounded down.
proof fn lemma_fraction_of_magnitude(bits: u32)
    requires
        bits < ONE_BITS,
    ensures
        unit_fraction(bits) == magnitude(bits) / pow2(117),
{
    let m = significand(bits) as int;
    let s = scale(bits);
    lemma_pow2_pos(117);
    lemma_pow2_pos(s);
    if s >= 117 {
        let high = pow2((s - 117) as nat) as int;
        lemma_pow2_adds((s - 117) as nat, 117);
        lemma_pow2_pos((s - 117) as nat);
        assert(m * pow2(s) as int == (m * high) * pow2(117) as int) by (nonlinear_arith)
            requires
                pow2(s) as int == high * pow2(117) as int,
        ;
        assert(m * high >= 0) by (nonlinear_arith)
            requires
                m >= 0,
                high >= 0,
        ;
        lemma_div_by_multiple(m * high, pow2(117) as int);
    } else {
        let low = pow2((117 - s) as nat) as int;
        lemma_pow2_adds(s, (117 - s) as nat);
        lemma_pow2_pos((117 - s) as nat);
        lemma_div_multiples_vanish_quotient(pow2(s) as int, m, low);
        assert(pow2(s) as int * m == m * pow2(s) as int) by (nonlinear_arith);
    }
}

/// Of two bit patterns without sign, the greater has the greater
/// magnitude.
pub proof fn lemma_magnitude_monotone(less: u32, more: u32)
    requires
        less <= more < 0x8000_0000,
    ensures
        magnitude(less) <= magnitude(more),
        less < more ==> magnitude(less) < magnitude(more),
{
    let e1 = exponent_field(less);
    let e2 = exponent_field(more);
    let m1 = significand(less) as int;
    let m2 = significand(more) as int;
    let s1 = scale(less);
    let s2 = scale(more);
    lemma_pow2_pos(s1);
    lemma_pow2_pos(s2);
    lemma2_to64();
    assert(e1 <= e2);
    if e1 == e2 {
        lemma_mul_inequality(m1, m2, pow2(s1) as int);
        if less < more {
            assert((m1 * pow2(s1) as int) < m2 * pow2(s1) as int) by (nonlinear_arith)
                requires
                    m1 < m2,
                    pow2(s1) >= 1,
            ;
        }
    } else {
        assert(m2 >= 0x80_0000);
        assert(m2 * pow2(s2) as int >= 0x80_0000 * pow2(s2) as int) by (nonlinear_arith)
            requires
                m2 >= 0x80_0000,
                pow2(s2) >= 1,
        ;
        if e1 == 0 {
            assert(pow2(0) == 1);
            assert(m1 * pow2(s1) as int == m1) by (nonlinear_arith)
                requires
                    pow2(s1) == 1,
            ;
            assert(0x80_0000 * pow2(s2) as int >= 0x80_0000) by (nonlinear_arith)
                requires
                    pow2(s2) >= 1,
            ;
        } else {
            assert(s1 + 1 <= s2);
            if s1 + 1 < s2 {
                lemma_pow2_strictly_increases(s1 + 1, s2);
            }
            lemma_pow2_unfold(s1 + 1);
            assert((m1 * pow2(s1) as int) < 0x100_0000 * pow2(s1) as int) by (nonlinear_arith)
                requires
                    m1 < 0x100_0000,
                    pow2(s1) >= 1,
            ;
            assert(0x100_0000 * pow2(s1) as int == 0x80_0000 * (2 * pow2(s1) as int))
                by (nonlinear_arith);
            assert(0x80_0000 * pow2(s1 + 1) as int <= 0x80_0000 * pow2(s2) as int)
                by (nonlinear_arith)
                requires
                    pow2(s1 + 1) <= pow2(s2),
            ;
        }
    }
}

/// The fraction grows with the number: of two bit patterns of numbers that
/// are not negative, the greater gives the greater fraction.
pub proof fn lemma_unit_fraction_monotone(less: u32, more: u32)
    requires
        less <= more <= INFINITY_BITS,
    ensures
        unit_fraction(less) <= unit_fraction(more),
{
    lemma_unit_fraction_bound(less);
    if more < ONE_BITS {
        lemma_fraction_of_magnitude(less);
        lemma_fraction_of_magnitude(more);
        lemma_magnitude_monotone(less, more);
        lemma_pow2_pos(117);
        lemma_div_is_ordered(magnitude(less) as int, magnitude(more) as int, pow2(117) as int);
    }
}

/// A pattern below that of 1.0 denotes less than one whole.
proof fn lemma_normal_below_one(bits: u32)
    requires
        bits < ONE_BITS,
        scale(bits) >= 117,
    ensures
        significand(bits) * pow2((scale(bits) - 117) as nat) < UNIT,
{
    let s = scale(bits);
    let m = significand(bits);
    lemma2_to64();
    if s < 125 {
        lemma_pow2_strictly_increases((s - 117) as nat, 8);
    }
    assert(pow2((s - 117) as nat) <= 0x100);
    assert(m * pow2((s - 117) as nat) < 0x100_0000 * 0x100) by (nonlinear_arith)
        requires
            m < 0x100_0000,
            pow2((s - 117) as nat) <= 0x100,
    ;
}

} // verus!
