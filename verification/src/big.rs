//! Whole numbers without a bound: the products by which two scores are
//! compared exactly do not fit a machine word.

use vstd::prelude::*;
use vstd::arithmetic::power2::{pow2, lemma_pow2_adds, lemma2_to64};
use crate::fixed::power_of_two;

verus! {

/// The base of the digits: a number is held as digits of 32 bits, the
/// lowest first.
pub const BASE: u64 = 0x1_0000_0000;

/// The worth of digit `k`: `BASE^k`.
pub open spec fn place(k: nat) -> nat
    decreases k,
{
    if k == 0 {
        1
    } else {
        place((k - 1) as nat) * 0x1_0000_0000
    }
}

/// Digit `i` of a number; there are zeros beyond the digits that are held.
pub open spec fn limb(digits: Seq<u32>, i: int) -> nat {
    if 0 <= i < digits.len() {
        digits[i] as nat
    } else {
        0
    }
}

/// The number that the lowest `i` digits make.
pub open spec fn upto(digits: Seq<u32>, i: nat) -> nat
    decreases i,
{
    if i == 0 {
        0
    } else {
        upto(digits, (i - 1) as nat) + limb(digits, i - 1) * place((i - 1) as nat)
    }
}

/// The number that the digits make.
pub open spec fn value(digits: Seq<u32>) -> nat {
    upto(digits, digits.len())
}

/// The worth of a digit is positive, and each digit is worth `BASE` times
/// the one below.
pub proof fn lemma_place(k: nat)
    ensures
        place(k) >= 1,
        place(k + 1) == place(k) * 0x1_0000_0000,
    decreases k,
{
    if k > 0 {
        lemma_place((k - 1) as nat);
        assert(place((k - 1) as nat) * 0x1_0000_0000 >= 1) by (nonlinear_arith)
            requires
                place((k - 1) as nat) >= 1,
        ;
    }
}

/// The worth of digit `j + k` is the product of the worths of `j` and `k`.
pub proof fn lemma_place_adds(j: nat, k: nat)
    ensures
        place(j + k) == place(j) * place(k),
    decreases k,
{
    if k == 0 {
        assert(place(j) * 1 == place(j)) by (nonlinear_arith);
    } else {
        lemma_place_adds(j, (k - 1) as nat);
        lemma_place((j + k - 1) as nat);
        lemma_place((k - 1) as nat);
        assert(place(j) * (place((k - 1) as nat) * 0x1_0000_0000) == (place(j) * place(
            (k - 1) as nat,
        )) * 0x1_0000_0000) by (nonlinear_arith);
    }
}

/// The worth of digit `k` is `2^(32 k)`.
pub proof fn lemma_place_is_power(k: nat)
    ensures
        place(k) == pow2(32 * k),
    decreases k,
{
    lemma2_to64();
    if k > 0 {
        lemma_place_is_power((k - 1) as nat);
        lemma_pow2_adds((32 * (k - 1)) as nat, 32);
    }
}

/// Numbers whose lowest `i` digits agree make the same number of them.
pub proof fn lemma_upto_agree(a: Seq<u32>, b: Seq<u32>, i: nat)
    requires
        forall|j: int| 0 <= j < i ==> limb(a, j) == limb(b, j),
    ensures
        upto(a, i) == upto(b, i),
    decreases i,
{
    if i > 0 {
        lemma_upto_agree(a, b, (i - 1) as nat);
    }
}

/// Digits beyond those that are held add nothing.
pub proof fn lemma_upto_past(digits: Seq<u32>, i: nat)
    requires
        i >= digits.len(),
    ensures
        upto(digits, i) == value(digits),
    decreases i,
{
    if i > digits.len() {
        lemma_upto_past(digits, (i - 1) as nat);
        assert(limb(digits, i - 1) * place((i - 1) as nat) == 0) by (nonlinear_arith)
            requires
                limb(digits, i - 1) == 0,
        ;
    }
}

/// One more digit adds its worth.
pub proof fn lemma_value_push(digits: Seq<u32>, digit: u32)
    ensures
        value(digits.push(digit)) == value(digits) + digit * place(digits.len()),
{
    lemma_upto_agree(digits.push(digit), digits, digits.len());
}

/// The lowest `i` digits make less than the worth of digit `i`.
pub proof fn lemma_upto_bound(digits: Seq<u32>, i: nat)
    ensures
        upto(digits, i) < place(i),
    decreases i,
{
    if i > 0 {
        lemma_upto_bound(digits, (i - 1) as nat);
        lemma_place((i - 1) as nat);
        let p = place((i - 1) as nat);
        let d = limb(digits, i - 1);
        assert(d * p <= 0xffff_ffff * p) by (nonlinear_arith)
            requires
                d <= 0xffff_ffff,
                p >= 0,
        ;
    }
}

/// Numbers whose digits from `i` up to `n` agree differ by what their
/// lowest `i` digits make.
pub proof fn lemma_high_agree(a: Seq<u32>, b: Seq<u32>, i: nat, n: nat)
    requires
        i <= n,
        forall|j: int| i <= j < n ==> limb(a, j) == limb(b, j),
    ensures
        upto(a, n) - upto(a, i) == upto(b, n) - upto(b, i),
    decreases n,
{
    if i < n {
        lemma_high_agree(a, b, i, (n - 1) as nat);
    }
}

/// The digits of a machine number.
pub fn from_u128(m: u128) -> (r: Vec<u32>)
    ensures
        value(r@) == m,
{
    let mut out: Vec<u32> = Vec::new();
    let mut rest: u128 = m;
    proof {
        assert(rest * place(0) == rest) by (nonlinear_arith)
            requires
                place(0) == 1,
        ;
    }
    while rest > 0
        invariant
            value(out@) + rest * place(out@.len()) == m,
        decreases rest,
    {
        let low: u128 = rest % 0x1_0000_0000;
        let high: u128 = rest / 0x1_0000_0000;
        proof {
            lemma_value_push(out@, low as u32);
            lemma_place(out@.len());
            let p = place(out@.len());
            assert(low * p + high * (p * 0x1_0000_0000) == rest * p) by (nonlinear_arith)
                requires
                    rest == high * 0x1_0000_0000 + low,
            ;
        }
        out.push(low as u32);
        rest = high;
    }
    proof {
        assert(rest * place(out@.len()) == 0) by (nonlinear_arith)
            requires
                rest == 0,
        ;
    }
    out
}

/// The product of a number and a digit.
pub fn product_with_digit(x: &Vec<u32>, m: u32) -> (r: Vec<u32>)
    ensures
        value(r@) == value(x@) * m,
{
    let mut out: Vec<u32> = Vec::new();
    let mut carry: u64 = 0;
    let mut i: usize = 0;
    proof {
        assert(0 * m == 0) by (nonlinear_arith);
        assert(carry * place(0) == 0) by (nonlinear_arith)
            requires
                carry == 0,
        ;
    }
    while i < x.len()
        invariant
            i <= x@.len(),
            out@.len() == i,
            carry < 0x1_0000_0000,
            value(out@) + carry * place(i as nat) == upto(x@, i as nat) * m,
        decreases x@.len() - i,
    {
        let d: u32 = x[i];
        proof {
            assert(d as int * m as int <= 0xffff_ffff * 0xffff_ffff) by (nonlinear_arith)
                requires
                    0 <= d <= 0xffff_ffff,
                    0 <= m <= 0xffff_ffff,
            ;
            assert(d as int * m as int >= 0) by (nonlinear_arith)
                requires
                    0 <= d,
                    0 <= m,
            ;
        }
        let t: u64 = d as u64 * m as u64 + carry;
        let low: u64 = t % BASE;
        let high: u64 = t / BASE;
        proof {
            lemma_value_push(out@, low as u32);
            lemma_place(i as nat);
            let p = place(i as nat);
            let before = value(out@);
            let part = upto(x@, i as nat);
            assert(before + low * p + high * (p * 0x1_0000_0000) == (part + d * p) * m)
                by (nonlinear_arith)
                requires
                    before + carry * p == part * m,
                    d * m + carry == high * 0x1_0000_0000 + low,
            ;
            assert(limb(x@, i as int) == d);
        }
        out.push(low as u32);
        carry = high;
        i = i + 1;
    }
    proof {
        lemma_value_push(out@, carry as u32);
    }
    out.push(carry as u32);
    out
}

/// The sum of two numbers.
pub fn sum(x: &Vec<u32>, y: &Vec<u32>) -> (r: Vec<u32>)
    ensures
        value(r@) == value(x@) + value(y@),
{
    let n: usize = if x.len() >= y.len() {
        x.len()
    } else {
        y.len()
    };
    let mut out: Vec<u32> = Vec::new();
    let mut carry: u64 = 0;
    let mut i: usize = 0;
    proof {
        assert(carry * place(0) == 0) by (nonlinear_arith)
            requires
                carry == 0,
        ;
    }
    while i < n
        invariant
            i <= n,
            n >= x@.len(),
            n >= y@.len(),
            out@.len() == i,
            carry <= 1,
            value(out@) + carry * place(i as nat) == upto(x@, i as nat) + upto(y@, i as nat),
        decreases n - i,
    {
        let a: u64 = if i < x.len() {
            x[i] as u64
        } else {
            0
        };
        let b: u64 = if i < y.len() {
            y[i] as u64
        } else {
            0
        };
        let t: u64 = a + b + carry;
        let low: u64 = t % BASE;
        let high: u64 = t / BASE;
        proof {
            lemma_value_push(out@, low as u32);
            lemma_place(i as nat);
            let p = place(i as nat);
            let before = value(out@);
            let px = upto(x@, i as nat);
            let py = upto(y@, i as nat);
            assert(a == limb(x@, i as int) && b == limb(y@, i as int));
            assert(before + low * p + high * (p * 0x1_0000_0000) == (px + a * p) + (py + b * p))
                by (nonlinear_arith)
                requires
                    before + carry * p == px + py,
                    a + b + carry == high * 0x1_0000_0000 + low,
            ;
        }
        out.push(low as u32);
        carry = high;
        i = i + 1;
    }
    proof {
        lemma_value_push(out@, carry as u32);
        lemma_upto_past(x@, n as nat);
        lemma_upto_past(y@, n as nat);
    }
    out.push(carry as u32);
    out
}

/// A number moved up by `k` digits: its product with the worth of digit
/// `k`.
pub fn shift_up(x: &Vec<u32>, k: usize) -> (r: Vec<u32>)
    ensures
        value(r@) == value(x@) * place(k as nat),
{
    let mut out: Vec<u32> = Vec::new();
    let mut j: usize = 0;
    while j < k
        invariant
            j <= k,
            out@.len() == j,
            value(out@) == 0,
        decreases k - j,
    {
        proof {
            lemma_value_push(out@, 0);
            assert(0 * place(j as nat) == 0) by (nonlinear_arith);
        }
        out.push(0);
        j = j + 1;
    }
    let mut i: usize = 0;
    proof {
        assert(0 * place(k as nat) == 0) by (nonlinear_arith);
    }
    while i < x.len()
        invariant
            i <= x@.len(),
            out@.len() == k + i,
            value(out@) == upto(x@, i as nat) * place(k as nat),
        decreases x@.len() - i,
    {
        let d: u32 = x[i];
        proof {
            lemma_value_push(out@, d);
            lemma_place_adds(k as nat, i as nat);
            let pk = place(k as nat);
            let pi = place(i as nat);
            let part = upto(x@, i as nat);
            assert(limb(x@, i as int) == d);
            assert(part * pk + d * (pk * pi) == (part + d * pi) * pk) by (nonlinear_arith);
        }
        out.push(d);
        i = i + 1;
    }
    out
}

/// The product of two numbers.
pub fn product(x: &Vec<u32>, y: &Vec<u32>) -> (r: Vec<u32>)
    ensures
        value(r@) == value(x@) * value(y@),
{
    let mut acc: Vec<u32> = Vec::new();
    let mut j: usize = 0;
    proof {
        assert(value(x@) * 0 == 0) by (nonlinear_arith);
    }
    while j < y.len()
        invariant
            j <= y@.len(),
            value(acc@) == value(x@) * upto(y@, j as nat),
        decreases y@.len() - j,
    {
        let part = product_with_digit(x, y[j]);
        let moved = shift_up(&part, j);
        proof {
            let vx = value(x@);
            let d = y@[j as int];
            let p = place(j as nat);
            let low = upto(y@, j as nat);
            assert(limb(y@, j as int) == d);
            assert(vx * low + (vx * d) * p == vx * (low + d * p)) by (nonlinear_arith);
        }
        acc = sum(&acc, &moved);
        j = j + 1;
    }
    acc
}

/// Whether one number is less than another.
pub fn less(x: &Vec<u32>, y: &Vec<u32>) -> (r: bool)
    ensures
        r == (value(x@) < value(y@)),
{
    let n: usize = if x.len() >= y.len() {
        x.len()
    } else {
        y.len()
    };
    proof {
        lemma_upto_past(x@, n as nat);
        lemma_upto_past(y@, n as nat);
    }
    let mut i: usize = n;
    while i > 0
        invariant
            i <= n,
            n >= x@.len(),
            n >= y@.len(),
            upto(x@, n as nat) == value(x@),
            upto(y@, n as nat) == value(y@),
            forall|j: int| i <= j < n ==> limb(x@, j) == limb(y@, j),
        decreases i,
    {
        let a: u32 = if i - 1 < x.len() {
            x[i - 1]
        } else {
            0
        };
        let b: u32 = if i - 1 < y.len() {
            y[i - 1]
        } else {
            0
        };
        if a != b {
            proof {
                lemma_high_agree(x@, y@, i as nat, n as nat);
                lemma_upto_bound(x@, (i - 1) as nat);
                lemma_upto_bound(y@, (i - 1) as nat);
                let p = place((i - 1) as nat);
                assert(a == limb(x@, i - 1) && b == limb(y@, i - 1));
                if a < b {
                    assert(p + a * p <= b * p) by (nonlinear_arith)
                        requires
                            a + 1 <= b,
                            p >= 0,
                    ;
                } else {
                    assert(p + b * p <= a * p) by (nonlinear_arith)
                        requires
                            b + 1 <= a,
                            p >= 0,
                    ;
                }
            }
            return a < b;
        }
        i = i - 1;
    }
    proof {
        lemma_high_agree(x@, y@, 0, n as nat);
    }
    false
}

/// The digits of `m * 2^k`.
pub fn scaled(m: u128, k: u32) -> (r: Vec<u32>)
    ensures
        value(r@) == m * pow2(k as nat),
{
    let whole: u32 = k / 32;
    let part: u32 = k % 32;
    let factor: u128 = power_of_two(part);
    proof {
        lemma2_to64();
        if part < 31 {
            vstd::arithmetic::power2::lemma_pow2_strictly_increases(part as nat, 31);
        }
        lemma_place_is_power(whole as nat);
        lemma_pow2_adds((32 * whole) as nat, part as nat);
        assert(m * (pow2(part as nat) * pow2((32 * whole) as nat)) == (m * pow2(part as nat)) * pow2(
            (32 * whole) as nat,
        )) by (nonlinear_arith);
        assert(pow2((32 * whole) as nat) * pow2(part as nat) == pow2(part as nat) * pow2(
            (32 * whole) as nat,
        )) by (nonlinear_arith);
    }
    let digits = from_u128(m);
    let grown = product_with_digit(&digits, factor as u32);
    shift_up(&grown, whole as usize)
}

} // verus!
