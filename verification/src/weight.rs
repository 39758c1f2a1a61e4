//! The weight of a literal match, and the boost it gives.

use vstd::prelude::*;
use vstd::arithmetic::power2::{pow2, lemma_pow2_pos, lemma_pow2_adds, lemma_pow2_strictly_increases, lemma2_to64, lemma2_to64_rest};
use crate::big::{from_u128, scaled, sum, value};
use crate::fixed::{INFINITY_BITS, significand, scale, power_of_two, fields};

verus! {

/// The denominator of the boost for a literal match that starts `start`
/// bytes into a candidate, under the weight `num / 2^halvings`. The boost
/// is `weight / (start + weight)`, which is `num` over this denominator.
pub open spec fn boost_denominator(start: nat, num: nat, halvings: nat) -> nat {
    start * pow2(halvings) + num
}

/// The weight that a binary32 bit pattern denotes, as its numerator and the
/// exponent of the power of two under it. Only a positive finite number is
/// a weight.
pub open spec fn decoded_weight(bits: u32) -> Option<(nat, nat)> {
    if bits == 0 || bits >= INFINITY_BITS {
        None
    } else if scale(bits) >= 149 {
        Some((significand(bits) * pow2((scale(bits) - 149) as nat), 0nat))
    } else {
        Some((significand(bits), (149 - scale(bits)) as nat))
    }
}

/// A positive weight, held exactly as a numerator over a power of two.
#[derive(Clone, Copy, Debug)]
pub struct Weight {
    num: u128,
    shift: u32,
}

impl Weight {
    #[verifier::type_invariant]
    spec fn well_formed(self) -> bool {
        &&& self.num > 0
        &&& self.shift <= 149
        &&& self.shift > 0 ==> self.num < 0x100_0000
    }

    /// The numerator of the weight.
    pub closed spec fn numerator(self) -> nat {
        self.num as nat
    }

    /// The exponent of the power of two under the numerator.
    pub closed spec fn halvings(self) -> nat {
        self.shift as nat
    }

    /// Every weight that a constructor returns is valid: its numerator is
    /// positive.
    pub closed spec fn valid(self) -> bool {
        self.well_formed()
    }

    /// The denominator of the boost that this weight gives to a literal
    /// match at `start`: the boost is `numerator() / denominator_at(start)`,
    /// exactly.
    pub open spec fn denominator_at(self, start: nat) -> nat {
        boost_denominator(start, self.numerator(), self.halvings())
    }

    /// The usual weight: 5.
    pub fn usual() -> (r: Weight)
        ensures
            r.valid(),
            r.numerator() == 5,
            r.halvings() == 0,
    {
        Weight { num: 5, shift: 0 }
    }

    /// The weight `n`, a whole number. There is no weight 0.
    pub fn whole(n: u64) -> (r: Option<Weight>)
        ensures
            r is Some <==> n > 0,
            r matches Some(w) ==> w.valid() && w.numerator() == n && w.halvings() == 0,
    {
        if n == 0 {
            None
        } else {
            Some(Weight { num: n as u128, shift: 0 })
        }
    }

    /// The weight that the binary32 number with pattern `bits` denotes,
    /// exactly. Only a positive finite number is a weight.
    pub fn from_bits(bits: u32) -> (r: Option<Weight>)
        ensures
            r is Some <==> 0 < bits < INFINITY_BITS,
            r is Some <==> decoded_weight(bits) is Some,
            r matches Some(w) ==> w.valid() && decoded_weight(bits) == Some(
                (w.numerator(), w.halvings()),
            ),
    {
        if bits == 0 || bits >= INFINITY_BITS {
            return None;
        }
        let (m, s) = fields(bits);
        if s >= 149 {
            let p: u128 = power_of_two(s - 149);
            proof {
                lemma2_to64();
                lemma2_to64_rest();
                lemma_pow2_adds(64, 40);
                if s - 149 < 104 {
                    lemma_pow2_strictly_increases((s - 149) as nat, 104);
                }
                assert(p <= 0x100_0000_0000_0000_0000_0000_0000);
                assert(m as int * p as int <= 0xff_ffff * 0x100_0000_0000_0000_0000_0000_0000)
                    by (nonlinear_arith)
                    requires
                        0 <= m <= 0xff_ffff,
                        0 <= p <= 0x100_0000_0000_0000_0000_0000_0000,
                ;
                assert(m as int * p as int >= 1) by (nonlinear_arith)
                    requires
                        m >= 1,
                        p >= 1,
                ;
            }
            Some(Weight { num: m as u128 * p, shift: 0 })
        } else {
            Some(Weight { num: m as u128, shift: 149 - s })
        }
    }

    /// Numerator and halvings of the weight.
    pub fn parts(&self) -> (r: (u128, u32))
        ensures
            r.0 == self.numerator(),
            r.1 == self.halvings(),
            self.valid(),
    {
        proof {
            use_type_invariant(self);
        }
        (self.num, self.shift)
    }

    /// The numerator of the weight, digit by digit.
    pub fn numerator_digits(&self) -> (r: Vec<u32>)
        ensures
            value(r@) == self.numerator(),
            self.valid(),
    {
        proof {
            use_type_invariant(self);
        }
        from_u128(self.num)
    }

    /// The denominator of the boost for a literal match that starts at
    /// byte `start`, digit by digit.
    pub fn denominator(&self, start: usize) -> (r: Vec<u32>)
        ensures
            value(r@) == self.denominator_at(start as nat),
            self.valid(),
    {
        proof {
            use_type_invariant(self);
        }
        let moved = scaled(start as u128, self.shift);
        let num = from_u128(self.num);
        sum(&moved, &num)
    }
}

/// The boost lies above 0 and is at most one whole: the numerator is
/// positive and at most the denominator. The boost is one whole exactly
/// where the match starts the candidate.
pub proof fn lemma_boost_range(weight: Weight, start: nat)
    requires
        weight.valid(),
    ensures
        0 < weight.numerator() <= weight.denominator_at(start),
        weight.numerator() == weight.denominator_at(start) <==> start == 0,
{
    lemma_pow2_pos(weight.halvings());
    let p = pow2(weight.halvings()) as int;
    if start == 0 {
        assert(start as int * p == 0) by (nonlinear_arith)
            requires
                start == 0,
        ;
    } else {
        assert(start as int * p >= 1) by (nonlinear_arith)
            requires
                start >= 1,
                p >= 1,
        ;
    }
}

/// The boost decreases with the offset of the match: a later match has the
/// greater denominator under the same numerator.
pub proof fn lemma_boost_monotone(weight: Weight, earlier: nat, later: nat)
    requires
        weight.valid(),
        earlier < later,
    ensures
        weight.denominator_at(earlier) < weight.denominator_at(later),
{
    lemma_pow2_pos(weight.halvings());
    let p = pow2(weight.halvings()) as int;
    assert(earlier as int * p < later as int * p) by (nonlinear_arith)
        requires
            earlier < later,
            p >= 1,
    ;
}

} // verus!
