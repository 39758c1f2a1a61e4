//! The ranking engine: every candidate gets its fuzzy similarity to the
//! query and a boost for holding the query literally; the candidates are
//! ordered by the sum, compared exactly, and the best come back.

use vstd::prelude::*;
use vstd::arithmetic::power2::{pow2, lemma_pow2_pos};
use vstd::utf8::encode_utf8;
use crate::big::{from_u128, less, product, scaled, sum, value};
use crate::fixed::{fields, lemma_magnitude_monotone, magnitude, INFINITY_BITS, ONE_BITS};
use crate::matching::{find, first_match};
use crate::order::{
    indices, is_ranking, lemma_rank_order, lemma_ranked_prefix, lemma_ranking_distinct,
    lemma_slot_is, rank_order, ranked_prefix,
};
use crate::weight::{lemma_boost_range, Weight};

verus! {

/// The most matches that a search returns.
pub const LIMIT: usize = 20;

/// A candidate with its fuzzy similarity to the query, as the bit pattern of
/// a binary32 number between 0 and 1.
#[derive(Debug)]
pub struct Scored {
    pub name: String,
    pub score: u32,
}

impl DeepView for Scored {
    type V = (Seq<char>, u32);

    open spec fn deep_view(&self) -> (Seq<char>, u32) {
        (self.name@, self.score)
    }
}

/// The similarity of `candidate` to `query` that
/// `rust_fuzzy_search::fuzzy_compare` computes from their trigrams, as the
/// bit pattern of the binary32 number.
pub uninterp spec fn fuzzy_score(query: Seq<char>, candidate: Seq<char>) -> u32;

/// Every candidate with its fuzzy score, in the order in which the
/// candidates were given.
pub open spec fn scored_all(query: Seq<char>, candidates: Seq<Seq<char>>) -> Seq<(Seq<char>, u32)> {
    Seq::new(candidates.len(), |i: int| (candidates[i], fuzzy_score(query, candidates[i])))
}

/// A fuzzy score times 2^149, which is a whole number: the binary32 number
/// with pattern `bits`, cut to the range from 0 to 1. Negative numbers and
/// patterns that are not a number count as 0.
pub open spec fn base_numerator(bits: u32) -> nat {
    if bits >= 0x8000_0000 || bits > INFINITY_BITS {
        0
    } else if bits >= ONE_BITS {
        pow2(149)
    } else {
        magnitude(bits)
    }
}

/// The score of a candidate as a fraction: the pair `(n, d)` stands for the
/// number `n / (d * 2^149)`. It is the fuzzy score where the candidate does
/// not hold the query, and the fuzzy score plus the boost
/// `weight / (start + weight)` where the query first occurs in it at byte
/// `start`. Nothing is rounded.
pub open spec fn score_of(query: Seq<char>, item: (Seq<char>, u32), weight: Weight) -> (nat, nat) {
    match first_match(encode_utf8(item.0), encode_utf8(query)) {
        Some(start) => {
            let d = weight.denominator_at(start as nat);
            (base_numerator(item.1) * d + weight.numerator() * pow2(149), d)
        },
        None => (base_numerator(item.1), 1),
    }
}

/// Whether the score `a` is less than the score `b`.
pub open spec fn score_less(a: (nat, nat), b: (nat, nat)) -> bool {
    a.0 * b.1 < b.0 * a.1
}

/// The scores of all scored candidates.
pub open spec fn scores(query: Seq<char>, scored: Seq<(Seq<char>, u32)>, weight: Weight) -> Seq<
    (nat, nat),
> {
    Seq::new(scored.len(), |k: int| score_of(query, scored[k], weight))
}

/// How many of the first `m` scores are less than score `i`.
pub open spec fn count_below(all: Seq<(nat, nat)>, i: int, m: nat) -> nat
    decreases m,
{
    if m == 0 || m > all.len() {
        0
    } else {
        count_below(all, i, (m - 1) as nat) + if score_less(all[m - 1], all[i]) {
            1nat
        } else {
            0nat
        }
    }
}

/// The key by which each scored candidate is ranked: the number of
/// candidates that score less. A greater score has the greater key, and
/// equal scores have equal keys.
pub open spec fn boosted_keys(query: Seq<char>, scored: Seq<(Seq<char>, u32)>, weight: Weight) -> Seq<
    u64,
> {
    let all = scores(query, scored, weight);
    Seq::new(scored.len(), |k: int| count_below(all, k, all.len()) as u64)
}

/// The names of the scored candidates by descending score; candidates with
/// equal scores keep the order in which they were given.
pub open spec fn ranked(query: Seq<char>, scored: Seq<(Seq<char>, u32)>, weight: Weight) -> Seq<
    Seq<char>,
> {
    let order = rank_order(boosted_keys(query, scored, weight));
    Seq::new(scored.len(), |k: int| scored[order[k]].0)
}

/// The order in which a search ranks the candidates: their indices, best
/// first.
pub open spec fn search_order(query: Seq<char>, candidates: Seq<Seq<char>>, weight: Weight) -> Seq<
    int,
> {
    rank_order(boosted_keys(query, scored_all(query, candidates), weight))
}

/// What a search returns: nothing for an empty query, else the first
/// `LIMIT` of all candidates ranked by score.
pub open spec fn searched(query: Seq<char>, candidates: Seq<Seq<char>>, weight: Weight) -> Seq<
    Seq<char>,
> {
    if query.len() == 0 {
        Seq::empty()
    } else {
        let all = ranked(query, scored_all(query, candidates), weight);
        Seq::new(
            if all.len() <= LIMIT {
                all.len()
            } else {
                LIMIT as nat
            },
            |k: int| all[k],
        )
    }
}

/// Calls `rust_fuzzy_search::fuzzy_search`, which scores every candidate
/// with `fuzzy_compare` and returns the pairs in the order of the
/// candidates. Each score is handed on as the bit pattern of the binary32
/// number; `fuzzy_compare` crops it to the range from 0 to 1.
#[verifier::external_body]
fn fuzzy_scores(query: &str, candidates: &Vec<String>) -> (r: Vec<Scored>)
    ensures
        r.deep_view() == scored_all(query@, candidates.deep_view()),
        forall|k: int|
            0 <= k < r@.len() ==> (#[trigger] r@[k]).score == fuzzy_score(query@, r@[k].name@)
                && r@[k].score <= ONE_BITS,
{
    let list: Vec<&str> = candidates.iter().map(String::as_str).collect();
    rust_fuzzy_search::fuzzy_search(query, &list).into_iter().map(
        |(name, score)| Scored { name: name.to_string(), score: score.to_bits() },
    ).collect()
}

/// A fuzzy score times 2^149, digit by digit.
fn base_digits(bits: u32) -> (r: Vec<u32>)
    ensures
        value(r@) == base_numerator(bits),
{
    if bits >= 0x8000_0000 || bits > INFINITY_BITS {
        from_u128(0)
    } else if bits >= ONE_BITS {
        proof {
            assert(1 * pow2(149) == pow2(149)) by (nonlinear_arith);
        }
        scaled(1, 149)
    } else {
        let (m, s) = fields(bits);
        scaled(m as u128, s)
    }
}

/// The score of a candidate, numerator and denominator digit by digit.
fn score_digits(query: &str, item: &Scored, weight: &Weight) -> (r: (Vec<u32>, Vec<u32>))
    ensures
        (value(r.0@), value(r.1@)) == score_of(query@, item.deep_view(), *weight),
        value(r.1@) > 0,
        weight.valid(),
{
    let base = base_digits(item.score);
    let n: u128 = weight.parts().0;
    match find(item.name.as_str().as_bytes(), query.as_bytes()) {
        Some(start) => {
            let d = weight.denominator(start);
            proof {
                lemma_boost_range(*weight, start as nat);
            }
            let numerator = sum(&product(&base, &d), &scaled(n, 149));
            (numerator, d)
        },
        None => (base, from_u128(1)),
    }
}

/// Compares the scores of two candidates exactly.
fn scores_less(numerators: &Vec<Vec<u32>>, denominators: &Vec<Vec<u32>>, x: usize, y: usize) -> (r:
    bool)
    requires
        x < numerators@.len(),
        y < numerators@.len(),
        numerators@.len() == denominators@.len(),
    ensures
        r == score_less(
            (value(numerators@[x as int]@), value(denominators@[x as int]@)),
            (value(numerators@[y as int]@), value(denominators@[y as int]@)),
        ),
{
    less(&product(&numerators[x], &denominators[y]), &product(&numerators[y], &denominators[x]))
}

/// Ranks scored candidates: each gets its boost for holding `query`
/// literally, and the names come back by descending score, compared
/// exactly; candidates with equal scores keep their order.
pub fn rank_scored(query: &str, scored: &Vec<Scored>, weight: &Weight) -> (r: Vec<String>)
    ensures
        r.deep_view() == ranked(query@, scored.deep_view(), *weight),
        r@.len() == scored@.len(),
{
    let n: usize = scored.len();
    let parts = weight.parts();
    let ghost all = scores(query@, scored.deep_view(), *weight);
    let mut numerators: Vec<Vec<u32>> = Vec::new();
    let mut denominators: Vec<Vec<u32>> = Vec::new();
    let mut k: usize = 0;
    while k < n
        invariant
            k <= n,
            n == scored@.len(),
            all == scores(query@, scored.deep_view(), *weight),
            numerators@.len() == k,
            denominators@.len() == k,
            forall|a: int|
                0 <= a < k ==> (value(#[trigger] numerators@[a]@), value(denominators@[a]@))
                    == all[a],
        decreases n - k,
    {
        let item = &scored[k];
        proof {
            assert(scored.deep_view()[k as int] == item.deep_view());
        }
        let digits = score_digits(query, item, weight);
        numerators.push(digits.0);
        denominators.push(digits.1);
        k = k + 1;
    }
    let ghost keys = boosted_keys(query@, scored.deep_view(), *weight);
    let mut order: Vec<usize> = Vec::new();
    let mut i: usize = 0;
    proof {
        assert(indices(order@) =~= ranked_prefix(keys, 0));
    }
    while i < n
        invariant
            i <= n,
            n == scored@.len(),
            weight.valid(),
            all == scores(query@, scored.deep_view(), *weight),
            keys == boosted_keys(query@, scored.deep_view(), *weight),
            numerators@.len() == n,
            denominators@.len() == n,
            forall|a: int|
                0 <= a < n ==> (value(#[trigger] numerators@[a]@), value(denominators@[a]@))
                    == all[a],
            order@.len() == i,
            indices(order@) == ranked_prefix(keys, i as nat),
        decreases n - i,
    {
        proof {
            lemma_ranked_prefix(keys, i as nat);
            assert forall|a: int| 0 <= a < order@.len() implies #[trigger] order@[a] < i by {
                assert(0 <= indices(order@)[a] < i);
            }
        }
        let mut low: usize = 0;
        let mut high: usize = order.len();
        while low < high
            invariant
                low <= high <= order@.len(),
                order@.len() == i,
                i < n,
                n == scored@.len(),
                weight.valid(),
                all == scores(query@, scored.deep_view(), *weight),
                keys == boosted_keys(query@, scored.deep_view(), *weight),
                numerators@.len() == n,
                denominators@.len() == n,
                forall|a: int|
                    0 <= a < n ==> (value(#[trigger] numerators@[a]@), value(denominators@[a]@))
                        == all[a],
                is_ranking(indices(order@), keys, i as nat),
                forall|a: int| 0 <= a < order@.len() ==> #[trigger] order@[a] < i,
                forall|p: int| 0 <= p < low ==> keys[#[trigger] indices(order@)[p]] >= keys[i as int],
                forall|p: int|
                    high <= p < order@.len() ==> keys[#[trigger] indices(order@)[p]] < keys[i as int],
            decreases high - low,
        {
            let middle: usize = low + (high - low) / 2;
            let at: usize = order[middle];
            let below: bool = scores_less(&numerators, &denominators, at, i);
            proof {
                assert(indices(order@)[middle as int] == at);
                assert((value(numerators@[at as int]@), value(denominators@[at as int]@)) == all[at as int]);
                assert((value(numerators@[i as int]@), value(denominators@[i as int]@)) == all[i as int]);
                lemma_keys_follow_scores(query@, scored.deep_view(), *weight, i as int, at as int);
                if below {
                    assert forall|p: int| middle <= p < order@.len() implies keys[#[trigger] indices(
                        order@,
                    )[p]] < keys[i as int] by {
                        if p > middle {
                            assert(keys[indices(order@)[middle as int]] > keys[indices(order@)[p]]
                                || keys[indices(order@)[middle as int]] == keys[indices(order@)[p]]);
                        }
                    }
                } else {
                    assert forall|p: int| 0 <= p < middle + 1 implies keys[#[trigger] indices(
                        order@,
                    )[p]] >= keys[i as int] by {
                        if p < middle {
                            assert(keys[indices(order@)[p]] > keys[indices(order@)[middle as int]]
                                || keys[indices(order@)[p]] == keys[indices(order@)[middle as int]]);
                        }
                    }
                }
            }
            if below {
                high = middle;
            } else {
                low = middle + 1;
            }
        }
        proof {
            lemma_slot_is(indices(order@), keys, keys[i as int], low as int);
        }
        let ghost before = order@;
        order.insert(low, i);
        proof {
            assert(indices(order@) =~= indices(before).insert(low as int, i as int));
        }
        i = i + 1;
    }
    proof {
        lemma_rank_order(keys);
        assert forall|a: int| 0 <= a < order@.len() implies #[trigger] order@[a] < n by {
            assert(0 <= indices(order@)[a] < n);
        }
    }
    let mut out: Vec<String> = Vec::new();
    let mut a: usize = 0;
    while a < n
        invariant
            a <= n,
            n == scored@.len(),
            order@.len() == n,
            forall|b: int| 0 <= b < order@.len() ==> #[trigger] order@[b] < n,
            out@.len() == a,
            forall|b: int| 0 <= b < a ==> (#[trigger] out@[b])@ == scored@[order@[b] as int].name@,
        decreases n - a,
    {
        out.push(scored[order[a]].name.clone());
        a = a + 1;
    }
    proof {
        assert forall|b: int| 0 <= b < n implies #[trigger] out.deep_view()[b] == ranked(
            query@,
            scored.deep_view(),
            *weight,
        )[b] by {
            assert(indices(order@)[b] == order@[b] as int);
            assert(out.deep_view()[b] == out@[b]@);
            assert(scored.deep_view()[order@[b] as int] == scored@[order@[b] as int].deep_view());
        }
        assert(out.deep_view() =~= ranked(query@, scored.deep_view(), *weight));
    }
    out
}

/// Searches the candidates for `input`: all of them are ranked by fuzzy
/// similarity plus the boost for holding `input` literally, and the first
/// `LIMIT` come back. An empty input finds nothing.
pub fn search(input: &str, executables: &Vec<String>, weight: &Weight) -> (r: Vec<String>)
    ensures
        r.deep_view() == searched(input@, executables.deep_view(), *weight),
        input@.len() == 0 ==> r@.len() == 0,
        r@.len() <= LIMIT,
        r@.len() <= executables@.len(),
        forall|k: int|
            0 <= k < r@.len() ==> executables.deep_view().contains(#[trigger] r.deep_view()[k]),
{
    if input.is_empty() {
        let r: Vec<String> = Vec::new();
        proof {
            assert(r.deep_view() =~= Seq::<Seq<char>>::empty());
        }
        return r;
    }
    let scored = fuzzy_scores(input, executables);
    let mut r = rank_scored(input, &scored, weight);
    let ghost all = r.deep_view();
    r.truncate(LIMIT);
    proof {
        assert forall|k: int| 0 <= k < r@.len() implies #[trigger] r.deep_view()[k] == all[k] by {
            assert(r.deep_view()[k] == r@[k]@);
        }
        assert(r.deep_view() =~= searched(input@, executables.deep_view(), *weight));
        lemma_searched_from(input@, executables.deep_view(), *weight);
    }
    r
}

/// Every name that a search returns is one of the candidates, and there
/// are no more of them than candidates or than `LIMIT`.
pub proof fn lemma_searched_from(query: Seq<char>, candidates: Seq<Seq<char>>, weight: Weight)
    ensures
        searched(query, candidates, weight).len() <= LIMIT,
        searched(query, candidates, weight).len() <= candidates.len(),
        forall|k: int|
            0 <= k < searched(query, candidates, weight).len() ==> candidates.contains(
                #[trigger] searched(query, candidates, weight)[k],
            ),
{
    if query.len() > 0 {
        let scored = scored_all(query, candidates);
        let keys = boosted_keys(query, scored, weight);
        lemma_rank_order(keys);
        let order = rank_order(keys);
        let out = searched(query, candidates, weight);
        assert forall|k: int| 0 <= k < out.len() implies candidates.contains(#[trigger] out[k]) by {
            assert(0 <= order[k] < candidates.len());
            assert(out[k] == candidates[order[k]]);
        }
    }
}

/// An empty query finds nothing, whatever the candidates.
pub proof fn lemma_empty_query_finds_nothing(candidates: Seq<Seq<char>>, weight: Weight)
    ensures
        searched(Seq::<char>::empty(), candidates, weight).len() == 0,
{
}

/// A search is a function of its arguments: what it returns is fixed by the
/// query, the candidates and the weight.
pub proof fn lemma_search_deterministic(
    query: Seq<char>,
    candidates: Seq<Seq<char>>,
    weight: Weight,
    first: Seq<Seq<char>>,
    second: Seq<Seq<char>>,
)
    requires
        first == searched(query, candidates, weight),
        second == searched(query, candidates, weight),
    ensures
        first == second,
{
}

/// A search drops no candidate while there are no more than `LIMIT` of
/// them: every candidate is among the matches of a query that is not
/// empty.
pub proof fn lemma_search_keeps_all(query: Seq<char>, candidates: Seq<Seq<char>>, weight: Weight)
    requires
        query.len() > 0,
        candidates.len() <= LIMIT,
    ensures
        searched(query, candidates, weight).len() == candidates.len(),
        forall|i: int|
            0 <= i < candidates.len() ==> searched(query, candidates, weight).contains(
                #[trigger] candidates[i],
            ),
{
    let scored = scored_all(query, candidates);
    let order = rank_order(boosted_keys(query, scored, weight));
    lemma_rank_order(boosted_keys(query, scored, weight));
    let out = searched(query, candidates, weight);
    assert forall|i: int| 0 <= i < candidates.len() implies out.contains(
        #[trigger] candidates[i],
    ) by {
        assert(order.contains(i));
        let a = choose|a: int| 0 <= a < order.len() && order[a] == i;
        assert(out[a] == candidates[i]);
    }
}

/// A search lists no candidate twice: where the candidates differ from
/// each other, so do the matches.
pub proof fn lemma_search_distinct(query: Seq<char>, candidates: Seq<Seq<char>>, weight: Weight)
    requires
        forall|i: int, j: int| 0 <= i < j < candidates.len() ==> candidates[i] != candidates[j],
    ensures
        forall|a: int, b: int|
            0 <= a < b < searched(query, candidates, weight).len() ==> searched(
                query,
                candidates,
                weight,
            )[a] != searched(query, candidates, weight)[b],
{
    if query.len() > 0 {
        let scored = scored_all(query, candidates);
        let keys = boosted_keys(query, scored, weight);
        let order = rank_order(keys);
        lemma_rank_order(keys);
        let out = searched(query, candidates, weight);
        assert forall|a: int, b: int| 0 <= a < b < out.len() implies out[a] != out[b] by {
            lemma_ranking_distinct(order, keys, scored.len(), a, b);
            let i = order[a];
            let j = order[b];
            assert(0 <= i < candidates.len() && 0 <= j < candidates.len());
            assert(out[a] == candidates[i] && out[b] == candidates[j]);
            if i < j {
                assert(candidates[i] != candidates[j]);
            } else {
                assert(candidates[j] != candidates[i]);
            }
        }
    }
}

/// Every score has a positive denominator under a valid weight.
pub proof fn lemma_scores_positive(query: Seq<char>, scored: Seq<(Seq<char>, u32)>, weight: Weight)
    requires
        weight.valid(),
    ensures
        forall|k: int|
            0 <= k < scored.len() ==> (#[trigger] scores(query, scored, weight)[k]).1 > 0,
{
    assert forall|k: int| 0 <= k < scored.len() implies (#[trigger] scores(
        query,
        scored,
        weight,
    )[k]).1 > 0 by {
        match first_match(encode_utf8(scored[k].0), encode_utf8(query)) {
            Some(start) => {
                lemma_boost_range(weight, start as nat);
            },
            None => {},
        }
    }
}

/// The order of scores carries over: a score less than a second is less
/// than every third that is not less than the second.
pub proof fn lemma_less_transitive(a: (nat, nat), b: (nat, nat), c: (nat, nat))
    requires
        a.1 > 0,
        b.1 > 0,
        c.1 > 0,
        score_less(a, b),
        !score_less(c, b),
    ensures
        score_less(a, c),
{
    let (a0, a1) = (a.0 as int, a.1 as int);
    let (b0, b1) = (b.0 as int, b.1 as int);
    let (c0, c1) = (c.0 as int, c.1 as int);
    assert((a0 * b1) * c1 < (b0 * a1) * c1) by (nonlinear_arith)
        requires
            a0 * b1 < b0 * a1,
            c1 > 0,
    ;
    assert((b0 * c1) * a1 <= (c0 * b1) * a1) by (nonlinear_arith)
        requires
            b0 * c1 <= c0 * b1,
            a1 > 0,
    ;
    assert((a0 * c1) * b1 == (a0 * b1) * c1) by (nonlinear_arith);
    assert((b0 * a1) * c1 == (b0 * c1) * a1) by (nonlinear_arith);
    assert((c0 * b1) * a1 == (c0 * a1) * b1) by (nonlinear_arith);
    assert(a0 * c1 < c0 * a1) by (nonlinear_arith)
        requires
            (a0 * c1) * b1 < (c0 * a1) * b1,
            b1 > 0,
    ;
}

/// No count exceeds the number of scores counted.
pub proof fn lemma_count_bound(all: Seq<(nat, nat)>, i: int, m: nat)
    ensures
        count_below(all, i, m) <= m,
    decreases m,
{
    if m > 0 && m <= all.len() {
        lemma_count_bound(all, i, (m - 1) as nat);
    }
}

/// A score that is not less than another has at least as many scores
/// below it.
pub proof fn lemma_count_monotone(all: Seq<(nat, nat)>, k: int, i: int, m: nat)
    requires
        forall|x: int| 0 <= x < all.len() ==> (#[trigger] all[x]).1 > 0,
        0 <= k < all.len(),
        0 <= i < all.len(),
        !score_less(all[i], all[k]),
    ensures
        count_below(all, k, m) <= count_below(all, i, m),
    decreases m,
{
    if m > 0 && m <= all.len() {
        lemma_count_monotone(all, k, i, (m - 1) as nat);
        if score_less(all[m - 1], all[k]) {
            lemma_less_transitive(all[m - 1], all[k], all[i]);
        }
    }
}

/// A score that is greater than another has more scores below it.
pub proof fn lemma_count_strict(all: Seq<(nat, nat)>, k: int, i: int, m: nat)
    requires
        forall|x: int| 0 <= x < all.len() ==> (#[trigger] all[x]).1 > 0,
        0 <= k < m <= all.len(),
        0 <= i < all.len(),
        score_less(all[k], all[i]),
    ensures
        count_below(all, k, m) < count_below(all, i, m),
    decreases m,
{
    if m - 1 == k {
        lemma_count_monotone(all, k, i, (m - 1) as nat);
    } else {
        lemma_count_strict(all, k, i, (m - 1) as nat);
        if score_less(all[m - 1], all[k]) {
            lemma_less_transitive(all[m - 1], all[k], all[i]);
        }
    }
}

/// The keys follow the scores: one candidate has a greater key than
/// another exactly where its score is greater, and the same key exactly
/// where the scores are equal.
pub proof fn lemma_keys_follow_scores(
    query: Seq<char>,
    scored: Seq<(Seq<char>, u32)>,
    weight: Weight,
    i: int,
    j: int,
)
    requires
        weight.valid(),
        scored.len() <= usize::MAX,
        0 <= i < scored.len(),
        0 <= j < scored.len(),
    ensures
        boosted_keys(query, scored, weight)[i] > boosted_keys(query, scored, weight)[j]
            <==> score_less(scores(query, scored, weight)[j], scores(query, scored, weight)[i]),
        boosted_keys(query, scored, weight)[i] == boosted_keys(query, scored, weight)[j] <==> (
        !score_less(scores(query, scored, weight)[j], scores(query, scored, weight)[i])
            && !score_less(scores(query, scored, weight)[i], scores(query, scored, weight)[j])),
{
    let all = scores(query, scored, weight);
    lemma_scores_positive(query, scored, weight);
    lemma_count_bound(all, i, all.len());
    lemma_count_bound(all, j, all.len());
    if score_less(all[j], all[i]) {
        lemma_count_strict(all, j, i, all.len());
    } else if score_less(all[i], all[j]) {
        lemma_count_strict(all, i, j, all.len());
    } else {
        lemma_count_monotone(all, j, i, all.len());
        lemma_count_monotone(all, i, j, all.len());
    }
}

/// The ranking is by score: of two places in it, the earlier holds a
/// candidate that scores no less, and where the two score the same, the
/// earlier holds the one that was given first.
pub proof fn lemma_ranked_by_score(
    query: Seq<char>,
    scored: Seq<(Seq<char>, u32)>,
    weight: Weight,
    a: int,
    b: int,
)
    requires
        weight.valid(),
        scored.len() <= usize::MAX,
        0 <= a < b < scored.len(),
    ensures
        ({
            let order = rank_order(boosted_keys(query, scored, weight));
            let all = scores(query, scored, weight);
            &&& 0 <= order[a] < scored.len()
            &&& 0 <= order[b] < scored.len()
            &&& !score_less(all[order[a]], all[order[b]])
            &&& !score_less(all[order[b]], all[order[a]]) ==> order[a] < order[b]
        }),
{
    let keys = boosted_keys(query, scored, weight);
    let order = rank_order(keys);
    lemma_rank_order(keys);
    assert(0 <= order[a] < scored.len());
    assert(0 <= order[b] < scored.len());
    assert(keys[order[a]] > keys[order[b]] || (keys[order[a]] == keys[order[b]] && order[a]
        < order[b]));
    lemma_keys_follow_scores(query, scored, weight, order[a], order[b]);
    lemma_keys_follow_scores(query, scored, weight, order[b], order[a]);
}

/// A search returns the best: no candidate that it leaves out scores more
/// than one that it returns.
pub proof fn lemma_search_takes_the_best(
    query: Seq<char>,
    candidates: Seq<Seq<char>>,
    weight: Weight,
    kept: int,
    left: int,
)
    requires
        weight.valid(),
        candidates.len() <= usize::MAX,
        query.len() > 0,
        0 <= kept < searched(query, candidates, weight).len() <= left < candidates.len(),
    ensures
        ({
            let scored = scored_all(query, candidates);
            let order = search_order(query, candidates, weight);
            let all = scores(query, scored, weight);
            &&& searched(query, candidates, weight)[kept] == candidates[order[kept]]
            &&& !score_less(all[order[kept]], all[order[left]])
        }),
{
    lemma_ranked_by_score(query, scored_all(query, candidates), weight, kept, left);
}

/// The whole number of a fuzzy score grows with the score: of two bit
/// patterns of numbers from 0 to 1, the greater has the greater numerator.
pub proof fn lemma_base_monotone(lower: u32, higher: u32)
    requires
        lower < higher <= ONE_BITS,
    ensures
        base_numerator(lower) < base_numerator(higher),
{
    if higher < ONE_BITS {
        lemma_magnitude_monotone(lower, higher);
    } else {
        lemma_magnitude_monotone(lower, ONE_BITS);
        vstd::arithmetic::power2::lemma2_to64();
        vstd::arithmetic::power2::lemma_pow2_adds(23, 126);
        assert(crate::fixed::exponent_field(ONE_BITS) == 127);
        assert(crate::fixed::significand(ONE_BITS) == 0x80_0000);
        assert(crate::fixed::scale(ONE_BITS) == 126);
    }
}

/// A better fuzzy score raises the score: of two candidates that hold the
/// query at the same place, or not at all, the one with the greater fuzzy
/// score scores more.
pub proof fn lemma_fuzzy_score_raises(
    query: Seq<char>,
    lower: (Seq<char>, u32),
    higher: (Seq<char>, u32),
    weight: Weight,
)
    requires
        weight.valid(),
        lower.1 < higher.1 <= ONE_BITS,
        first_match(encode_utf8(lower.0), encode_utf8(query)) == first_match(
            encode_utf8(higher.0),
            encode_utf8(query),
        ),
    ensures
        score_less(score_of(query, lower, weight), score_of(query, higher, weight)),
{
    lemma_base_monotone(lower.1, higher.1);
    let b1 = base_numerator(lower.1) as int;
    let b2 = base_numerator(higher.1) as int;
    match first_match(encode_utf8(lower.0), encode_utf8(query)) {
        Some(start) => {
            lemma_boost_range(weight, start as nat);
            let d = weight.denominator_at(start as nat) as int;
            let t = (weight.numerator() * pow2(149)) as int;
            assert((b1 * d + t) * d < (b2 * d + t) * d) by (nonlinear_arith)
                requires
                    b1 < b2,
                    d > 0,
            ;
        },
        None => {
            assert(b1 * 1 < b2 * 1) by (nonlinear_arith)
                requires
                    b1 < b2,
            ;
        },
    }
}

/// A literal match raises the score: under a valid weight, a candidate
/// that holds the query scores more than its fuzzy score alone.
pub proof fn lemma_literal_match_raises(query: Seq<char>, item: (Seq<char>, u32), weight: Weight)
    requires
        weight.valid(),
        first_match(encode_utf8(item.0), encode_utf8(query)) is Some,
    ensures
        score_less((base_numerator(item.1), 1nat), score_of(query, item, weight)),
{
    let start = first_match(encode_utf8(item.0), encode_utf8(query))->0;
    lemma_boost_range(weight, start as nat);
    lemma_pow2_pos(149);
    let b = base_numerator(item.1) as int;
    let d = weight.denominator_at(start as nat) as int;
    let n = weight.numerator() as int;
    let u = pow2(149) as int;
    assert(n * u >= 1) by (nonlinear_arith)
        requires
            n >= 1,
            u >= 1,
    ;
    assert(b * d < (b * d + n * u) * 1) by (nonlinear_arith)
        requires
            n * u >= 1,
    ;
}

/// Of two candidates with the same fuzzy score, one that starts with the
/// query scores more than one in which the query first occurs further in.
pub proof fn lemma_prefix_match_scores_more(
    query: Seq<char>,
    first: (Seq<char>, u32),
    second: (Seq<char>, u32),
    weight: Weight,
)
    requires
        weight.valid(),
        first.1 == second.1,
        first_match(encode_utf8(first.0), encode_utf8(query)) == Some(0int),
        first_match(encode_utf8(second.0), encode_utf8(query)) matches Some(start) && start > 0,
    ensures
        score_less(score_of(query, second, weight), score_of(query, first, weight)),
{
    let start = first_match(encode_utf8(second.0), encode_utf8(query))->0;
    lemma_boost_range(weight, 0);
    lemma_boost_range(weight, start as nat);
    lemma_pow2_pos(149);
    let b = base_numerator(first.1) as int;
    let n = weight.numerator() as int;
    let d = weight.denominator_at(start as nat) as int;
    let u = pow2(149) as int;
    assert(weight.denominator_at(0) == n);
    assert(n * u >= 1) by (nonlinear_arith)
        requires
            n >= 1,
            u >= 1,
    ;
    assert((b * d + n * u) * n < (b * n + n * u) * d) by (nonlinear_arith)
        requires
            0 < n < d,
            n * u >= 1,
            b >= 0,
    ;
}

/// A literal match at the start outranks a later one. Of two candidates
/// with the same fuzzy score, the one that starts with the query is listed
/// before the one in which the query first occurs further in; where a
/// search returns the second, it returns the first before it.
pub proof fn lemma_prefix_match_listed_first(
    query: Seq<char>,
    candidates: Seq<Seq<char>>,
    weight: Weight,
    i: int,
    j: int,
)
    requires
        weight.valid(),
        candidates.len() <= usize::MAX,
        query.len() > 0,
        0 <= i < candidates.len(),
        0 <= j < candidates.len(),
        fuzzy_score(query, candidates[i]) == fuzzy_score(query, candidates[j]),
        first_match(encode_utf8(candidates[i]), encode_utf8(query)) == Some(0int),
        first_match(encode_utf8(candidates[j]), encode_utf8(query)) matches Some(start) && start
            > 0,
    ensures
        exists|a: int, b: int|
            #![trigger search_order(query, candidates, weight)[a], search_order(query, candidates, weight)[b]]
            0 <= a < b < candidates.len() && search_order(query, candidates, weight)[a] == i
                && search_order(query, candidates, weight)[b] == j && (b < searched(
                query,
                candidates,
                weight,
            ).len() ==> searched(query, candidates, weight)[a] == candidates[i] && searched(
                query,
                candidates,
                weight,
            )[b] == candidates[j]),
{
    let scored = scored_all(query, candidates);
    let keys = boosted_keys(query, scored, weight);
    let order = rank_order(keys);
    lemma_prefix_match_scores_more(query, scored[i], scored[j], weight);
    lemma_keys_follow_scores(query, scored, weight, i, j);
    assert(keys[i] > keys[j]);
    lemma_rank_order(keys);
    assert(order.contains(i));
    assert(order.contains(j));
    let a = choose|a: int| 0 <= a < order.len() && order[a] == i;
    let b = choose|b: int| 0 <= b < order.len() && order[b] == j;
    if b < a {
        assert(keys[order[b]] > keys[order[a]] || (keys[order[b]] == keys[order[a]] && order[b]
            < order[a]));
    }
    assert(a < b);
    let out = searched(query, candidates, weight);
    if b < out.len() {
        assert(out[a] == scored[order[a]].0);
        assert(out[b] == scored[order[b]].0);
    }
    assert(search_order(query, candidates, weight)[a] == i && search_order(
        query,
        candidates,
        weight,
    )[b] == j);
}

} // verus!
