//! The order of best first: a stable sort by descending key, stated as a
//! sequence of indices.

use vstd::prelude::*;

verus! {

/// The place at which an item with key `key` enters `order`, a sequence of
/// indices into `keys` held in descending order of key: behind every leading
/// entry whose key is at least `key`.
pub open spec fn slot(order: Seq<int>, keys: Seq<u64>, key: u64) -> int
    decreases order.len(),
{
    if order.len() == 0 || keys[order[0]] < key {
        0
    } else {
        1 + slot(order.drop_first(), keys, key)
    }
}

/// The first `n` indices into `keys`, ordered by descending key; indices with
/// equal keys stay in ascending order.
pub open spec fn ranked_prefix(keys: Seq<u64>, n: nat) -> Seq<int>
    decreases n,
{
    if n == 0 {
        Seq::empty()
    } else {
        let rest = ranked_prefix(keys, (n - 1) as nat);
        rest.insert(slot(rest, keys, keys[n - 1]), n - 1)
    }
}

/// All indices into `keys`, ordered by descending key; indices with equal
/// keys stay in ascending order.
pub open spec fn rank_order(keys: Seq<u64>) -> Seq<int> {
    ranked_prefix(keys, keys.len())
}

/// What it means for `order` to list the indices below `n` best first:
/// every index occurs, and of two entries the earlier one has the greater
/// key, or the same key and the smaller index.
pub open spec fn is_ranking(order: Seq<int>, keys: Seq<u64>, n: nat) -> bool {
    &&& order.len() == n
    &&& forall|a: int| 0 <= a < order.len() ==> 0 <= #[trigger] order[a] < n
    &&& forall|a: int, b: int|
        0 <= a < b < order.len() ==> keys[#[trigger] order[a]] > keys[#[trigger] order[b]] || (
        keys[order[a]] == keys[order[b]] && order[a] < order[b])
    &&& forall|i: int| 0 <= i < n ==> #[trigger] order.contains(i)
}

/// The indices of a vector of positions, as mathematical integers.
pub open spec fn indices(v: Seq<usize>) -> Seq<int> {
    Seq::new(v.len(), |i: int| v[i] as int)
}

/// Every entry before the slot has a key of at least `key`; the entry at the
/// slot, if there is one, has a smaller key.
pub proof fn lemma_slot(order: Seq<int>, keys: Seq<u64>, key: u64)
    ensures
        0 <= slot(order, keys, key) <= order.len(),
        forall|a: int| 0 <= a < slot(order, keys, key) ==> keys[#[trigger] order[a]] >= key,
        slot(order, keys, key) < order.len() ==> keys[order[slot(order, keys, key)]] < key,
    decreases order.len(),
{
    if order.len() == 0 || keys[order[0]] < key {
    } else {
        let tail = order.drop_first();
        lemma_slot(tail, keys, key);
        let s = slot(tail, keys, key);
        assert forall|a: int| 0 <= a < s + 1 implies keys[#[trigger] order[a]] >= key by {
            if a > 0 {
                assert(order[a] == tail[a - 1]);
            }
        }
        if s + 1 < order.len() {
            assert(order[s + 1] == tail[s]);
        }
    }
}

/// The slot is the one place `p` with only keys of at least `key` before it
/// and a smaller key at it.
pub proof fn lemma_slot_is(order: Seq<int>, keys: Seq<u64>, key: u64, p: int)
    requires
        0 <= p <= order.len(),
        forall|a: int| 0 <= a < p ==> keys[#[trigger] order[a]] >= key,
        p < order.len() ==> keys[order[p]] < key,
    ensures
        slot(order, keys, key) == p,
{
    lemma_slot(order, keys, key);
    let s = slot(order, keys, key);
    if s < p {
        assert(keys[order[s]] >= key);
    }
    if p < s {
        assert(keys[order[p]] >= key);
    }
}

/// `ranked_prefix` lists the indices below `n` best first.
pub proof fn lemma_ranked_prefix(keys: Seq<u64>, n: nat)
    requires
        n <= keys.len(),
    ensures
        is_ranking(ranked_prefix(keys, n), keys, n),
    decreases n,
{
    if n > 0 {
        let rest = ranked_prefix(keys, (n - 1) as nat);
        lemma_ranked_prefix(keys, (n - 1) as nat);
        let key = keys[n - 1];
        let s = slot(rest, keys, key);
        lemma_slot(rest, keys, key);
        let order = rest.insert(s, n - 1);
        assert(order.len() == n);
        assert forall|a: int| 0 <= a < order.len() implies 0 <= #[trigger] order[a] < n by {
            if a < s {
                assert(order[a] == rest[a]);
            } else if a > s {
                assert(order[a] == rest[a - 1]);
            }
        }
        assert forall|a: int, b: int| 0 <= a < b < order.len() implies keys[#[trigger] order[a]]
            > keys[#[trigger] order[b]] || (keys[order[a]] == keys[order[b]] && order[a]
            < order[b]) by {
            if b < s {
                assert(order[a] == rest[a] && order[b] == rest[b]);
            } else if b == s {
                assert(order[a] == rest[a]);
                assert(keys[rest[a]] >= key);
            } else if a < s {
                assert(order[a] == rest[a] && order[b] == rest[b - 1]);
            } else if a == s {
                assert(order[b] == rest[b - 1]);
                if s < b - 1 {
                    assert(keys[rest[s]] > keys[rest[b - 1]] || keys[rest[s]] == keys[rest[b
                        - 1]]);
                }
            } else {
                assert(order[a] == rest[a - 1] && order[b] == rest[b - 1]);
            }
        }
        assert forall|i: int| 0 <= i < n implies #[trigger] order.contains(i) by {
            if i == n - 1 {
                assert(order[s] == i);
            } else {
                assert(rest.contains(i));
                let a = choose|a: int| 0 <= a < rest.len() && rest[a] == i;
                if a < s {
                    assert(order[a] == i);
                } else {
                    assert(order[a + 1] == i);
                }
            }
        }
    }
}

/// `rank_order` lists all indices best first.
pub proof fn lemma_rank_order(keys: Seq<u64>)
    ensures
        is_ranking(rank_order(keys), keys, keys.len()),
{
    lemma_ranked_prefix(keys, keys.len());
}

/// No index occurs twice in a ranking.
pub proof fn lemma_ranking_distinct(order: Seq<int>, keys: Seq<u64>, n: nat, a: int, b: int)
    requires
        is_ranking(order, keys, n),
        0 <= a < order.len(),
        0 <= b < order.len(),
        a != b,
    ensures
        order[a] != order[b],
{
    if a < b {
        assert(keys[order[a]] > keys[order[b]] || (keys[order[a]] == keys[order[b]] && order[a]
            < order[b]));
    } else {
        assert(keys[order[b]] > keys[order[a]] || (keys[order[b]] == keys[order[a]] && order[b]
            < order[a]));
    }
}

/// There is one ranking only: every sequence that lists the indices below
/// `n` best first is `ranked_prefix(keys, n)`.
pub proof fn lemma_ranking_unique(order: Seq<int>, keys: Seq<u64>, n: nat)
    requires
        n <= keys.len(),
        is_ranking(order, keys, n),
    ensures
        order == ranked_prefix(keys, n),
    decreases n,
{
    if n == 0 {
        assert(order =~= ranked_prefix(keys, 0));
    } else {
        let last = n - 1;
        assert(order.contains(last));
        let a = choose|a: int| 0 <= a < order.len() && order[a] == last;
        let rest = order.remove(a);
        assert forall|b: int| 0 <= b < rest.len() implies 0 <= #[trigger] rest[b] < n - 1 by {
            let c = if b < a {
                b
            } else {
                b + 1
            };
            assert(rest[b] == order[c]);
            lemma_ranking_distinct(order, keys, n, a, c);
        }
        assert forall|b: int, c: int| 0 <= b < c < rest.len() implies keys[#[trigger] rest[b]]
            > keys[#[trigger] rest[c]] || (keys[rest[b]] == keys[rest[c]] && rest[b] < rest[c]) by {
            let b0 = if b < a {
                b
            } else {
                b + 1
            };
            let c0 = if c < a {
                c
            } else {
                c + 1
            };
            assert(rest[b] == order[b0] && rest[c] == order[c0]);
        }
        assert forall|i: int| 0 <= i < n - 1 implies #[trigger] rest.contains(i) by {
            assert(order.contains(i));
            let c = choose|c: int| 0 <= c < order.len() && order[c] == i;
            if c < a {
                assert(rest[c] == i);
            } else {
                assert(rest[c - 1] == i);
            }
        }
        lemma_ranking_unique(rest, keys, (n - 1) as nat);
        assert forall|b: int| 0 <= b < a implies keys[#[trigger] rest[b]] >= keys[last] by {
            assert(rest[b] == order[b]);
            assert(keys[order[b]] > keys[order[a]] || (keys[order[b]] == keys[order[a]]
                && order[b] < order[a]));
        }
        if a < rest.len() {
            assert(rest[a] == order[a + 1]);
            assert(keys[order[a]] > keys[order[a + 1]] || (keys[order[a]] == keys[order[a + 1]]
                && order[a] < order[a + 1]));
            assert(0 <= rest[a] < n - 1);
        }
        lemma_slot_is(rest, keys, keys[last], a);
        assert(order =~= rest.insert(a, last));
    }
}

} // verus!
