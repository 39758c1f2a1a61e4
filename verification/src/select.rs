//! The highlight that cycles through the ranked matches.

use vstd::prelude::*;

verus! {

/// The highlight after one step forward through `len` matches: from nothing
/// to the first match, from a match to the next one, and from the last match
/// back to nothing. With at most one match the highlight does not move.
pub open spec fn advanced(selection: Option<usize>, len: nat) -> Option<usize> {
    if len <= 1 {
        selection
    } else {
        match selection {
            None => Some(0usize),
            Some(i) => if i + 1 < len {
                Some((i + 1) as usize)
            } else {
                None
            },
        }
    }
}

/// The highlight after one step backward through `len` matches: from nothing
/// to the last match, from a match to the one before it, and from the first
/// match back to nothing. With at most one match the highlight does not move.
pub open spec fn retreated(selection: Option<usize>, len: nat) -> Option<usize> {
    if len <= 1 {
        selection
    } else {
        match selection {
            None => Some((len - 1) as usize),
            Some(i) => if 0 < i <= len {
                Some((i - 1) as usize)
            } else {
                None
            },
        }
    }
}

/// A highlight is valid for `len` matches when it is nothing or an index
/// below `len`.
pub open spec fn in_range(selection: Option<usize>, len: nat) -> bool {
    match selection {
        None => true,
        Some(i) => i < len,
    }
}

/// `steps` steps forward, one after the other.
pub open spec fn advanced_by(selection: Option<usize>, len: nat, steps: nat) -> Option<usize>
    decreases steps,
{
    if steps == 0 {
        selection
    } else {
        advanced(advanced_by(selection, len, (steps - 1) as nat), len)
    }
}

/// Moves the highlight one step forward.
pub fn advance(selection: Option<usize>, len: usize) -> (r: Option<usize>)
    ensures
        r == advanced(selection, len as nat),
        in_range(selection, len as nat) ==> in_range(r, len as nat),
{
    if len <= 1 {
        return selection;
    }
    match selection {
        None => Some(0),
        Some(i) => {
            if i < len - 1 {
                Some(i + 1)
            } else {
                None
            }
        },
    }
}

/// Moves the highlight one step backward.
pub fn retreat(selection: Option<usize>, len: usize) -> (r: Option<usize>)
    ensures
        r == retreated(selection, len as nat),
        in_range(selection, len as nat) ==> in_range(r, len as nat),
{
    if len <= 1 {
        return selection;
    }
    match selection {
        None => Some(len - 1),
        Some(i) => {
            if 0 < i && i <= len {
                Some(i - 1)
            } else {
                None
            }
        },
    }
}

/// Stepping forward from nothing visits the matches in order: after `k`
/// steps, with `1 <= k <= len`, match `k - 1` is highlighted.
pub proof fn lemma_advance_visits_in_order(len: nat, k: nat)
    requires
        1 < len <= usize::MAX,
        1 <= k <= len,
    ensures
        advanced_by(None, len, k) == Some((k - 1) as usize),
    decreases k,
{
    if k > 1 {
        lemma_advance_visits_in_order(len, (k - 1) as nat);
    } else {
        assert(advanced_by(None, len, 0) == None::<usize>);
    }
}

/// The forward cycle has length `len + 1`: that many steps from nothing lead
/// back to nothing.
pub proof fn lemma_advance_cycle(len: nat)
    requires
        1 < len <= usize::MAX,
    ensures
        advanced_by(None, len, len + 1) == None::<usize>,
{
    lemma_advance_visits_in_order(len, len);
}

/// One step backward from nothing lands on the last match.
pub proof fn lemma_retreat_lands_on_last(len: nat)
    requires
        1 < len <= usize::MAX,
    ensures
        retreated(None, len) == Some((len - 1) as usize),
{
}

/// A step backward undoes a step forward, and a step forward undoes a step
/// backward, for every valid highlight.
pub proof fn lemma_retreat_undoes_advance(selection: Option<usize>, len: nat)
    requires
        len <= usize::MAX,
        in_range(selection, len),
    ensures
        len > 1 ==> retreated(advanced(selection, len), len) == selection,
        len > 1 ==> advanced(retreated(selection, len), len) == selection,
{
}

} // verus!
