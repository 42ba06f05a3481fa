//! A small deterministic min-priority queue for the grid traversals.
//!
//! Entries are ordered lexicographically by (cost, tile index, empire id),
//! so the cheapest pending step always leaves first, ties go to the lower
//! tile index, and remaining ties to the lower empire id.

use vstd::prelude::*;

verus! {

/// One pending step of a grid traversal: an accumulated cost, the tile it
/// reaches, and the empire on whose behalf the tile was reached. Traversals
/// that serve a single claimant keep `empire` constant.
#[derive(Clone, Copy, Debug, PartialEq, Eq, Structural)]
pub struct Entry {
    pub cost: u32,
    pub index: usize,
    pub empire: u32,
}

/// Lexicographic order (cost, tile index, empire id): the deterministic
/// tie-break rule shared by all three traversal algorithms.
pub open spec fn entry_le(a: Entry, b: Entry) -> bool {
    ||| a.cost < b.cost
    ||| (a.cost == b.cost && a.index < b.index)
    ||| (a.cost == b.cost && a.index == b.index && a.empire <= b.empire)
}

/// Strict part of [`entry_le`].
fn entry_lt(a: &Entry, b: &Entry) -> (r: bool)
    ensures
        r == (entry_le(*a, *b) && *a != *b),
{
    if a.cost < b.cost {
        true
    } else if a.cost == b.cost {
        if a.index < b.index {
            true
        } else {
            a.index == b.index && a.empire < b.empire
        }
    } else {
        false
    }
}

/// Removes and returns a least entry under `entry_le`. Among entries with
/// equal keys the choice is unobservable, because equal keys mean identical
/// entries.
pub fn pop_min(q: &mut Vec<Entry>) -> (r: Option<Entry>)
    ensures
        match r {
            None => old(q)@.len() == 0 && final(q)@ == old(q)@,
            Some(e) => {
                &&& old(q)@.len() > 0
                &&& exists|k: int|
                    0 <= k < old(q)@.len() && e == old(q)@[k] && final(q)@ == old(q)@.remove(k)
                &&& final(q)@.len() == old(q)@.len() - 1
                &&& forall|j: int| 0 <= j < final(q)@.len() ==> entry_le(e, #[trigger] final(q)@[j])
            },
        },
{
    if q.len() == 0 {
        return None;
    }
    let mut best: usize = 0;
    let mut i: usize = 1;
    while i < q.len()
        invariant
            q@.len() > 0,
            1 <= i <= q@.len(),
            best < i,
            forall|j: int| 0 <= j < i ==> entry_le(q@[best as int], #[trigger] q@[j]),
        decreases q@.len() - i,
    {
        if entry_lt(&q[i], &q[best]) {
            best = i;
        }
        i += 1;
    }
    let e = q.remove(best);
    proof {
        assert forall|j: int| 0 <= j < q@.len() implies entry_le(e, #[trigger] q@[j]) by {
            if j < best {
                assert(q@[j] == old(q)@[j]);
            } else {
                assert(q@[j] == old(q)@[j + 1]);
            }
        }
    }
    Some(e)
}

} // verus!
