//! The value that fills more than half of an array, if there is one.

use vstd::prelude::*;

verus! {

/// How often `v` occurs in `s`.
pub open spec fn count(s: Seq<u32>, v: u32) -> nat
    decreases s.len(),
{
    if s.len() == 0 {
        0
    } else {
        count(s.drop_last(), v) + if s.last() == v {
            1nat
        } else {
            0nat
        }
    }
}

/// `v` fills more than half of `s`.
pub open spec fn is_majority(s: Seq<u32>, v: u32) -> bool {
    count(s, v) > s.len() / 2
}

/// The value that fills more than half of `a`, or `None` where no value does.
pub fn majority(a: &[u32]) -> (found: Option<u32>)
    ensures
        match found {
            Some(v) => is_majority(a@, v),
            None => forall|v: u32| !is_majority(a@, v),
        },
{
    // After `i` values, every value other than `cand` fills at most half of
    // what is left when `votes` occurrences of `cand` are put aside.
    let mut cand: u32 = 0;
    let mut votes: usize = 0;
    let mut i: usize = 0;
    assert(a@.take(0).len() == 0);
    while i < a.len()
        invariant
            i <= a.len(),
            votes <= i,
            forall|v: u32| v != cand ==> 2 * count(a@.take(i as int), v) <= i - votes,
            2 * count(a@.take(i as int), cand) <= i + votes,
        decreases a.len() - i,
    {
        let x = a[i];
        proof {
            let next = a@.take(i + 1);
            assert(next.drop_last() =~= a@.take(i as int));
            assert(next.last() == x);
            assert forall|v: u32| #[trigger]
                count(next, v) == count(a@.take(i as int), v) + if x == v {
                    1nat
                } else {
                    0nat
                } by {}
        }
        if votes == 0 {
            cand = x;
            votes = 1;
        } else if x == cand {
            votes = votes + 1;
        } else {
            votes = votes - 1;
        }
        i = i + 1;
    }

    let mut occurrences: usize = 0;
    let mut j: usize = 0;
    while j < a.len()
        invariant
            j <= a.len(),
            occurrences == count(a@.take(j as int), cand),
            occurrences <= j,
        decreases a.len() - j,
    {
        proof {
            assert(a@.take(j + 1).drop_last() =~= a@.take(j as int));
        }
        if a[j] == cand {
            occurrences = occurrences + 1;
        }
        j = j + 1;
    }
    assert(a@.take(a.len() as int) =~= a@);
    if occurrences > a.len() / 2 {
        Some(cand)
    } else {
        None
    }
}

} // verus!
