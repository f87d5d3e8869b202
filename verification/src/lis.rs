//! The length of the longest strictly rising subsequence of a sequence of
//! numbers.

use vstd::prelude::*;

verus! {

/// `idx` picks positions of `arr`, from left to right, at which the values
/// rise strictly.
pub open spec fn is_rising_pick(arr: Seq<i32>, idx: Seq<int>) -> bool {
    &&& forall|k: int| 0 <= k < idx.len() ==> 0 <= #[trigger] idx[k] < arr.len()
    &&& forall|k: int, l: int|
        0 <= k < l < idx.len() ==> #[trigger] idx[k] < #[trigger] idx[l] && arr[idx[k]]
            < arr[idx[l]]
}

/// The numbers stand in strictly rising order.
pub open spec fn strictly_rising(s: Seq<i32>) -> bool {
    forall|a: int, b: int| 0 <= a < b < s.len() ==> s[a] < s[b]
}

/// Calls `binary_search` on the slice of `sorted`. Trusted, for numbers in
/// strictly rising order: `Ok` holds the position of `x`; `Err` holds the
/// position at which `x` would have to be put in, behind all the numbers
/// below it and before all the numbers above it.
#[verifier::external_body]
fn search(sorted: &Vec<i32>, x: i32) -> (found: Result<usize, usize>)
    requires
        strictly_rising(sorted@),
    ensures
        match found {
            Ok(pos) => pos < sorted@.len() && sorted@[pos as int] == x,
            Err(pos) => {
                &&& pos <= sorted@.len()
                &&& forall|j: int| 0 <= j < pos ==> sorted@[j] < x
                &&& forall|j: int| pos <= j < sorted@.len() ==> sorted@[j] > x
            },
        },
{
    sorted.binary_search(&x)
}

/// The length of the longest strictly rising subsequence of `arr`.
pub fn lis_length(arr: &[i32]) -> (length: usize)
    ensures
        exists|idx: Seq<int>| #[trigger] is_rising_pick(arr@, idx) && idx.len() == length,
        forall|idx: Seq<int>| #[trigger] is_rising_pick(arr@, idx) ==> idx.len() <= length,
{
    if arr.is_empty() {
        assert(is_rising_pick(arr@, Seq::<int>::empty()));
        assert forall|idx: Seq<int>| #[trigger] is_rising_pick(arr@, idx) implies idx.len()
            <= 0 by {
            if idx.len() > 0 {
                assert(0 <= idx[0] < arr@.len());
            }
        }
        return 0;
    }
    // tails[k] is the smallest number that ends a rising subsequence of
    // length k + 1 of what was read; picks[k] is such a subsequence.

    let mut tails: Vec<i32> = Vec::new();
    let ghost mut picks: Seq<Seq<int>> = Seq::empty();
    let mut i: usize = 0;
    while i < arr.len()
        invariant
            i <= arr.len(),
            tails@.len() <= i,
            strictly_rising(tails@),
            picks.len() == tails@.len(),
            forall|k: int|
                0 <= k < picks.len() ==> {
                    &&& is_rising_pick(arr@, #[trigger] picks[k])
                    &&& picks[k].len() == k + 1
                    &&& picks[k].last() < i
                    &&& arr@[picks[k].last()] == tails@[k]
                },
            forall|idx: Seq<int>|
                #[trigger] is_rising_pick(arr@, idx) && idx.len() >= 1 && idx.last() < i ==> {
                    &&& idx.len() <= tails@.len()
                    &&& tails@[idx.len() - 1] <= arr@[idx.last()]
                },
        decreases arr.len() - i,
    {
        let num = arr[i];
        let ghost old_tails = tails@;
        let ghost old_picks = picks;
        // The position at which num ends a rising subsequence
        let pos = match search(&tails, num) {
            Ok(pos) => pos,
            Err(pos) => pos,
        };
        assert(forall|j: int| 0 <= j < pos ==> old_tails[j] < num);
        assert(pos < old_tails.len() ==> old_tails[pos as int] >= num);

        if pos == tails.len() {
            tails.push(num);
        } else {
            tails.set(pos, num);
        }
        proof {
            let pick = if pos == 0 {
                seq![i as int]
            } else {
                old_picks[pos - 1].push(i as int)
            };
            if pos > 0 {
                let before = old_picks[pos - 1];
                assert(is_rising_pick(arr@, before));
                assert forall|k: int, l: int| 0 <= k < l < pick.len() implies #[trigger] pick[k]
                    < #[trigger] pick[l] && arr@[pick[k]] < arr@[pick[l]] by {
                    if l == pick.len() - 1 {
                        if k < before.len() - 1 {
                            assert(before[k] < before[before.len() - 1] && arr@[before[k]]
                                < arr@[before[before.len() - 1]]);
                        }
                    } else {
                        assert(before[k] < before[l] && arr@[before[k]] < arr@[before[l]]);
                    }
                }
            }
            assert(is_rising_pick(arr@, pick));
            picks = if pos == old_picks.len() {
                old_picks.push(pick)
            } else {
                old_picks.update(pos as int, pick)
            };
            assert forall|k: int| 0 <= k < picks.len() implies {
                &&& is_rising_pick(arr@, #[trigger] picks[k])
                &&& picks[k].len() == k + 1
                &&& picks[k].last() < i + 1
                &&& arr@[picks[k].last()] == tails@[k]
            } by {
                if k != pos {
                    assert(picks[k] == old_picks[k]);
                }
            }
            assert forall|idx: Seq<int>|
                #[trigger] is_rising_pick(arr@, idx) && idx.len() >= 1 && idx.last() < i + 1 implies {
                &&& idx.len() <= tails@.len()
                &&& tails@[idx.len() - 1] <= arr@[idx.last()]
            } by {
                let len = idx.len() as int;
                if idx.last() < i {
                    assert(len <= old_tails.len() && old_tails[len - 1] <= arr@[idx.last()]);
                } else if len >= 2 {
                    let shorter = idx.drop_last();
                    assert(is_rising_pick(arr@, shorter)) by {
                        assert forall|k: int, l: int| 0 <= k < l < shorter.len() implies #[trigger] shorter[k]
                            < #[trigger] shorter[l] && arr@[shorter[k]] < arr@[shorter[l]] by {
                            assert(idx[k] < idx[l] && arr@[idx[k]] < arr@[idx[l]]);
                        }
                        assert forall|k: int| 0 <= k < shorter.len() implies 0 <= #[trigger] shorter[k]
                            < arr@.len() by {
                            assert(0 <= idx[k] < arr@.len());
                        }
                    }
                    assert(idx[len - 2] < idx[len - 1] && arr@[idx[len - 2]] < arr@[idx[len - 1]]);
                    assert(shorter.last() == idx[len - 2]);
                    assert(shorter.len() <= old_tails.len() && old_tails[shorter.len() - 1]
                        <= arr@[shorter.last()]);
                    // old_tails[len - 2] < num, so num goes behind position len - 2
                    if pos <= len - 2 {
                        assert(old_tails[pos as int] >= num);
                        if pos < len - 2 {
                            assert(old_tails[pos as int] < old_tails[len - 2]);
                        }
                    }
                }
            }
        }
        i = i + 1;
    }
    proof {
        if tails@.len() == 0 {
            assert(is_rising_pick(arr@, Seq::<int>::empty()));
        } else {
            assert(is_rising_pick(arr@, picks[tails@.len() - 1]));
        }
        assert forall|idx: Seq<int>| #[trigger] is_rising_pick(arr@, idx) implies idx.len()
            <= tails@.len() by {
            if idx.len() >= 1 {
                assert(0 <= idx[idx.len() - 1] < arr@.len());
            }
        }
    }
    tails.len()
}

} // verus!
