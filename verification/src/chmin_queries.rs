//! Runs a list of range updates and range-maximum queries that is given as
//! text.
//!
//! The text holds numbers separated by white space: the number `n` of values
//! and the number `q` of operations, then the `n` values, then the operations.
//! An operation is `0 i j t`, which lowers the values at the positions `i` to
//! `j` to at most `t`, or `1 i j`, which asks for the largest value at the
//! positions `i` to `j`. Positions count from `1`, and `i` to `j` has to be a
//! range of positions that the values have. The answers are written one per
//! line.

use vstd::prelude::*;
use crate::aggregate::max_in;
use crate::chmin_tree::{chmin_seq, SegmentTree};
use crate::text::{
    count_at, decimal, i64_to_string, join_lines, joined, number_at, numbers, numbers_of, read_count,
};

verus! {

/// The position, counted from `0`, that the number at `pos` names, counted
/// from `1`.
pub open spec fn index_at(nums: Seq<Option<i64>>, pos: int) -> Option<usize> {
    match number_at(nums, pos) {
        Some(v) => if v as usize >= 1 {
            Some(((v as usize) - 1) as usize)
        } else {
            None
        },
        None => None,
    }
}

/// The numbers at `pos` and behind it name a range of positions that `n`
/// values have.
pub open spec fn range_at(nums: Seq<Option<i64>>, pos: int, n: nat) -> bool {
    &&& index_at(nums, pos) matches Some(i)
    &&& index_at(nums, pos + 1) matches Some(j)
    &&& i <= j < n
}

/// From position `pos` on, the list holds `remaining` operations on `n`
/// values.
pub open spec fn operations_ok(nums: Seq<Option<i64>>, pos: int, remaining: nat, n: nat) -> bool
    decreases remaining,
{
    remaining == 0 || match number_at(nums, pos) {
        Some(kind) => if kind == 0 {
            &&& range_at(nums, pos + 1, n)
            &&& number_at(nums, pos + 3) is Some
            &&& operations_ok(nums, pos + 4, (remaining - 1) as nat, n)
        } else if kind == 1 {
            &&& range_at(nums, pos + 1, n)
            &&& operations_ok(nums, pos + 3, (remaining - 1) as nat, n)
        } else {
            false
        },
        None => false,
    }
}

/// The list holds two counts, as many values as the first count says and as
/// many operations on them as the second count says.
pub open spec fn well_formed(nums: Seq<Option<i64>>) -> bool {
    &&& count_at(nums, 0) matches Some(n)
    &&& count_at(nums, 1) matches Some(q)
    &&& n <= usize::MAX / 4
    &&& forall|p: int| 2 <= p < 2 + n ==> #[trigger] number_at(nums, p) is Some
    &&& operations_ok(nums, 2 + n, q as nat, n as nat)
}

/// The values that the list starts from.
pub open spec fn initial_values(nums: Seq<Option<i64>>) -> Seq<i64> {
    Seq::new(count_at(nums, 0)->0 as nat, |i: int| number_at(nums, 2 + i)->0)
}

/// The answers to the queries among the `remaining` operations that the list
/// holds from position `pos` on, run on `values`.
pub open spec fn answers_from(
    nums: Seq<Option<i64>>,
    pos: int,
    remaining: nat,
    values: Seq<i64>,
) -> Seq<i64>
    decreases remaining,
{
    if remaining == 0 {
        Seq::empty()
    } else {
        let i = index_at(nums, pos + 1)->0 as int;
        let j = index_at(nums, pos + 2)->0 as int;
        if number_at(nums, pos) == Some(0i64) {
            answers_from(
                nums,
                pos + 4,
                (remaining - 1) as nat,
                chmin_seq(values, i, j, number_at(nums, pos + 3)->0),
            )
        } else {
            seq![max_in(values, i, j)] + answers_from(
                nums,
                pos + 3,
                (remaining - 1) as nat,
                values,
            )
        }
    }
}

/// The answers to the queries of a well-formed list.
pub open spec fn answers(nums: Seq<Option<i64>>) -> Seq<i64> {
    answers_from(
        nums,
        2 + count_at(nums, 0)->0,
        count_at(nums, 1)->0 as nat,
        initial_values(nums),
    )
}

/// The answers written in decimal, one per line.
pub open spec fn rendered(answers: Seq<i64>) -> Seq<char> {
    joined(answers.map_values(|v: i64| decimal(v as int)))
}

fn read_index(nums: &[Option<i64>], pos: usize) -> (index: Option<usize>)
    ensures
        index == index_at(nums@, pos as int),
{
    if pos < nums.len() {
        match nums[pos] {
            Some(v) => {
                let one_based = #[verifier::truncate]
                (v as usize);
                if one_based >= 1 {
                    Some(one_based - 1)
                } else {
                    None
                }
            },
            None => None,
        }
    } else {
        None
    }
}

/// Whether the list holds two counts, as many values as the first count says
/// and as many operations as the second count says.
pub fn is_well_formed(nums: &[Option<i64>]) -> (ok: bool)
    ensures
        ok == well_formed(nums@),
{
    let Some(n) = read_count(nums, 0) else {
        return false;
    };
    let Some(q) = read_count(nums, 1) else {
        return false;
    };
    if n > usize::MAX / 4 {
        return false;
    }
    if n > 0 && (nums.len() < 2 || n > nums.len() - 2) {
        proof {
            assert(number_at(nums@, 2 + (n - 1)) is None);
        }
        return false;
    }
    let mut i: usize = 0;
    while i < n
        invariant
            i <= n,
            n > 0 ==> 2 + n <= nums.len(),
            count_at(nums@, 0) == Some(n),
            forall|p: int| 2 <= p < 2 + i ==> #[trigger] number_at(nums@, p) is Some,
        decreases n - i,
    {
        if nums[2 + i].is_none() {
            proof {
                assert(number_at(nums@, 2 + i) is None);
            }
            return false;
        }
        i = i + 1;
    }
    if q == 0 {
        return true;
    }
    let mut pos: usize = 2 + n;
    let mut remaining: usize = q;
    while remaining > 0
        invariant
            pos <= nums.len(),
            count_at(nums@, 0) == Some(n),
            count_at(nums@, 1) == Some(q),
            n <= usize::MAX / 4,
            forall|p: int| 2 <= p < 2 + n ==> #[trigger] number_at(nums@, p) is Some,
            operations_ok(nums@, 2 + n, q as nat, n as nat) == operations_ok(
                nums@,
                pos as int,
                remaining as nat,
                n as nat,
            ),
        decreases remaining,
    {
        if pos >= nums.len() {
            return false;
        }
        let Some(kind) = nums[pos] else {
            return false;
        };
        let width: usize = if kind == 0 {
            4
        } else if kind == 1 {
            3
        } else {
            return false;
        };
        if nums.len() - pos < width {
            proof {
                if kind == 0 {
                    assert(number_at(nums@, pos + 3) is None);
                } else {
                    assert(index_at(nums@, pos + 2) is None);
                }
            }
            return false;
        }
        let Some(i) = read_index(nums, pos + 1) else {
            return false;
        };
        let Some(j) = read_index(nums, pos + 2) else {
            return false;
        };
        if i > j || j >= n {
            return false;
        }
        if kind == 0 && nums[pos + 3].is_none() {
            return false;
        }
        pos = pos + width;
        remaining = remaining - 1;
    }
    true
}

/// Runs the operations of a well-formed list on its values and returns the
/// answers to its queries, in order.
pub fn answer(nums: &[Option<i64>]) -> (out: Vec<i64>)
    requires
        well_formed(nums@),
    ensures
        out@ == answers(nums@),
{
    let n = read_count(nums, 0).unwrap();
    let q = read_count(nums, 1).unwrap();

    let mut values: Vec<i64> = Vec::new();
    let mut i: usize = 0;
    while i < n
        invariant
            i <= n,
            well_formed(nums@),
            count_at(nums@, 0) == Some(n),
            values@ == initial_values(nums@).take(i as int),
        decreases n - i,
    {
        proof {
            assert(number_at(nums@, 2 + i) is Some);
        }
        values.push(nums[2 + i].unwrap());
        assert(values@ =~= initial_values(nums@).take(i + 1));
        i = i + 1;
    }
    assert(values@ =~= initial_values(nums@));

    let mut tree = SegmentTree::new(values.as_slice());
    let mut output: Vec<i64> = Vec::new();
    if q == 0 {
        return output;
    }
    proof {
        assert(number_at(nums@, 2 + n) is Some);
    }
    let mut pos: usize = 2 + n;
    let mut remaining: usize = q;
    while remaining > 0
        invariant
            tree.wf(),
            remaining > 0 ==> pos < nums.len(),
            tree@.len() == n,
            operations_ok(nums@, pos as int, remaining as nat, n as nat),
            answers(nums@) == output@ + answers_from(nums@, pos as int, remaining as nat, tree@),
        decreases remaining,
    {
        let op_type = nums[pos].unwrap();
        let i = read_index(nums, pos + 1).unwrap();
        let j = read_index(nums, pos + 2).unwrap();
        let ghost before = output@;
        let ghost rest = answers_from(nums@, pos as int, remaining as nat, tree@);
        if op_type == 0 {
            let t = nums[pos + 3].unwrap();
            tree.range_chmin(i, j, t);
            proof {
                assert(operations_ok(nums@, pos + 4, (remaining - 1) as nat, n as nat));
                if remaining > 1 {
                    assert(number_at(nums@, pos + 4) is Some);
                }
            }
            pos = pos + 4;
        } else {
            let ans = tree.range_max(i, j);
            output.push(ans);
            proof {
                assert(operations_ok(nums@, pos + 3, (remaining - 1) as nat, n as nat));
                if remaining > 1 {
                    assert(number_at(nums@, pos + 3) is Some);
                }
                assert(output@ + answers_from(
                    nums@,
                    pos + 3,
                    (remaining - 1) as nat,
                    tree@,
                ) =~= before + rest);
            }
            pos = pos + 3;
        }
        remaining = remaining - 1;
    }
    assert(output@ + Seq::<i64>::empty() =~= output@);
    output
}

fn render(answers: &Vec<i64>) -> (text: String)
    ensures
        text@ == rendered(answers@),
{
    let mut lines: Vec<String> = Vec::new();
    let mut i: usize = 0;
    while i < answers.len()
        invariant
            i <= answers.len(),
            lines@.len() == i,
            forall|k: int| 0 <= k < i ==> (#[trigger] lines@[k])@ == decimal(answers@[k] as int),
        decreases answers.len() - i,
    {
        lines.push(i64_to_string(answers[i]));
        i = i + 1;
    }
    assert(lines.deep_view() =~= answers@.map_values(|v: i64| decimal(v as int)));
    join_lines(&lines)
}

/// Runs the operations that `input` holds and returns the answers to its
/// queries, one per line. The numbers of `input` have to be well formed.
pub fn solve(input: &str) -> (output: String)
    requires
        well_formed(numbers_of(input@)),
    ensures
        output@ == rendered(answers(numbers_of(input@))),
{
    let nums = numbers(input);
    let out = answer(nums.as_slice());
    render(&out)
}

/// Runs the operations that `input` holds, as `solve` does, where its numbers
/// are well formed, and returns `None` where they are not.
pub fn try_solve(input: &str) -> (output: Option<String>)
    ensures
        match output {
            Some(text) => well_formed(numbers_of(input@)) && text@ == rendered(
                answers(numbers_of(input@)),
            ),
            None => !well_formed(numbers_of(input@)),
        },
{
    let nums = numbers(input);
    if is_well_formed(nums.as_slice()) {
        Some(solve(input))
    } else {
        None
    }
}

} // verus!
