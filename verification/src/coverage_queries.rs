//! Answers, for a list of segments, whether some position of a range is
//! covered by a given number of them.
//!
//! The text holds numbers separated by white space: the number `n` of
//! segments and the number `m` of queries, then for each segment its two ends,
//! then for each query the two ends of its range, the left end not behind the
//! right end, and a count `k`. A query asks whether some position of its
//! range lies in exactly `k` segments. The
//! answers, `1` for yes and `0` for no, are written one per line.

use vstd::prelude::*;
use vstd::string::StringExecFns;
use crate::existence_tree::{occurs_in, SegmentTree};
use crate::text::{count_at, join_lines, joined, number_at, numbers, numbers_of, read_count};

verus! {

/// A segment of positions, given by its two ends.
#[derive(Debug, Clone, Copy)]
pub struct Segment {
    pub left: usize,
    pub right: usize,
}

/// A query: does some position of `[left, right]` lie in exactly `k`
/// segments?
#[derive(Debug, Clone, Copy)]
pub struct Query {
    pub left: usize,
    pub right: usize,
    pub k: i64,
}

/// The position that the number at `pos` names.
pub open spec fn coordinate_at(nums: Seq<Option<i64>>, pos: int) -> usize {
    number_at(nums, pos)->0 as usize
}

/// The segments of a list.
pub open spec fn segments_of(nums: Seq<Option<i64>>) -> Seq<Segment> {
    Seq::new(
        count_at(nums, 0)->0 as nat,
        |i: int|
            Segment {
                left: coordinate_at(nums, 2 + 2 * i),
                right: coordinate_at(nums, 2 + 2 * i + 1),
            },
    )
}

/// The queries of a list.
pub open spec fn queries_of(nums: Seq<Option<i64>>) -> Seq<Query> {
    let base = 2 + 2 * count_at(nums, 0)->0;
    Seq::new(
        count_at(nums, 1)->0 as nat,
        |j: int|
            Query {
                left: coordinate_at(nums, base + 3 * j),
                right: coordinate_at(nums, base + 3 * j + 1),
                k: number_at(nums, base + 3 * j + 2)->0,
            },
    )
}

/// The largest right end among the first `count` segments, `0` for none.
pub open spec fn max_right_segment(segments: Seq<Segment>, count: nat) -> usize
    decreases count,
{
    if count == 0 {
        0
    } else {
        let before = max_right_segment(segments, (count - 1) as nat);
        if segments[count - 1].right > before {
            segments[count - 1].right
        } else {
            before
        }
    }
}

/// The largest right end among the segments and the first `count` queries.
pub open spec fn max_right(segments: Seq<Segment>, queries: Seq<Query>, count: nat) -> usize
    decreases count,
{
    if count == 0 {
        max_right_segment(segments, segments.len())
    } else {
        let before = max_right(segments, queries, (count - 1) as nat);
        if queries[count - 1].right > before {
            queries[count - 1].right
        } else {
            before
        }
    }
}

/// How many of the first `count` segments start at or before `x`, less how
/// many of them end before `x`. For segments whose left end is not behind
/// their right end this is the number of them that cover `x`.
pub open spec fn covering(segments: Seq<Segment>, count: nat, x: int) -> int
    decreases count,
{
    if count == 0 {
        0
    } else {
        let seg = segments[count - 1];
        covering(segments, (count - 1) as nat, x) + (if seg.left <= x {
            1int
        } else {
            0int
        }) - (if seg.right < x {
            1int
        } else {
            0int
        })
    }
}

/// The coverage of each of the positions `0..len`.
pub open spec fn coverage(segments: Seq<Segment>, len: nat) -> Seq<i64> {
    Seq::new(len, |x: int| covering(segments, segments.len(), x) as i64)
}

/// The list holds two counts, the ends of as many segments as the first count
/// says, and the ends and the count of as many queries as the second count
/// says; no segment starts more than one position behind the largest right
/// end, the positions up to that end can be held in memory, and no query
/// has its left end behind its right end.
pub open spec fn well_formed(nums: Seq<Option<i64>>) -> bool {
    &&& count_at(nums, 0) matches Some(n)
    &&& count_at(nums, 1) matches Some(m)
    &&& forall|p: int| 2 <= p < 2 + 2 * n + 3 * m ==> #[trigger] number_at(nums, p) is Some
    &&& max_right(segments_of(nums), queries_of(nums), m as nat) < usize::MAX / 4
    &&& forall|i: int|
        0 <= i < n ==> (#[trigger] segments_of(nums)[i]).left <= max_right(
            segments_of(nums),
            queries_of(nums),
            m as nat,
        ) + 1
    &&& forall|j: int|
        0 <= j < m ==> (#[trigger] queries_of(nums)[j]).left <= queries_of(nums)[j].right
}

/// The answers to the queries of a well-formed list.
pub open spec fn answers(nums: Seq<Option<i64>>) -> Seq<bool> {
    let segments = segments_of(nums);
    let queries = queries_of(nums);
    let len = (max_right(segments, queries, queries.len()) + 1) as nat;
    Seq::new(
        queries.len(),
        |j: int|
            occurs_in(
                coverage(segments, len),
                queries[j].left as int,
                queries[j].right as int,
                queries[j].k,
            ),
    )
}

/// The answers written as `1` and `0`, one per line.
pub open spec fn rendered(answers: Seq<bool>) -> Seq<char> {
    joined(
        answers.map_values(
            |yes: bool|
                if yes {
                    seq!['1']
                } else {
                    seq!['0']
                },
        ),
    )
}

/// The sum of the first `k` numbers of `d`.
pub open spec fn prefix_sum(d: Seq<i64>, k: int) -> int
    decreases k,
{
    if k <= 0 {
        0
    } else {
        prefix_sum(d, k - 1) + d[k - 1]
    }
}

/// Changing one number of a sequence changes the sums of the prefixes that
/// hold it by as much.
proof fn lemma_prefix_update(d: Seq<i64>, a: int, v: i64, k: int)
    requires
        0 <= a < d.len(),
        0 <= k <= d.len(),
    ensures
        prefix_sum(d.update(a, v), k) == prefix_sum(d, k) + if a < k {
            v - d[a]
        } else {
            0
        },
    decreases k,
{
    if k > 0 {
        lemma_prefix_update(d, a, v, k - 1);
    }
}

proof fn lemma_covering_bounds(segments: Seq<Segment>, count: nat, x: int)
    ensures
        -count <= covering(segments, count, x) <= count,
    decreases count,
{
    if count > 0 {
        lemma_covering_bounds(segments, (count - 1) as nat, x);
    }
}

/// The coverage of each of the positions `0..len`, found by marking where
/// each segment starts and where it has ended and summing the marks up.
pub fn coverage_array(segments: &Vec<Segment>, len: usize) -> (cov: Vec<i64>)
    requires
        len < usize::MAX,
        segments.len() <= i64::MAX,
        forall|i: int|
            0 <= i < segments.len() ==> (#[trigger] segments[i]).left <= len && segments[i].right
                < usize::MAX,
    ensures
        cov@ == coverage(segments@, len as nat),
{
    let mut diff = vec![0_i64; len + 1];
    assert forall|x: int| 0 <= x <= len implies #[trigger] prefix_sum(diff@, x) == 0 by {
        lemma_prefix_zero(diff@, x);
    }
    let mut s: usize = 0;
    while s < segments.len()
        invariant
            s <= segments.len() <= i64::MAX,
            diff@.len() == len + 1,
            forall|i: int|
                0 <= i < segments.len() ==> (#[trigger] segments[i]).left <= len
                    && segments[i].right < usize::MAX,
            forall|y: int| 0 <= y <= len ==> -s <= #[trigger] diff@[y] <= s,
            forall|x: int|
                0 <= x < len ==> #[trigger] prefix_sum(diff@, x + 1) == covering(
                    segments@,
                    s as nat,
                    x,
                ),
        decreases segments.len() - s,
    {
        let seg = segments[s];
        let ghost d0 = diff@;
        let started = diff[seg.left] + 1;
        diff.set(seg.left, started);
        let ghost d1 = diff@;
        if seg.right + 1 < len {
            let ended = diff[seg.right + 1] - 1;
            diff.set(seg.right + 1, ended);
        }
        proof {
            let d2 = diff@;
            assert forall|x: int| 0 <= x < len implies #[trigger] prefix_sum(d2, x + 1) == covering(
                segments@,
                (s + 1) as nat,
                x,
            ) by {
                lemma_prefix_update(d0, seg.left as int, started, x + 1);
                if seg.right + 1 < len {
                    lemma_prefix_update(d1, seg.right + 1, d2[seg.right + 1], x + 1);
                }
                assert(prefix_sum(d0, x + 1) == covering(segments@, s as nat, x));
            }
        }
        s = s + 1;
    }

    let mut cov = vec![0_i64; len];
    let mut running = 0_i64;
    let mut x: usize = 0;
    while x < len
        invariant
            x <= len,
            cov@.len() == len,
            diff@.len() == len + 1,
            segments.len() <= i64::MAX,
            running == prefix_sum(diff@, x as int),
            forall|z: int|
                0 <= z < len ==> #[trigger] prefix_sum(diff@, z + 1) == covering(
                    segments@,
                    segments.len() as nat,
                    z,
                ),
            forall|z: int|
                0 <= z < x ==> #[trigger] cov@[z] == covering(segments@, segments.len() as nat, z),
        decreases len - x,
    {
        proof {
            lemma_covering_bounds(segments@, segments.len() as nat, x as int);
            assert(prefix_sum(diff@, x + 1) == covering(segments@, segments.len() as nat, x as int));
        }
        running = running + diff[x];
        cov.set(x, running);
        x = x + 1;
    }
    assert(cov@ =~= coverage(segments@, len as nat));
    cov
}

proof fn lemma_prefix_zero(d: Seq<i64>, k: int)
    requires
        0 <= k <= d.len(),
        forall|y: int| 0 <= y < d.len() ==> d[y] == 0,
    ensures
        prefix_sum(d, k) == 0,
    decreases k,
{
    if k > 0 {
        lemma_prefix_zero(d, k - 1);
    }
}

proof fn lemma_right_below_segments(segments: Seq<Segment>, count: nat, i: int)
    requires
        0 <= i < count <= segments.len(),
    ensures
        segments[i].right <= max_right_segment(segments, count),
    decreases count,
{
    if i < count - 1 {
        lemma_right_below_segments(segments, (count - 1) as nat, i);
    }
}

proof fn lemma_max_right_grows(segments: Seq<Segment>, queries: Seq<Query>, count: nat)
    ensures
        max_right_segment(segments, segments.len()) <= max_right(segments, queries, count),
    decreases count,
{
    if count > 0 {
        lemma_max_right_grows(segments, queries, (count - 1) as nat);
    }
}

/// No query ends behind the largest right end.
proof fn lemma_query_right_below_max(
    segments: Seq<Segment>,
    queries: Seq<Query>,
    count: nat,
    j: int,
)
    requires
        0 <= j < count <= queries.len(),
    ensures
        queries[j].right <= max_right(segments, queries, count),
    decreases count,
{
    if j < count - 1 {
        lemma_query_right_below_max(segments, queries, (count - 1) as nat, j);
    }
}

/// No segment ends behind the largest right end.
proof fn lemma_right_below_max(segments: Seq<Segment>, queries: Seq<Query>, i: int)
    requires
        0 <= i < segments.len(),
    ensures
        segments[i].right <= max_right(segments, queries, queries.len()),
{
    lemma_right_below_segments(segments, segments.len(), i);
    lemma_max_right_grows(segments, queries, queries.len());
}

fn read_coordinate(nums: &[Option<i64>], pos: usize) -> (x: usize)
    requires
        number_at(nums@, pos as int) is Some,
    ensures
        x == coordinate_at(nums@, pos as int),
{
    let v = nums[pos].unwrap();
    #[verifier::truncate]
    (v as usize)
}

/// Whether the list has a number at each of the positions `2..end`.
fn has_numbers(nums: &[Option<i64>], end: usize) -> (ok: bool)
    requires
        2 <= end <= nums.len(),
    ensures
        ok == forall|p: int| 2 <= p < end ==> #[trigger] number_at(nums@, p) is Some,
{
    let mut p: usize = 2;
    while p < end
        invariant
            2 <= p <= end <= nums.len(),
            forall|k: int| 2 <= k < p ==> #[trigger] number_at(nums@, k) is Some,
        decreases end - p,
    {
        if nums[p].is_none() {
            assert(number_at(nums@, p as int) is None);
            return false;
        }
        p = p + 1;
    }
    true
}

/// The segments of a list that has the numbers for them.
fn read_segments(nums: &[Option<i64>], n: usize) -> (segments: Vec<Segment>)
    requires
        count_at(nums@, 0) == Some(n),
        2 + 2 * n <= nums.len(),
        forall|p: int| 2 <= p < 2 + 2 * n ==> #[trigger] number_at(nums@, p) is Some,
    ensures
        segments@ == segments_of(nums@),
{
    let mut segments: Vec<Segment> = Vec::new();
    let mut i: usize = 0;
    while i < n
        invariant
            i <= n,
            2 + 2 * n <= nums.len(),
            count_at(nums@, 0) == Some(n),
            forall|p: int| 2 <= p < 2 + 2 * n ==> #[trigger] number_at(nums@, p) is Some,
            segments@ == segments_of(nums@).take(i as int),
        decreases n - i,
    {
        assert(number_at(nums@, 2 + 2 * i) is Some);
        assert(number_at(nums@, 2 + 2 * i + 1) is Some);
        let left = read_coordinate(nums, 2 + 2 * i);
        let right = read_coordinate(nums, 2 + 2 * i + 1);
        segments.push(Segment { left, right });
        assert(segments@ =~= segments_of(nums@).take(i + 1));
        i = i + 1;
    }
    assert(segments@ =~= segments_of(nums@));
    segments
}

/// The queries of a list that has the numbers for them.
fn read_queries(nums: &[Option<i64>], n: usize, m: usize) -> (queries: Vec<Query>)
    requires
        count_at(nums@, 0) == Some(n),
        count_at(nums@, 1) == Some(m),
        2 + 2 * n + 3 * m <= nums.len(),
        forall|p: int| 2 <= p < 2 + 2 * n + 3 * m ==> #[trigger] number_at(nums@, p) is Some,
    ensures
        queries@ == queries_of(nums@),
{
    let base = 2 + 2 * n;
    let mut queries: Vec<Query> = Vec::new();
    let mut j: usize = 0;
    while j < m
        invariant
            j <= m,
            base == 2 + 2 * n,
            2 + 2 * n + 3 * m <= nums.len(),
            count_at(nums@, 0) == Some(n),
            count_at(nums@, 1) == Some(m),
            forall|p: int| 2 <= p < 2 + 2 * n + 3 * m ==> #[trigger] number_at(nums@, p) is Some,
            queries@ == queries_of(nums@).take(j as int),
        decreases m - j,
    {
        assert(number_at(nums@, base + 3 * j) is Some);
        assert(number_at(nums@, base + 3 * j + 1) is Some);
        assert(number_at(nums@, base + 3 * j + 2) is Some);
        let left = read_coordinate(nums, base + 3 * j);
        let right = read_coordinate(nums, base + 3 * j + 1);
        let k = nums[base + 3 * j + 2].unwrap();
        queries.push(Query { left, right, k });
        assert(queries@ =~= queries_of(nums@).take(j + 1));
        j = j + 1;
    }
    assert(queries@ =~= queries_of(nums@));
    queries
}

/// The largest right end among the segments and the queries, `0` for none.
fn largest_right(segments: &Vec<Segment>, queries: &Vec<Query>) -> (max_coord: usize)
    ensures
        max_coord == max_right(segments@, queries@, queries@.len()),
{
    let mut max_coord: usize = 0;
    let mut i: usize = 0;
    while i < segments.len()
        invariant
            i <= segments.len(),
            max_coord == max_right_segment(segments@, i as nat),
        decreases segments.len() - i,
    {
        if segments[i].right > max_coord {
            max_coord = segments[i].right;
        }
        i = i + 1;
    }
    let mut j: usize = 0;
    while j < queries.len()
        invariant
            j <= queries.len(),
            max_coord == max_right(segments@, queries@, j as nat),
        decreases queries.len() - j,
    {
        if queries[j].right > max_coord {
            max_coord = queries[j].right;
        }
        j = j + 1;
    }
    max_coord
}

/// Whether no segment starts more than one position behind `max_coord`.
fn starts_within(segments: &Vec<Segment>, max_coord: usize) -> (ok: bool)
    requires
        max_coord < usize::MAX,
    ensures
        ok == forall|i: int| 0 <= i < segments.len() ==> (#[trigger] segments[i]).left <= max_coord + 1,
{
    let mut i: usize = 0;
    while i < segments.len()
        invariant
            i <= segments.len(),
            max_coord < usize::MAX,
            forall|k: int| 0 <= k < i ==> (#[trigger] segments[k]).left <= max_coord + 1,
        decreases segments.len() - i,
    {
        if segments[i].left > max_coord + 1 {
            return false;
        }
        i = i + 1;
    }
    true
}

/// Whether no query has its left end behind its right end.
fn ranges_ordered(queries: &Vec<Query>) -> (ok: bool)
    ensures
        ok == forall|j: int| 0 <= j < queries.len() ==> (#[trigger] queries[j]).left <= queries[j].right,
{
    let mut j: usize = 0;
    while j < queries.len()
        invariant
            j <= queries.len(),
            forall|k: int| 0 <= k < j ==> (#[trigger] queries[k]).left <= queries[k].right,
        decreases queries.len() - j,
    {
        if queries[j].left > queries[j].right {
            return false;
        }
        j = j + 1;
    }
    true
}

/// Whether the list is well formed.
pub fn is_well_formed(nums: &[Option<i64>]) -> (ok: bool)
    ensures
        ok == well_formed(nums@),
{
    let Some(n) = read_count(nums, 0) else {
        return false;
    };
    let Some(m) = read_count(nums, 1) else {
        return false;
    };
    if n == 0 && m == 0 {
        assert(segments_of(nums@).len() == 0 && queries_of(nums@).len() == 0);
        return true;
    }
    if nums.len() < 2 {
        assert(number_at(nums@, 2) is None);
        return false;
    }
    let available = nums.len() - 2;
    if n > available / 2 {
        assert(number_at(nums@, 2 + 2 * n - 1) is None);
        return false;
    }
    if m > (available - 2 * n) / 3 {
        assert(number_at(nums@, 2 + 2 * n + 3 * m - 1) is None);
        return false;
    }
    if !has_numbers(nums, 2 + 2 * n + 3 * m) {
        return false;
    }
    let segments = read_segments(nums, n);
    let queries = read_queries(nums, n, m);
    let max_coord = largest_right(&segments, &queries);
    if max_coord >= usize::MAX / 4 {
        return false;
    }
    starts_within(&segments, max_coord) && ranges_ordered(&queries)
}

/// The answers to the queries of a well-formed list, in order.
pub fn answer(nums: &[Option<i64>]) -> (out: Vec<bool>)
    requires
        well_formed(nums@),
    ensures
        out@ == answers(nums@),
{
    let n = read_count(nums, 0).unwrap();
    let m = read_count(nums, 1).unwrap();
    if n == 0 && m == 0 {
        let out: Vec<bool> = Vec::new();
        assert(out@ =~= answers(nums@));
        return out;
    }
    proof {
        assert(number_at(nums@, 2 + 2 * n + 3 * m - 1) is Some);
    }
    let segments = read_segments(nums, n);
    let queries = read_queries(nums, n, m);
    let max_coord = largest_right(&segments, &queries);

    proof {
        assert(2 + 2 * n <= nums.len() <= usize::MAX <= u64::MAX);
        assert forall|i: int| 0 <= i < segments.len() implies (#[trigger] segments[i]).right
            <= max_coord by {
            lemma_right_below_max(segments@, queries@, i);
        }
    }
    // The coverage of the positions up to the largest right end
    let len = max_coord + 1;
    let cover = coverage_array(&segments, len);
    let seg_tree = SegmentTree::new(cover.as_slice());

    let mut out: Vec<bool> = Vec::new();
    let mut j: usize = 0;
    while j < queries.len()
        invariant
            j <= queries.len(),
            seg_tree.wf(),
            seg_tree@ == coverage(segments@, len as nat),
            segments@ == segments_of(nums@),
            queries@ == queries_of(nums@),
            len == max_right(segments@, queries@, queries@.len()) + 1,
            well_formed(nums@),
            count_at(nums@, 1) == Some(queries.len()),
            out@ == answers(nums@).take(j as int),
        decreases queries.len() - j,
    {
        let query = queries[j];
        proof {
            lemma_query_right_below_max(segments@, queries@, queries@.len(), j as int);
            assert(queries_of(nums@)[j as int].left <= queries_of(nums@)[j as int].right);
        }
        let exists = seg_tree.exists_value_in_range(query.left, query.right, query.k);
        out.push(exists);
        assert(out@ =~= answers(nums@).take(j + 1));
        j = j + 1;
    }
    assert(out@ =~= answers(nums@));
    out
}

fn render(answers: &Vec<bool>) -> (text: String)
    ensures
        text@ == rendered(answers@),
{
    let mut lines: Vec<String> = Vec::new();
    let mut i: usize = 0;
    proof {
        reveal_strlit("1");
        reveal_strlit("0");
    }
    while i < answers.len()
        invariant
            i <= answers.len(),
            lines@.len() == i,
            "1"@ == seq!['1'],
            "0"@ == seq!['0'],
            forall|k: int|
                0 <= k < i ==> (#[trigger] lines@[k])@ == if answers@[k] {
                    seq!['1']
                } else {
                    seq!['0']
                },
        decreases answers.len() - i,
    {
        if answers[i] {
            lines.push(String::from_str("1"));
        } else {
            lines.push(String::from_str("0"));
        }
        i = i + 1;
    }
    assert(lines.deep_view() =~= answers@.map_values(
        |yes: bool|
            if yes {
                seq!['1']
            } else {
                seq!['0']
            },
    ));
    join_lines(&lines)
}

/// Answers the queries that `input` holds, one answer per line. The numbers
/// of `input` have to be well formed.
pub fn solve(input: &str) -> (output: String)
    requires
        well_formed(numbers_of(input@)),
    ensures
        output@ == rendered(answers(numbers_of(input@))),
{
    let nums = numbers(input);
    let out = answer(nums.as_slice());
    render(&out)
}

/// Answers the queries that `input` holds, as `solve` does, where its numbers
/// are well formed, and returns `None` where they are not.
pub fn try_solve(input: &str) -> (output: Option<String>)
    ensures
        match output {
            Some(text) => well_formed(numbers_of(input@)) && text@ == rendered(
                answers(numbers_of(input@)),
            ),
            None => !well_formed(numbers_of(input@)),
        },
{
    let nums = numbers(input);
    if is_well_formed(nums.as_slice()) {
        Some(solve(input))
    } else {
        None
    }
}

} // verus!
