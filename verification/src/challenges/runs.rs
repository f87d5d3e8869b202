//! Run-length encoding of a string.

use itertools::Itertools;
use vstd::prelude::*;

verus! {

/// The string that a sequence of runs stands for: each character repeated as
/// often as its count says.
pub open spec fn expand(runs: Seq<(char, usize)>) -> Seq<char>
    decreases runs.len(),
{
    if runs.len() == 0 {
        Seq::empty()
    } else {
        expand(runs.drop_last()) + Seq::new(runs.last().1 as nat, |i: int| runs.last().0)
    }
}

/// `runs` is the run-length encoding of `s`: it stands for `s`, no run is
/// empty, and no two neighbouring runs repeat the same character.
pub open spec fn is_rle(runs: Seq<(char, usize)>, s: Seq<char>) -> bool {
    &&& expand(runs) == s
    &&& forall|i: int| 0 <= i < runs.len() ==> (#[trigger] runs[i]).1 > 0
    &&& forall|i: int| 0 < i < runs.len() ==> runs[i - 1].0 != (#[trigger] runs[i]).0
}

/// Calls `Itertools::chunk_by` on the characters of `s`, with the character
/// itself as the key, and hands out the key and the length of each chunk.
/// Trusted: the chunks are the maximal runs of equal characters, in order, so
/// that what comes out is the run-length encoding of `s`.
#[verifier::external_body]
fn chunk_lengths(s: &str) -> (runs: Vec<(char, usize)>)
    ensures
        is_rle(runs@, s@),
{
    s.chars().chunk_by(|&c| c).into_iter().map(|(ch, group)| (ch, group.count())).collect()
}

/// The run-length encoding of `s`.
pub fn rle(s: &str) -> (runs: Vec<(char, usize)>)
    ensures
        is_rle(runs@, s@),
{
    chunk_lengths(s)
}

/// What the last run adds to the string that the runs before it stand for.
proof fn lemma_last_run(runs: Seq<(char, usize)>)
    requires
        runs.len() > 0,
    ensures
        expand(runs).len() == expand(runs.drop_last()).len() + runs.last().1,
        expand(runs).take(expand(runs.drop_last()).len() as int) == expand(runs.drop_last()),
        forall|i: int|
            expand(runs.drop_last()).len() <= i < expand(runs).len() ==> expand(runs)[i]
                == runs.last().0,
{
    let front = expand(runs.drop_last());
    assert(expand(runs).take(front.len() as int) =~= front);
}

/// The runs before the last run of an encoding are an encoding again.
proof fn lemma_front_is_rle(runs: Seq<(char, usize)>, s: Seq<char>)
    requires
        runs.len() > 0,
        is_rle(runs, s),
    ensures
        is_rle(runs.drop_last(), s.take(s.len() - runs.last().1)),
        s.len() >= runs.last().1,
{
    lemma_last_run(runs);
    let front = runs.drop_last();
    assert forall|i: int| 0 <= i < front.len() implies (#[trigger] front[i]).1 > 0 by {
        assert(runs[i].1 > 0);
    }
    assert forall|i: int| 0 < i < front.len() implies front[i - 1].0 != (#[trigger] front[i]).0 by {
        assert(runs[i - 1].0 != runs[i].0);
    }
}

/// A string has one run-length encoding only.
pub proof fn lemma_rle_unique(r1: Seq<(char, usize)>, r2: Seq<(char, usize)>, s: Seq<char>)
    requires
        is_rle(r1, s),
        is_rle(r2, s),
    ensures
        r1 == r2,
    decreases r1.len(),
{
    if r1.len() == 0 || r2.len() == 0 {
        if r1.len() > 0 {
            lemma_last_run(r1);
            assert(r1[r1.len() - 1].1 > 0);
        }
        if r2.len() > 0 {
            lemma_last_run(r2);
            assert(r2[r2.len() - 1].1 > 0);
        }
        assert(r1 =~= r2);
    } else {
        lemma_last_run(r1);
        lemma_last_run(r2);
        let n1 = r1.last().1 as int;
        let n2 = r2.last().1 as int;
        assert(r1[r1.len() - 1].1 > 0 && r2[r2.len() - 1].1 > 0);
        assert(s[s.len() - 1] == r1.last().0 && s[s.len() - 1] == r2.last().0);
        lemma_last_run_length(r1, r2, s);
        lemma_last_run_length(r2, r1, s);
        lemma_front_is_rle(r1, s);
        lemma_front_is_rle(r2, s);
        lemma_rle_unique(r1.drop_last(), r2.drop_last(), s.take(s.len() - n1));
        assert(r1 =~= r1.drop_last().push(r1.last()));
        assert(r2 =~= r2.drop_last().push(r2.last()));
    }
}

/// The last run of one encoding of a string is not shorter than the last run
/// of another.
proof fn lemma_last_run_length(one: Seq<(char, usize)>, other: Seq<(char, usize)>, s: Seq<char>)
    requires
        is_rle(one, s),
        is_rle(other, s),
        one.len() > 0,
        other.len() > 0,
    ensures
        one.last().1 >= other.last().1,
{
    lemma_last_run(one);
    lemma_last_run(other);
    if one.last().1 < other.last().1 {
        let front = one.drop_last();
        let at = expand(front).len() - 1;
        if front.len() == 0 {
            assert(expand(front).len() == 0);
        } else {
            lemma_last_run(front);
            assert(front[front.len() - 1].1 > 0) by {
                assert(one[front.len() - 1].1 > 0);
            }
            assert(one[one.len() - 2].0 != one[one.len() - 1].0);
            assert(expand(front)[at] == front.last().0);
            assert(expand(one).take(expand(front).len() as int)[at] == s[at]);
            assert(s[at] == other.last().0);
            assert(s[s.len() - 1] == one.last().0 && s[s.len() - 1] == other.last().0);
        }
    }
}

} // verus!
