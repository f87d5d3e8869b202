//! Nesting depth of the parentheses in a string.

use vstd::prelude::*;
use vstd::string::StringSliceAdditionalSpecFns;
use vstd::utf8::encode_utf8;

verus! {

/// The number of parentheses that are open after the characters of `s` were
/// read from left to right. A closing parenthesis that has no partner is
/// passed over.
pub open spec fn open_after(s: Seq<char>) -> nat
    decreases s.len(),
{
    if s.len() == 0 {
        0
    } else {
        let before = open_after(s.drop_last());
        if s.last() == '(' {
            before + 1
        } else if s.last() == ')' && before > 0 {
            (before - 1) as nat
        } else {
            before
        }
    }
}

/// A text has at most as many characters as its encoding has bytes.
proof fn lemma_chars_within_bytes(chars: Seq<char>)
    ensures
        chars.len() <= encode_utf8(chars).len(),
    decreases chars.len(),
{
    if chars.len() > 0 {
        lemma_chars_within_bytes(chars.drop_first());
    }
}

/// The largest number of parentheses of `s` that are open at one time.
pub fn max_depth(s: &str) -> (best: usize)
    ensures
        forall|i: int| 0 <= i <= s@.len() ==> open_after(#[trigger] s@.take(i)) <= best,
        exists|i: int| 0 <= i <= s@.len() && open_after(#[trigger] s@.take(i)) == best,
{
    // The bytes of the text fit in memory, and so the depth fits in a usize.
    let byte_count = s.as_bytes().len();
    proof {
        lemma_chars_within_bytes(s@);
        assert(s.spec_bytes() == encode_utf8(s@));
        assert(s@.len() <= byte_count);
    }
    let mut curr: usize = 0;
    let mut best: usize = 0;
    assert(s@.take(0).len() == 0);
    for ch in iter: s.chars()
        invariant
            iter.seq() == s@,
            s@.len() <= usize::MAX,
            curr == open_after(s@.take(iter.index())),
            curr <= iter.index(),
            forall|i: int| 0 <= i <= iter.index() ==> open_after(#[trigger] s@.take(i)) <= best,
            exists|i: int| 0 <= i <= iter.index() && open_after(#[trigger] s@.take(i)) == best,
    {
        proof {
            let i = iter.index();
            assert(s@.take(i + 1).drop_last() == s@.take(i));
            assert(s@.take(i + 1).last() == ch);
        }
        if ch == '(' {
            curr = curr + 1;
            best = best.max(curr);
        } else if ch == ')' {
            curr = curr.saturating_sub(1);
        }
    }
    best
}

} // verus!
