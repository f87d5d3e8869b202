//! The number that an array of the numbers `0..=n` lacks.

use vstd::prelude::*;

verus! {

/// The exclusive or of the numbers `0..=n`.
pub open spec fn xor_upto(n: nat) -> u32
    decreases n,
{
    if n == 0 {
        0
    } else {
        xor_upto((n - 1) as nat) ^ (n as u32)
    }
}

/// The exclusive or of the numbers in `s`.
pub open spec fn xor_all(s: Seq<u32>) -> u32
    decreases s.len(),
{
    if s.len() == 0 {
        0
    } else {
        xor_all(s.drop_last()) ^ s.last()
    }
}

/// `s` holds each of the numbers `0..=s.len()` but `m`.
pub open spec fn lacks_only(s: Seq<u32>, m: u32) -> bool {
    &&& m <= s.len()
    &&& forall|v: u32| v <= s.len() && v != m ==> s.contains(v)
}

proof fn lemma_xor_swap(a: u32, b: u32, c: u32)
    ensures
        (a ^ b) ^ c == (a ^ c) ^ b,
        (a ^ b) ^ b == a,
        a ^ b == b ^ a,
        a ^ 0 == a,
{
    assert((a ^ b) ^ c == (a ^ c) ^ b) by (bit_vector);
    assert((a ^ b) ^ b == a) by (bit_vector);
    assert(a ^ b == b ^ a) by (bit_vector);
    assert(a ^ 0 == a) by (bit_vector);
}

/// Taking one number out of a sequence takes it out of the exclusive or.
proof fn lemma_xor_remove(s: Seq<u32>, j: int)
    requires
        0 <= j < s.len(),
    ensures
        xor_all(s) == xor_all(s.remove(j)) ^ s[j],
    decreases s.len(),
{
    if j == s.len() - 1 {
        assert(s.remove(j) =~= s.drop_last());
    } else {
        lemma_xor_remove(s.drop_last(), j);
        assert(s.remove(j).drop_last() =~= s.drop_last().remove(j));
        assert(s.remove(j).last() == s.last());
        lemma_xor_swap(xor_all(s.drop_last().remove(j)), s[j], s.last());
    }
}

/// A sequence of `n` numbers among which each of `0..n` occurs has the
/// exclusive or of these numbers.
proof fn lemma_xor_complete(s: Seq<u32>)
    requires
        s.len() <= u32::MAX,
        forall|v: u32| v < s.len() ==> s.contains(v),
    ensures
        s.len() == 0 ==> xor_all(s) == 0,
        s.len() > 0 ==> xor_all(s) == xor_upto((s.len() - 1) as nat),
    decreases s.len(),
{
    if s.len() > 0 {
        let top = (s.len() - 1) as u32;
        assert(s.contains(top));
        let j = choose|j: int| 0 <= j < s.len() && s[j] == top;
        let rest = s.remove(j);
        lemma_xor_remove(s, j);
        assert forall|v: u32| v < rest.len() implies rest.contains(v) by {
            assert(s.contains(v));
            let i = choose|i: int| 0 <= i < s.len() && s[i] == v;
            if i < j {
                assert(rest[i] == v);
            } else {
                assert(rest[i - 1] == v);
            }
        }
        lemma_xor_complete(rest);
        if rest.len() == 0 {
            lemma_xor_swap(0, top, 0);
            assert(0u32 ^ 0u32 == 0u32) by (bit_vector);
            assert(top == 0);
        }
    }
}

/// Where a sequence holds each of the numbers `0..=s.len()` but one, the
/// exclusive or of `0..=s.len()` and of the sequence is that one.
pub proof fn lemma_missing(s: Seq<u32>, m: u32)
    requires
        s.len() <= u32::MAX,
        lacks_only(s, m),
    ensures
        xor_upto(s.len()) ^ xor_all(s) == m,
{
    let full = s.push(m);
    assert forall|v: u32| v < full.len() implies full.contains(v) by {
        if v == m {
            assert(full[s.len() as int] == m);
        } else {
            assert(s.contains(v));
            let i = choose|i: int| 0 <= i < s.len() && s[i] == v;
            assert(full[i] == v);
        }
    }
    if s.len() < u32::MAX {
        lemma_xor_complete(full);
        assert(full.drop_last() =~= s);
        assert(xor_upto(s.len()) == xor_all(s) ^ m);
        lemma_xor_swap(xor_all(s), m, xor_all(s));
        lemma_xor_swap(m, xor_all(s), 0);
        let x = xor_all(s);
        assert((x ^ m) ^ x == m) by (bit_vector);
    } else {
        lemma_xor_full_range(s, m);
    }
}

/// The case of `lemma_missing` in which the sequence has `u32::MAX` numbers.
proof fn lemma_xor_full_range(s: Seq<u32>, m: u32)
    requires
        s.len() == u32::MAX,
        lacks_only(s, m),
    ensures
        xor_upto(s.len()) ^ xor_all(s) == m,
{
    // Take the number u32::MAX out, or note that it is the one that lacks.
    let n = s.len();
    let top = u32::MAX;
    if m == top {
        assert forall|v: u32| v < s.len() implies s.contains(v) by {}
        lemma_xor_complete(s);
        let x = xor_all(s);
        assert(xor_upto(n) == x ^ top);
        assert((x ^ top) ^ x == top) by (bit_vector);
    } else {
        assert(s.contains(top));
        let j = choose|j: int| 0 <= j < s.len() && s[j] == top;
        let rest = s.remove(j);
        lemma_xor_remove(s, j);
        let full = rest.push(m);
        assert forall|v: u32| v < full.len() implies full.contains(v) by {
            if v == m {
                assert(full[rest.len() as int] == m);
            } else {
                assert(s.contains(v));
                let i = choose|i: int| 0 <= i < s.len() && s[i] == v;
                if i < j {
                    assert(full[i] == v);
                } else {
                    assert(full[i - 1] == v);
                }
            }
        }
        lemma_xor_complete(full);
        assert(full.drop_last() =~= rest);
        let y = xor_all(rest);
        // xor_upto(n - 1) == y ^ m, xor_upto(n) == (y ^ m) ^ top, xor_all(s) == y ^ top
        assert(((y ^ m) ^ top) ^ (y ^ top) == m) by (bit_vector);
    }
}

/// The exclusive or of the numbers `0..=a.len()` and of the numbers in `a`.
/// Where `a` holds each of the numbers `0..=a.len()` but one, this is the
/// number that `a` lacks.
pub fn missing_number(a: &[u32]) -> (missing: u32)
    ensures
        missing == xor_upto((a.len() as u32) as nat) ^ xor_all(a@),
        forall|m: u32| a.len() <= u32::MAX && lacks_only(a@, m) ==> missing == m,
{
    let n = #[verifier::truncate]
    (a.len() as u32);
    let mut all: u32 = 0;
    let mut i: u32 = 0;
    while i < n
        invariant
            i <= n,
            all == xor_upto(i as nat),
        decreases n - i,
    {
        i = i + 1;
        all = all ^ i;
    }
    let mut arr: u32 = 0;
    let mut j: usize = 0;
    while j < a.len()
        invariant
            j <= a.len(),
            arr == xor_all(a@.take(j as int)),
        decreases a.len() - j,
    {
        proof {
            assert(a@.take(j + 1).drop_last() =~= a@.take(j as int));
        }
        arr = arr ^ a[j];
        j = j + 1;
    }
    proof {
        assert(a@.take(a.len() as int) =~= a@);
        assert forall|m: u32| a.len() <= u32::MAX && lacks_only(a@, m) implies all ^ arr == m by {
            lemma_missing(a@, m);
        }
    }
    all ^ arr
}

} // verus!
