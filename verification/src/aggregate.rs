//! Aggregates of a range of a sequence of `i64` values: the largest value,
//! the smallest value, and the largest value below a bound.
//!
//! A range `[l, r]` is meant to lie within the sequence; it holds no value
//! where `l > r`.

use vstd::prelude::*;

verus! {

/// The value that stands for "no data" where a maximum is asked for: the
/// smallest `i64`.
pub const NEG_INF: i64 = i64::MIN;

/// The value that stands for "no data" where a minimum is asked for: the
/// largest `i64`.
pub const POS_INF: i64 = i64::MAX;

/// The larger of two values.
pub open spec fn max2(a: i64, b: i64) -> i64 {
    if a >= b {
        a
    } else {
        b
    }
}

/// The smaller of two values.
pub open spec fn min2(a: i64, b: i64) -> i64 {
    if a <= b {
        a
    } else {
        b
    }
}

/// The largest of the values `s[l..=r]`, `NEG_INF` for a range without
/// values.
pub open spec fn max_in(s: Seq<i64>, l: int, r: int) -> i64
    recommends
        0 <= l,
        r < s.len(),
    decreases r - l + 1,
{
    if l > r {
        NEG_INF
    } else {
        max2(s[r], max_in(s, l, r - 1))
    }
}

/// The smallest of the values `s[l..=r]`, `POS_INF` for a range without
/// values.
pub open spec fn min_in(s: Seq<i64>, l: int, r: int) -> i64
    recommends
        0 <= l,
        r < s.len(),
    decreases r - l + 1,
{
    if l > r {
        POS_INF
    } else {
        min2(s[r], min_in(s, l, r - 1))
    }
}

/// The largest of the values `s[l..=r]` that are below `bound`, `NEG_INF` if
/// there is none.
pub open spec fn max_below(s: Seq<i64>, l: int, r: int, bound: i64) -> i64
    recommends
        0 <= l,
        r < s.len(),
    decreases r - l + 1,
{
    if l > r {
        NEG_INF
    } else if s[r] < bound {
        max2(s[r], max_below(s, l, r - 1, bound))
    } else {
        max_below(s, l, r - 1, bound)
    }
}

/// `max_in` is an upper bound of the values in the range, and it is one of
/// them unless the range holds none.
pub proof fn lemma_max_in(s: Seq<i64>, l: int, r: int)
    ensures
        forall|k: int| l <= k <= r ==> #[trigger] s[k] <= max_in(s, l, r),
        (exists|k: int| l <= k <= r && #[trigger] s[k] == max_in(s, l, r)) || (l > r && max_in(
            s,
            l,
            r,
        ) == NEG_INF),
    decreases r - l + 1,
{
    if l <= r {
        lemma_max_in(s, l, r - 1);
        if max_in(s, l, r) == s[r] {
            assert(l <= r <= r && s[r] == max_in(s, l, r));
        } else {
            let k = choose|k: int| l <= k <= r - 1 && #[trigger] s[k] == max_in(s, l, r - 1);
            assert(l <= k <= r && s[k] == max_in(s, l, r));
        }
    }
}

/// `min_in` is a lower bound of the values in the range, and it is one of
/// them unless the range holds none.
pub proof fn lemma_min_in(s: Seq<i64>, l: int, r: int)
    ensures
        forall|k: int| l <= k <= r ==> #[trigger] s[k] >= min_in(s, l, r),
        (exists|k: int| l <= k <= r && #[trigger] s[k] == min_in(s, l, r)) || (l > r && min_in(
            s,
            l,
            r,
        ) == POS_INF),
    decreases r - l + 1,
{
    if l <= r {
        lemma_min_in(s, l, r - 1);
        if min_in(s, l, r) == s[r] {
            assert(l <= r <= r && s[r] == min_in(s, l, r));
        } else {
            let k = choose|k: int| l <= k <= r - 1 && #[trigger] s[k] == min_in(s, l, r - 1);
            assert(l <= k <= r && s[k] == min_in(s, l, r));
        }
    }
}

/// `max_below` is an upper bound of the values in the range that are below
/// `bound`, and it is one of them unless it is `NEG_INF`.
pub proof fn lemma_max_below(s: Seq<i64>, l: int, r: int, bound: i64)
    ensures
        forall|k: int|
            l <= k <= r && s[k] < bound ==> #[trigger] s[k] <= max_below(s, l, r, bound),
        max_below(s, l, r, bound) == NEG_INF || exists|k: int|
            l <= k <= r && s[k] < bound && #[trigger] s[k] == max_below(s, l, r, bound),
    decreases r - l + 1,
{
    if l <= r {
        lemma_max_below(s, l, r - 1, bound);
        let mb = max_below(s, l, r, bound);
        if mb != NEG_INF {
            if s[r] < bound && mb == s[r] {
                assert(l <= r <= r && s[r] < bound && s[r] == mb);
            } else {
                let k = choose|k: int|
                    l <= k <= r - 1 && s[k] < bound && #[trigger] s[k] == max_below(
                        s,
                        l,
                        r - 1,
                        bound,
                    );
                assert(l <= k <= r && s[k] < bound && s[k] == mb);
            }
        }
    }
}

/// Two sequences that hold the same values in a range have the same maximum
/// there.
pub proof fn lemma_max_in_same(s1: Seq<i64>, s2: Seq<i64>, l: int, r: int)
    requires
        forall|k: int| l <= k <= r ==> s1[k] == s2[k],
    ensures
        max_in(s1, l, r) == max_in(s2, l, r),
    decreases r - l + 1,
{
    if l <= r {
        lemma_max_in_same(s1, s2, l, r - 1);
    }
}

/// An upper bound of the values in a range that is one of them is their
/// maximum.
pub proof fn lemma_max_in_unique(s: Seq<i64>, l: int, r: int, m: i64)
    requires
        forall|k: int| l <= k <= r ==> #[trigger] s[k] <= m,
        (exists|k: int| l <= k <= r && #[trigger] s[k] == m) || (l > r && m == NEG_INF),
    ensures
        max_in(s, l, r) == m,
{
    lemma_max_in(s, l, r);
    if l <= r {
        let k = choose|k: int| l <= k <= r && #[trigger] s[k] == m;
        assert(s[k] <= max_in(s, l, r));
        let j = choose|j: int| l <= j <= r && #[trigger] s[j] == max_in(s, l, r);
        assert(s[j] <= m);
    }
}

/// A lower bound of the values in a range that is one of them is their
/// minimum.
pub proof fn lemma_min_in_unique(s: Seq<i64>, l: int, r: int, m: i64)
    requires
        forall|k: int| l <= k <= r ==> #[trigger] s[k] >= m,
        (exists|k: int| l <= k <= r && #[trigger] s[k] == m) || (l > r && m == POS_INF),
    ensures
        min_in(s, l, r) == m,
{
    lemma_min_in(s, l, r);
    if l <= r {
        let k = choose|k: int| l <= k <= r && #[trigger] s[k] == m;
        assert(s[k] >= min_in(s, l, r));
        let j = choose|j: int| l <= j <= r && #[trigger] s[j] == min_in(s, l, r);
        assert(s[j] >= m);
    }
}

/// An upper bound of the values below `bound` in a range that is one of them,
/// or `NEG_INF`, is the largest of them.
pub proof fn lemma_max_below_unique(s: Seq<i64>, l: int, r: int, bound: i64, m: i64)
    requires
        forall|k: int| l <= k <= r && s[k] < bound ==> #[trigger] s[k] <= m,
        m == NEG_INF || exists|k: int| l <= k <= r && s[k] < bound && #[trigger] s[k] == m,
    ensures
        max_below(s, l, r, bound) == m,
{
    lemma_max_below(s, l, r, bound);
    let mb = max_below(s, l, r, bound);
    if m != NEG_INF {
        let k = choose|k: int| l <= k <= r && s[k] < bound && #[trigger] s[k] == m;
        assert(s[k] <= mb);
    }
    if mb != NEG_INF {
        let k = choose|k: int| l <= k <= r && s[k] < bound && #[trigger] s[k] == mb;
        assert(s[k] <= m);
    }
}

} // verus!
