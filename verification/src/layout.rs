//! Shape of an implicit complete binary tree laid out in a flat array.
//!
//! Node `i` has the children `2 * i` and `2 * i + 1`; node `1` is the root and
//! covers the index range `[0, n - 1]`. A node that covers `[left, right]`
//! with `left < right` splits it at `mid(left, right)`.

use vstd::prelude::*;

verus! {

/// The position at which a node covering `[left, right]` splits its range.
pub open spec fn mid(left: int, right: int) -> int {
    (left + right) / 2
}

/// Node `j` lies in the subtree rooted at node `root`.
pub open spec fn in_subtree(j: int, root: int) -> bool
    decreases j,
{
    j == root || (root >= 1 && j > root && in_subtree(j / 2, root))
}

/// Every node of the subtree rooted at `idx`, which covers `[left, right]`,
/// has an index below `cap`.
pub open spec fn fits(idx: int, left: int, right: int, cap: int) -> bool
    decreases right - left,
{
    &&& 1 <= idx < cap
    &&& left < right ==> {
        &&& fits(2 * idx, left, mid(left, right), cap)
        &&& fits(2 * idx + 1, mid(left, right) + 1, right, cap)
    }
}

/// The children of an inner node that fits below `cap` fit below `cap` too.
pub proof fn lemma_fits_children(idx: int, left: int, right: int, cap: int)
    requires
        fits(idx, left, right, cap),
        left < right,
    ensures
        fits(2 * idx, left, mid(left, right), cap),
        fits(2 * idx + 1, mid(left, right) + 1, right, cap),
        left <= mid(left, right) < right,
        1 <= idx,
        2 * idx + 1 < cap,
{
}

/// `w` is a power of two.
pub open spec fn is_pow2(w: int) -> bool
    decreases w,
{
    w == 1 || (w >= 2 && w % 2 == 0 && is_pow2(w / 2))
}

/// A power of two that is at least `n`, and below `2 * n` for positive `n`.
pub open spec fn pow2_cover(n: int) -> int
    decreases n,
{
    if n <= 1 {
        1
    } else {
        2 * pow2_cover((n + 1) / 2)
    }
}

pub proof fn lemma_pow2_cover(n: int)
    requires
        n >= 1,
    ensures
        is_pow2(pow2_cover(n)),
        n <= pow2_cover(n),
        n >= 2 ==> pow2_cover(n) <= 2 * n - 2,
        n == 1 ==> pow2_cover(n) == 1,
    decreases n,
{
    if n >= 2 {
        lemma_pow2_cover((n + 1) / 2);
        let half = pow2_cover((n + 1) / 2);
        assert(pow2_cover(n) == 2 * half);
        assert((2 * half) / 2 == half);
    }
}

/// A subtree fits below `cap` when some power of two `w` bounds the length of
/// its range and `(idx + 1) * w` does not exceed `cap`.
pub proof fn lemma_fits_by_width(idx: int, left: int, right: int, w: int, cap: int)
    requires
        1 <= idx,
        left <= right,
        right - left + 1 <= w,
        is_pow2(w),
        (idx + 1) * w <= cap,
    ensures
        fits(idx, left, right, cap),
    decreases right - left,
{
    assert(idx + 1 <= (idx + 1) * w) by (nonlinear_arith)
        requires
            w >= 1,
            idx >= 1,
    ;
    if left < right {
        let h = w / 2;
        let m = mid(left, right);
        assert(w == 2 * h);
        assert((2 * idx + 2) * h == (idx + 1) * w) by (nonlinear_arith)
            requires
                w == 2 * h,
        ;
        assert((2 * idx + 1) * h <= (2 * idx + 2) * h) by (nonlinear_arith)
            requires
                h >= 1,
        ;
        lemma_fits_by_width(2 * idx, left, m, h, cap);
        lemma_fits_by_width(2 * idx + 1, m + 1, right, h, cap);
    }
}

/// A tree over `n >= 1` positions fits in an array of `4 * n` nodes.
pub proof fn lemma_root_fits(n: int)
    requires
        n >= 1,
    ensures
        fits(1, 0, n - 1, 4 * n),
{
    lemma_pow2_cover(n);
    lemma_fits_by_width(1, 0, n - 1, pow2_cover(n), 4 * n);
}

/// The subtree of a child lies inside the subtree of its parent.
pub proof fn lemma_child_in_parent(j: int, idx: int)
    requires
        idx >= 1,
        in_subtree(j, 2 * idx) || in_subtree(j, 2 * idx + 1),
    ensures
        in_subtree(j, idx),
        j != idx,
    decreases j,
{
    if j == 2 * idx || j == 2 * idx + 1 {
        assert(j / 2 == idx);
        assert(in_subtree(idx, idx));
    } else {
        lemma_child_in_parent(j / 2, idx);
    }
}

/// The subtrees of the two children of a node share no node.
pub proof fn lemma_siblings_disjoint(j: int, idx: int)
    requires
        idx >= 1,
    ensures
        !(in_subtree(j, 2 * idx) && in_subtree(j, 2 * idx + 1)),
    decreases j,
{
    if in_subtree(j, 2 * idx) && in_subtree(j, 2 * idx + 1) {
        if j == 2 * idx {
        } else if j == 2 * idx + 1 {
            assert(j / 2 == idx);
            assert(!in_subtree(idx, 2 * idx));
        } else {
            lemma_siblings_disjoint(j / 2, idx);
        }
    }
}

/// Two node arrays hold the same nodes in the subtree rooted at `idx`.
pub open spec fn same_subtree<T>(t1: Seq<T>, t2: Seq<T>, idx: int) -> bool {
    &&& t1.len() == t2.len()
    &&& forall|j: int| 0 <= j < t1.len() && in_subtree(j, idx) ==> t1[j] == t2[j]
}

/// Two node arrays hold the same nodes outside the subtree rooted at `idx`.
pub open spec fn same_outside<T>(t1: Seq<T>, t2: Seq<T>, idx: int) -> bool {
    &&& t1.len() == t2.len()
    &&& forall|j: int| 0 <= j < t1.len() && !in_subtree(j, idx) ==> t1[j] == t2[j]
}

/// What changes only inside the subtree of one child leaves the subtree of
/// the other child, and everything outside their parent's subtree, as it was.
pub proof fn lemma_child_frame<T>(t1: Seq<T>, t2: Seq<T>, idx: int, in_left: bool)
    requires
        idx >= 1,
        same_outside(
            t1,
            t2,
            if in_left {
                2 * idx
            } else {
                2 * idx + 1
            },
        ),
    ensures
        same_subtree(
            t1,
            t2,
            if in_left {
                2 * idx + 1
            } else {
                2 * idx
            },
        ),
        same_outside(t1, t2, idx),
        0 <= idx < t1.len() ==> t1[idx] == t2[idx],
{
    assert forall|j: int| 0 <= j < t1.len() && in_subtree(j, 2 * idx + 1) && in_left implies t1[j]
        == t2[j] by {
        lemma_siblings_disjoint(j, idx);
    }
    assert forall|j: int| 0 <= j < t1.len() && in_subtree(j, 2 * idx) && !in_left implies t1[j]
        == t2[j] by {
        lemma_siblings_disjoint(j, idx);
    }
    assert forall|j: int| 0 <= j < t1.len() && !in_subtree(j, idx) implies t1[j] == t2[j] by {
        if in_subtree(j, 2 * idx) || in_subtree(j, 2 * idx + 1) {
            lemma_child_in_parent(j, idx);
        }
    }
    if in_subtree(idx, 2 * idx) || in_subtree(idx, 2 * idx + 1) {
        lemma_child_in_parent(idx, idx);
    }
}

} // verus!
