//! A static segment tree that answers whether a value occurs in an index
//! range.
//!
//! Each node keeps the smallest and the largest value of its range. A query
//! descends from the root and gives up on a subtree as soon as the value asked
//! for lies outside what the subtree can hold.
//!
//! The range of a query has to lie within the tree. A tree over no values
//! takes any range and holds no value in it.

use vstd::prelude::*;
use crate::aggregate::{
    lemma_max_in, lemma_max_in_unique, lemma_min_in, lemma_min_in_unique, max2, max_in, min2,
    min_in, NEG_INF, POS_INF,
};
use crate::layout::{
    fits, in_subtree, lemma_child_frame, lemma_child_in_parent, lemma_fits_children,
    lemma_root_fits, mid, same_outside, same_subtree,
};

verus! {

/// What a node knows of its range: the smallest and the largest value.
#[derive(Debug, Clone, Copy, PartialEq, Eq, Structural)]
pub struct MinMaxNode {
    pub min_value: i64,
    pub max_value: i64,
}

/// The summary of a whole sequence of values.
pub open spec fn summary(s: Seq<i64>) -> MinMaxNode {
    MinMaxNode { min_value: min_in(s, 0, s.len() - 1), max_value: max_in(s, 0, s.len() - 1) }
}

/// The value `k` occurs in `s[l..=r]`, a range that is meant to lie within
/// the sequence.
pub open spec fn occurs_in(s: Seq<i64>, l: int, r: int, k: i64) -> bool
    recommends
        0 <= l,
        r < s.len(),
{
    exists|i: int| l <= i <= r && #[trigger] s[i] == k
}

impl MinMaxNode {
    /// The parent summary of two child summaries.
    pub open spec fn merged(left: MinMaxNode, right: MinMaxNode) -> MinMaxNode {
        MinMaxNode {
            min_value: min2(left.min_value, right.min_value),
            max_value: max2(left.max_value, right.max_value),
        }
    }

    /// The summary of a range that holds the single value `value`.
    pub fn from_single(value: i64) -> (node: Self)
        ensures
            node == (MinMaxNode { min_value: value, max_value: value }),
    {
        Self { min_value: value, max_value: value }
    }

    /// The summary of a range without data.
    pub fn empty() -> (node: Self)
        ensures
            node == (MinMaxNode { min_value: POS_INF, max_value: NEG_INF }),
    {
        Self { min_value: i64::MAX, max_value: i64::MIN }
    }

    /// Merges the summaries of two adjacent ranges into that of their union.
    pub fn merge(left: MinMaxNode, right: MinMaxNode) -> (parent: MinMaxNode)
        ensures
            parent == MinMaxNode::merged(left, right),
    {
        MinMaxNode {
            min_value: left.min_value.min(right.min_value),
            max_value: left.max_value.max(right.max_value),
        }
    }
}

/// The value that the subtree rooted at node `idx`, which covers
/// `[left, right]`, holds at position `k`: the one stored at the leaf of `k`.
spec fn value_at(t: Seq<MinMaxNode>, idx: int, left: int, right: int, k: int) -> i64
    decreases right - left,
{
    if left >= right {
        t[idx].min_value
    } else if k <= mid(left, right) {
        value_at(t, 2 * idx, left, mid(left, right), k)
    } else {
        value_at(t, 2 * idx + 1, mid(left, right) + 1, right, k)
    }
}

/// Every leaf of the subtree rooted at `idx` holds one value, and every inner
/// node holds the merge of its two children.
spec fn subtree_ok(t: Seq<MinMaxNode>, idx: int, left: int, right: int) -> bool
    decreases right - left,
{
    if left >= right {
        t[idx].min_value == t[idx].max_value
    } else {
        &&& subtree_ok(t, 2 * idx, left, mid(left, right))
        &&& subtree_ok(t, 2 * idx + 1, mid(left, right) + 1, right)
        &&& t[idx] == MinMaxNode::merged(t[2 * idx], t[2 * idx + 1])
    }
}

/// What a subtree holds depends on the nodes of that subtree only.
proof fn lemma_same_subtree(
    t1: Seq<MinMaxNode>,
    t2: Seq<MinMaxNode>,
    idx: int,
    left: int,
    right: int,
)
    requires
        same_subtree(t1, t2, idx),
        fits(idx, left, right, t1.len() as int),
    ensures
        forall|k: int| #[trigger]
            value_at(t1, idx, left, right, k) == value_at(t2, idx, left, right, k),
        subtree_ok(t1, idx, left, right) == subtree_ok(t2, idx, left, right),
    decreases right - left,
{
    assert(in_subtree(idx, idx));
    if left < right {
        let m = mid(left, right);
        lemma_fits_children(idx, left, right, t1.len() as int);
        assert forall|j: int| 0 <= j < t1.len() && in_subtree(j, 2 * idx) implies t1[j] == t2[j] by {
            lemma_child_in_parent(j, idx);
        }
        assert forall|j: int| 0 <= j < t1.len() && in_subtree(j, 2 * idx + 1) implies t1[j]
            == t2[j] by {
            lemma_child_in_parent(j, idx);
        }
        assert(in_subtree(2 * idx, 2 * idx));
        assert(in_subtree(2 * idx + 1, 2 * idx + 1));
        lemma_same_subtree(t1, t2, 2 * idx, left, m);
        lemma_same_subtree(t1, t2, 2 * idx + 1, m + 1, right);
        assert forall|k: int| #[trigger]
            value_at(t1, idx, left, right, k) == value_at(t2, idx, left, right, k) by {
            if k <= m {
                assert(value_at(t1, 2 * idx, left, m, k) == value_at(t2, 2 * idx, left, m, k));
            } else {
                assert(value_at(t1, 2 * idx + 1, m + 1, right, k) == value_at(
                    t2,
                    2 * idx + 1,
                    m + 1,
                    right,
                    k,
                ));
            }
        }
    }
}

/// The root of a subtree in order holds the smallest and the largest of the
/// values that the subtree holds.
proof fn lemma_bounds(t: Seq<MinMaxNode>, idx: int, left: int, right: int)
    requires
        left <= right,
        subtree_ok(t, idx, left, right),
    ensures
        forall|k: int|
            left <= k <= right ==> t[idx].min_value <= #[trigger] value_at(t, idx, left, right, k)
                <= t[idx].max_value,
        exists|k: int|
            left <= k <= right && #[trigger] value_at(t, idx, left, right, k) == t[idx].min_value,
        exists|k: int|
            left <= k <= right && #[trigger] value_at(t, idx, left, right, k) == t[idx].max_value,
    decreases right - left,
{
    if left < right {
        let m = mid(left, right);
        let lc = 2 * idx;
        let rc = 2 * idx + 1;
        lemma_bounds(t, lc, left, m);
        lemma_bounds(t, rc, m + 1, right);
        assert forall|k: int| left <= k <= right implies t[idx].min_value <= #[trigger] value_at(
            t,
            idx,
            left,
            right,
            k,
        ) <= t[idx].max_value by {
            if k <= m {
                assert(t[lc].min_value <= value_at(t, lc, left, m, k) <= t[lc].max_value);
            } else {
                assert(t[rc].min_value <= value_at(t, rc, m + 1, right, k) <= t[rc].max_value);
            }
        }
        let a1 = choose|k: int|
            left <= k <= m && #[trigger] value_at(t, lc, left, m, k) == t[lc].min_value;
        let a2 = choose|k: int|
            left <= k <= m && #[trigger] value_at(t, lc, left, m, k) == t[lc].max_value;
        let b1 = choose|k: int|
            m + 1 <= k <= right && #[trigger] value_at(t, rc, m + 1, right, k) == t[rc].min_value;
        let b2 = choose|k: int|
            m + 1 <= k <= right && #[trigger] value_at(t, rc, m + 1, right, k) == t[rc].max_value;
        assert(value_at(t, idx, left, right, a1) == t[lc].min_value);
        assert(value_at(t, idx, left, right, a2) == t[lc].max_value);
        assert(value_at(t, idx, left, right, b1) == t[rc].min_value);
        assert(value_at(t, idx, left, right, b2) == t[rc].max_value);
    } else {
        assert(value_at(t, idx, left, right, left) == t[idx].min_value);
    }
}

/// A segment tree over a fixed sequence of `i64` values that answers whether
/// a value occurs in a range of positions.
pub struct SegmentTree {
    n: usize,
    tree: Vec<MinMaxNode>,
}

impl View for SegmentTree {
    type V = Seq<i64>;

    /// The values that the tree was built over, by position.
    closed spec fn view(&self) -> Seq<i64> {
        Seq::new(self.n as nat, |k: int| value_at(self.tree@, 1, 0, self.n - 1, k))
    }
}

impl SegmentTree {
    /// The tree has the size it was built with and every node summarizes the
    /// values below it.
    pub closed spec fn wf(&self) -> bool {
        &&& self.n <= usize::MAX / 4
        &&& self.tree@.len() == 4 * (if self.n >= 1 {
            self.n as int
        } else {
            1
        })
        &&& self.n > 0 ==> subtree_ok(self.tree@, 1, 0, self.n - 1)
        &&& self.n == 0 ==> forall|i: int|
            0 <= i < self.tree@.len() ==> #[trigger] self.tree@[i] == (MinMaxNode {
                min_value: POS_INF,
                max_value: NEG_INF,
            })
    }

    /// The nodes that the tree keeps, by index: node `1` is the root, and the
    /// children of node `i` are the nodes `2 * i` and `2 * i + 1`.
    pub closed spec fn nodes(&self) -> Seq<MinMaxNode> {
        self.tree@
    }

    /// The number of nodes that the tree keeps.
    pub open spec fn node_count(&self) -> nat {
        self.nodes().len()
    }

    /// Every node of a tree that holds no value is the summary of a range
    /// without data.
    pub proof fn lemma_empty_tree(&self)
        requires
            self.wf(),
            self@.len() == 0,
        ensures
            forall|i: int|
                0 <= i < self.nodes().len() ==> #[trigger] self.nodes()[i] == (MinMaxNode {
                    min_value: POS_INF,
                    max_value: NEG_INF,
                }),
    {
    }

    /// A tree keeps four nodes for each value it holds, and four nodes where it
    /// holds none.
    pub proof fn lemma_node_count(&self)
        requires
            self.wf(),
        ensures
            self.node_count() == 4 * (if self@.len() >= 1 {
                self@.len()
            } else {
                1
            }),
    {
    }

    /// The summary stored at the root of the tree.
    pub open spec fn root_node(&self) -> MinMaxNode {
        self.nodes()[1]
    }

    /// The root of a tree holds the smallest and the largest of the values
    /// that the tree was built over.
    pub proof fn lemma_root_summary(&self)
        requires
            self.wf(),
        ensures
            self.root_node() == summary(self@),
    {
        let s = self@;
        let t = self.tree@;
        let hi = self.n - 1;
        lemma_max_in(s, 0, hi);
        lemma_min_in(s, 0, hi);
        if self.n > 0 {
            lemma_bounds(t, 1, 0, hi);
            let k1 = choose|k: int|
                0 <= k <= hi && #[trigger] value_at(t, 1, 0, hi, k) == t[1].min_value;
            let k2 = choose|k: int|
                0 <= k <= hi && #[trigger] value_at(t, 1, 0, hi, k) == t[1].max_value;
            assert(s[k1] == t[1].min_value);
            assert(s[k2] == t[1].max_value);
            assert forall|k: int| 0 <= k <= hi implies t[1].min_value <= #[trigger] s[k]
                <= t[1].max_value by {
                assert(t[1].min_value <= value_at(t, 1, 0, hi, k) <= t[1].max_value);
            }
        }
    }

    /// Builds the tree over `values`.
    pub fn new(values: &[i64]) -> (tree: Self)
        requires
            values.len() <= usize::MAX / 4,
        ensures
            tree.wf(),
            tree@ == values@,
            tree.root_node() == summary(values@),
            tree.node_count() == 4 * (if values.len() >= 1 {
                values.len()
            } else {
                1
            }),
            values.len() == 0 ==> forall|i: int|
                0 <= i < tree.nodes().len() ==> #[trigger] tree.nodes()[i] == (MinMaxNode {
                    min_value: POS_INF,
                    max_value: NEG_INF,
                }),
    {
        let n = values.len();
        let size = 4 * n.max(1);
        let mut st = Self { n, tree: vec![MinMaxNode::empty(); size] };

        if n > 0 {
            proof {
                lemma_root_fits(n as int);
            }
            st.build(1, 0, n - 1, values);
        }
        assert(st@ =~= values@);
        proof {
            st.lemma_root_summary();
        }
        st
    }

    fn build(&mut self, index: usize, left: usize, right: usize, values: &[i64])
        requires
            left <= right < values.len() <= usize::MAX / 4,
            fits(index as int, left as int, right as int, old(self).tree@.len() as int),
        ensures
            final(self).n == old(self).n,
            same_outside(old(self).tree@, final(self).tree@, index as int),
            subtree_ok(final(self).tree@, index as int, left as int, right as int),
            forall|k: int|
                left <= k <= right ==> #[trigger] value_at(
                    final(self).tree@,
                    index as int,
                    left as int,
                    right as int,
                    k,
                ) == values@[k],
        decreases right - left,
    {
        if left == right {
            self.tree.set(index, MinMaxNode::from_single(values[left]));
            proof {
                assert(in_subtree(index as int, index as int));
            }
            return ;
        }
        proof {
            lemma_fits_children(index as int, left as int, right as int, self.tree@.len() as int);
            assert(self.tree@.len() == self.tree.len());
        }
        let mid = (left + right) / 2;
        let left_child = index * 2;
        let right_child = left_child + 1;

        let ghost t0 = self.tree@;
        self.build(left_child, left, mid, values);
        let ghost t1 = self.tree@;
        self.build(right_child, mid + 1, right, values);
        let ghost t2 = self.tree@;
        self.tree.set(index, MinMaxNode::merge(self.tree[left_child], self.tree[right_child]));
        proof {
            let t3 = self.tree@;
            let (i, l, r, m) = (index as int, left as int, right as int, mid as int);
            lemma_child_frame(t0, t1, i, true);
            lemma_child_frame(t1, t2, i, false);
            lemma_same_subtree(t1, t2, 2 * i, l, m);
            assert(in_subtree(i, i));
            assert forall|j: int| 0 <= j < t2.len() && in_subtree(j, 2 * i) implies t2[j]
                == t3[j] by {
                lemma_child_in_parent(j, i);
            }
            assert forall|j: int| 0 <= j < t2.len() && in_subtree(j, 2 * i + 1) implies t2[j]
                == t3[j] by {
                lemma_child_in_parent(j, i);
            }
            lemma_same_subtree(t2, t3, 2 * i, l, m);
            lemma_same_subtree(t2, t3, 2 * i + 1, m + 1, r);
            assert forall|k: int| l <= k <= r implies #[trigger] value_at(t3, i, l, r, k)
                == values@[k] by {
                if k <= m {
                    assert(value_at(t1, 2 * i, l, m, k) == value_at(t2, 2 * i, l, m, k));
                    assert(value_at(t2, 2 * i, l, m, k) == value_at(t3, 2 * i, l, m, k));
                } else {
                    assert(value_at(t2, 2 * i + 1, m + 1, r, k) == value_at(
                        t3,
                        2 * i + 1,
                        m + 1,
                        r,
                        k,
                    ));
                }
            }
        }
    }

    /// Whether `k` is the value at some position of `[ql, qr]`. The range has
    /// to lie within the tree; a tree that holds no value holds `k` nowhere.
    pub fn exists_value_in_range(&self, ql: usize, qr: usize, k: i64) -> (found: bool)
        requires
            self.wf(),
            self@.len() == 0 || ql <= qr < self@.len(),
        ensures
            self@.len() == 0 ==> !found,
            self@.len() > 0 ==> found == occurs_in(self@, ql as int, qr as int, k),
    {
        if self.n == 0 {
            return false;
        }
        proof {
            lemma_root_fits(self.n as int);
        }
        let found = self.exists_value_in_range_rec(1, 0, self.n - 1, ql, qr, k);
        proof {
            let s = self@;
            let t = self.tree@;
            let hi = self.n - 1;
            if found {
                let i = choose|i: int|
                    0 <= i <= hi && ql <= i <= qr && #[trigger] value_at(t, 1, 0, hi, i) == k;
                assert(s[i] == k);
            }
            if occurs_in(s, ql as int, qr as int, k) {
                let i = choose|i: int| ql <= i <= qr && #[trigger] s[i] == k;
                assert(value_at(t, 1, 0, hi, i) == k);
            }
        }
        found
    }

    fn exists_value_in_range_rec(
        &self,
        index: usize,
        left: usize,
        right: usize,
        ql: usize,
        qr: usize,
        k: i64,
    ) -> (found: bool)
        requires
            left <= right <= usize::MAX / 4,
            fits(index as int, left as int, right as int, self.tree@.len() as int),
            subtree_ok(self.tree@, index as int, left as int, right as int),
        ensures
            found == exists|i: int|
                left <= i <= right && ql <= i <= qr && #[trigger] value_at(
                    self.tree@,
                    index as int,
                    left as int,
                    right as int,
                    i,
                ) == k,
        decreases right - left,
    {
        let ghost t = self.tree@;
        let ghost (ix, l, r) = (index as int, left as int, right as int);
        // No overlap
        if right < ql || qr < left {
            return false;
        }
        assert(self.tree@.len() == self.tree.len());
        let node = self.tree[index];
        proof {
            lemma_bounds(t, ix, l, r);
        }

        // The value lies outside what this subtree can hold
        if k < node.min_value || k > node.max_value {
            return false;
        }
        // Leaf node: single position

        if left == right {
            proof {
                assert(value_at(t, ix, l, r, l) == node.min_value);
            }
            return node.min_value == k;
        }
        proof {
            lemma_fits_children(ix, l, r, t.len() as int);
        }
        let mid = (left + right) / 2;
        let left_child = index * 2;
        let right_child = left_child + 1;
        let ghost m = mid as int;

        // Check left child first; if found, no need to check right.
        if self.exists_value_in_range_rec(left_child, left, mid, ql, qr, k) {
            proof {
                let i = choose|i: int|
                    l <= i <= m && ql <= i <= qr && #[trigger] value_at(t, 2 * ix, l, m, i) == k;
                assert(value_at(t, ix, l, r, i) == k);
            }
            return true;
        }
        // Otherwise, check right child.

        let found = self.exists_value_in_range_rec(right_child, mid + 1, right, ql, qr, k);
        proof {
            if found {
                let i = choose|i: int|
                    m + 1 <= i <= r && ql <= i <= qr && #[trigger] value_at(
                        t,
                        2 * ix + 1,
                        m + 1,
                        r,
                        i,
                    ) == k;
                assert(value_at(t, ix, l, r, i) == k);
            }
            if exists|i: int| l <= i <= r && ql <= i <= qr && #[trigger] value_at(t, ix, l, r, i) == k {
                let i = choose|i: int|
                    l <= i <= r && ql <= i <= qr && #[trigger] value_at(t, ix, l, r, i) == k;
                if i <= m {
                    assert(value_at(t, 2 * ix, l, m, i) == k);
                } else {
                    assert(value_at(t, 2 * ix + 1, m + 1, r, i) == k);
                }
            }
        }
        found
    }

    /// The summary of all the values that the tree was built over.
    pub fn root(&self) -> (node: MinMaxNode)
        requires
            self.wf(),
        ensures
            node == self.root_node(),
            node == summary(self@),
    {
        proof {
            self.lemma_root_summary();
        }
        self.tree[1]
    }
}

/// The merge of the summaries of two sequences is the summary of the two put
/// one behind the other.
pub proof fn lemma_merge_is_summary(a: Seq<i64>, b: Seq<i64>)
    ensures
        MinMaxNode::merged(summary(a), summary(b)) == summary(a + b),
{
    let s = a + b;
    let m = MinMaxNode::merged(summary(a), summary(b));
    let (ha, hb, hs) = (a.len() - 1, b.len() - 1, s.len() - 1);
    lemma_max_in(a, 0, ha);
    lemma_max_in(b, 0, hb);
    lemma_min_in(a, 0, ha);
    lemma_min_in(b, 0, hb);
    assert forall|k: int| 0 <= k < s.len() implies #[trigger] s[k] == if k < a.len() {
        a[k]
    } else {
        b[k - a.len()]
    } by {}
    assert forall|k: int| 0 <= k <= hs && 0 <= k < s.len() implies m.min_value <= #[trigger] s[k]
        <= m.max_value by {
        if k < a.len() {
            assert(summary(a).min_value <= a[k] <= summary(a).max_value);
        } else {
            assert(summary(b).min_value <= b[k - a.len()] <= summary(b).max_value);
        }
    }
    if a.len() > 0 {
        let k1 = choose|k: int|
            0 <= k <= ha && 0 <= k < a.len() && #[trigger] a[k] == summary(a).max_value;
        let k2 = choose|k: int|
            0 <= k <= ha && 0 <= k < a.len() && #[trigger] a[k] == summary(a).min_value;
        assert(s[k1] == summary(a).max_value && s[k2] == summary(a).min_value);
    }
    if b.len() > 0 {
        let k1 = choose|k: int|
            0 <= k <= hb && 0 <= k < b.len() && #[trigger] b[k] == summary(b).max_value;
        let k2 = choose|k: int|
            0 <= k <= hb && 0 <= k < b.len() && #[trigger] b[k] == summary(b).min_value;
        assert(s[k1 + a.len()] == summary(b).max_value && s[k2 + a.len()] == summary(b).min_value);
    }
    lemma_max_in_unique(s, 0, hs, m.max_value);
    lemma_min_in_unique(s, 0, hs, m.min_value);
}

} // verus!
