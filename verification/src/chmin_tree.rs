//! A static segment tree for range "chmin" updates and range-maximum queries.
//!
//! The tree is built once over a fixed array of `i64` values. An update
//! replaces every value in an index range by the smaller of itself and a
//! threshold; a query returns the largest value in an index range. Each node
//! keeps the largest value of its range and the largest value strictly below
//! it, which lets an update stop at a node as soon as the threshold falls
//! between the two.
//!
//! The ranges of updates and queries have to lie within the tree. A tree
//! over no values takes any range: an update leaves it as it is, and a query
//! gives `NEG_INF`, which stands for "no data".

use vstd::prelude::*;
use crate::aggregate::{
    lemma_max_below, lemma_max_below_unique, lemma_max_in, lemma_max_in_same,
    lemma_max_in_unique, max2, max_below, max_in, min2, NEG_INF,
};
use crate::layout::{
    fits, in_subtree, lemma_child_frame, lemma_child_in_parent, lemma_fits_children,
    lemma_root_fits, lemma_siblings_disjoint, mid, same_outside, same_subtree,
};

verus! {

/// The values `s` after every value in `s[l..=r]` was replaced by the smaller
/// of itself and `x`.
pub open spec fn chmin_seq(s: Seq<i64>, l: int, r: int, x: i64) -> Seq<i64> {
    Seq::new(
        s.len(),
        |k: int|
            if l <= k <= r {
                min2(s[k], x)
            } else {
                s[k]
            },
    )
}

/// What a node knows of its range: the largest value, and the largest value
/// strictly below that one (`NEG_INF` where there is none).
#[derive(Clone, Copy, Debug, PartialEq, Eq, Structural)]
pub struct Node {
    pub max_value: i64,
    pub second_max: i64,
}

/// The summary of a whole sequence of values.
pub open spec fn summary(s: Seq<i64>) -> Node {
    Node {
        max_value: max_in(s, 0, s.len() - 1),
        second_max: max_below(s, 0, s.len() - 1, max_in(s, 0, s.len() - 1)),
    }
}

impl Node {
    /// The parent summary of two child summaries.
    pub open spec fn merged(left: Node, right: Node) -> Node {
        if left.max_value == NEG_INF {
            right
        } else if right.max_value == NEG_INF {
            left
        } else if left.max_value == right.max_value {
            Node {
                max_value: left.max_value,
                second_max: max2(left.second_max, right.second_max),
            }
        } else if left.max_value > right.max_value {
            Node {
                max_value: left.max_value,
                second_max: max2(left.second_max, right.max_value),
            }
        } else {
            Node {
                max_value: right.max_value,
                second_max: max2(right.second_max, left.max_value),
            }
        }
    }

    /// This summary with its maximum lowered to `bound` where it was above.
    spec fn clamped(self, bound: i64) -> Node {
        Node { max_value: min2(self.max_value, bound), second_max: self.second_max }
    }

    /// The summary of a range that holds the single value `value`.
    pub fn from_single(value: i64) -> (node: Self)
        ensures
            node == (Node { max_value: value, second_max: NEG_INF }),
    {
        Self { max_value: value, second_max: i64::MIN }
    }

    /// The summary of a range without data.
    pub fn empty() -> (node: Self)
        ensures
            node == (Node { max_value: NEG_INF, second_max: NEG_INF }),
    {
        Self { max_value: i64::MIN, second_max: i64::MIN }
    }

    /// Merges the summaries of two adjacent ranges into that of their union.
    pub fn merge(left: Node, right: Node) -> (parent: Node)
        ensures
            parent == Node::merged(left, right),
    {
        if left.max_value == i64::MIN {
            return right;
        }
        if right.max_value == i64::MIN {
            return left;
        }
        if left.max_value == right.max_value {
            Node {
                max_value: left.max_value,
                second_max: left.second_max.max(right.second_max),
            }
        } else if left.max_value > right.max_value {
            Node {
                max_value: left.max_value,
                second_max: left.second_max.max(right.max_value),
            }
        } else {
            Node {
                max_value: right.max_value,
                second_max: right.second_max.max(left.max_value),
            }
        }
    }
}

/// The value that the subtree rooted at node `idx`, which covers
/// `[left, right]`, holds at position `k`: the smallest maximum stored on the
/// way from `idx` down to the leaf of `k`.
spec fn value_at(t: Seq<Node>, idx: int, left: int, right: int, k: int) -> i64
    decreases right - left,
{
    if left >= right {
        t[idx].max_value
    } else {
        let m = mid(left, right);
        let below = if k <= m {
            value_at(t, 2 * idx, left, m, k)
        } else {
            value_at(t, 2 * idx + 1, m + 1, right, k)
        };
        min2(t[idx].max_value, below)
    }
}

/// `node` is the summary of the values that the subtree rooted at `idx` holds.
spec fn summarizes(node: Node, t: Seq<Node>, idx: int, left: int, right: int) -> bool {
    &&& node.second_max < node.max_value || node.second_max == NEG_INF
    &&& forall|k: int|
        left <= k <= right ==> {
            let v = #[trigger] value_at(t, idx, left, right, k);
            v == node.max_value || v <= node.second_max
        }
    &&& exists|k: int|
        left <= k <= right && #[trigger] value_at(t, idx, left, right, k) == node.max_value
    &&& node.second_max == NEG_INF || exists|k: int|
        left <= k <= right && #[trigger] value_at(t, idx, left, right, k) == node.second_max
}

/// Every node of the subtree rooted at `idx` summarizes the values below it,
/// and no child has a second maximum above that of its parent.
spec fn subtree_ok(t: Seq<Node>, idx: int, left: int, right: int) -> bool
    decreases right - left,
{
    &&& summarizes(t[idx], t, idx, left, right)
    &&& left < right ==> {
        let m = mid(left, right);
        &&& subtree_ok(t, 2 * idx, left, m)
        &&& subtree_ok(t, 2 * idx + 1, m + 1, right)
        &&& t[2 * idx].second_max <= t[idx].second_max
        &&& t[2 * idx + 1].second_max <= t[idx].second_max
    }
}

proof fn lemma_value_le_max(t: Seq<Node>, idx: int, left: int, right: int, k: int)
    ensures
        value_at(t, idx, left, right, k) <= t[idx].max_value,
{
}

/// What a subtree holds depends on the nodes of that subtree only.
proof fn lemma_same_subtree(t1: Seq<Node>, t2: Seq<Node>, idx: int, left: int, right: int)
    requires
        same_subtree(t1, t2, idx),
        fits(idx, left, right, t1.len() as int),
    ensures
        forall|k: int| #[trigger]
            value_at(t1, idx, left, right, k) == value_at(t2, idx, left, right, k),
        subtree_ok(t1, idx, left, right) == subtree_ok(t2, idx, left, right),
    decreases right - left,
{
    assert(in_subtree(idx, idx));
    if left < right {
        let m = mid(left, right);
        assert forall|j: int| 0 <= j < t1.len() && in_subtree(j, 2 * idx) implies t1[j] == t2[j] by {
            lemma_child_in_parent(j, idx);
        }
        assert forall|j: int| 0 <= j < t1.len() && in_subtree(j, 2 * idx + 1) implies t1[j]
            == t2[j] by {
            lemma_child_in_parent(j, idx);
        }
        assert(in_subtree(2 * idx, 2 * idx));
        assert(in_subtree(2 * idx + 1, 2 * idx + 1));
        lemma_same_subtree(t1, t2, 2 * idx, left, m);
        lemma_same_subtree(t1, t2, 2 * idx + 1, m + 1, right);
        assert forall|k: int| #[trigger]
            value_at(t1, idx, left, right, k) == value_at(t2, idx, left, right, k) by {
            if k <= m {
                assert(value_at(t1, 2 * idx, left, m, k) == value_at(t2, 2 * idx, left, m, k));
            } else {
                assert(value_at(t1, 2 * idx + 1, m + 1, right, k) == value_at(
                    t2,
                    2 * idx + 1,
                    m + 1,
                    right,
                    k,
                ));
            }
        }
    }
    lemma_summarizes_same(t1[idx], t1, t2, idx, left, right);
}

/// A summary of one array's subtree is one of another's that holds the same
/// values.
proof fn lemma_summarizes_same(
    node: Node,
    t1: Seq<Node>,
    t2: Seq<Node>,
    idx: int,
    left: int,
    right: int,
)
    requires
        forall|k: int| #[trigger]
            value_at(t1, idx, left, right, k) == value_at(t2, idx, left, right, k),
    ensures
        summarizes(node, t1, idx, left, right) == summarizes(node, t2, idx, left, right),
{
    if summarizes(node, t1, idx, left, right) {
        lemma_summarizes_within(node, t1, t2, idx, left, right);
    }
    if summarizes(node, t2, idx, left, right) {
        lemma_summarizes_within(node, t2, t1, idx, left, right);
    }
}

/// Lowering the maximum stored at the root of a subtree to a bound above its
/// second maximum lowers every value of the subtree to that bound and keeps
/// the subtree in order.
proof fn lemma_clamp(t: Seq<Node>, idx: int, left: int, right: int, bound: i64)
    requires
        left <= right,
        fits(idx, left, right, t.len() as int),
        subtree_ok(t, idx, left, right),
        t[idx].second_max < bound || t[idx].second_max == NEG_INF,
    ensures
        subtree_ok(t.update(idx, t[idx].clamped(bound)), idx, left, right),
        forall|k: int|
            left <= k <= right ==> #[trigger] value_at(
                t.update(idx, t[idx].clamped(bound)),
                idx,
                left,
                right,
                k,
            ) == min2(value_at(t, idx, left, right, k), bound),
{
    let node = t[idx];
    let t2 = t.update(idx, node.clamped(bound));
    if left < right {
        let m = mid(left, right);
        lemma_fits_children(idx, left, right, t.len() as int);
        assert forall|j: int| 0 <= j < t.len() && in_subtree(j, 2 * idx) implies t[j] == t2[j] by {
            lemma_child_in_parent(j, idx);
        }
        assert forall|j: int| 0 <= j < t.len() && in_subtree(j, 2 * idx + 1) implies t[j]
            == t2[j] by {
            lemma_child_in_parent(j, idx);
        }
        lemma_same_subtree(t, t2, 2 * idx, left, m);
        lemma_same_subtree(t, t2, 2 * idx + 1, m + 1, right);
        assert(in_subtree(2 * idx, 2 * idx));
        assert(in_subtree(2 * idx + 1, 2 * idx + 1));
        lemma_child_in_parent(2 * idx, idx);
        lemma_child_in_parent(2 * idx + 1, idx);
    }
    assert forall|k: int| left <= k <= right implies #[trigger] value_at(t2, idx, left, right, k)
        == min2(value_at(t, idx, left, right, k), bound) by {
        if left < right {
            let m = mid(left, right);
            if k <= m {
                assert(value_at(t, 2 * idx, left, m, k) == value_at(t2, 2 * idx, left, m, k));
            } else {
                assert(value_at(t, 2 * idx + 1, m + 1, right, k) == value_at(
                    t2,
                    2 * idx + 1,
                    m + 1,
                    right,
                    k,
                ));
            }
        }
    }
    let k1 = choose|k: int|
        left <= k <= right && #[trigger] value_at(t, idx, left, right, k) == node.max_value;
    assert(value_at(t2, idx, left, right, k1) == t2[idx].max_value);
    if node.second_max != NEG_INF {
        let k2 = choose|k: int|
            left <= k <= right && #[trigger] value_at(t, idx, left, right, k) == node.second_max;
        assert(value_at(t2, idx, left, right, k2) == t2[idx].second_max);
    }
    assert forall|k: int| left <= k <= right implies {
        let v = #[trigger] value_at(t2, idx, left, right, k);
        v == t2[idx].max_value || v <= t2[idx].second_max
    } by {
        let v = value_at(t, idx, left, right, k);
        assert(v == node.max_value || v <= node.second_max);
    }
    assert(summarizes(t2[idx], t2, idx, left, right));
}

/// The node array after the maximum of node `idx` was pushed down onto its two
/// children.
spec fn pushed_down(t: Seq<Node>, idx: int) -> Seq<Node> {
    t.update(2 * idx, t[2 * idx].clamped(t[idx].max_value)).update(
        2 * idx + 1,
        t[2 * idx + 1].clamped(t[idx].max_value),
    )
}

/// Pushing a maximum down changes no value, keeps the subtree in order, and
/// makes each child hold, on its own, the values that the parent holds.
proof fn lemma_push_down(t: Seq<Node>, idx: int, left: int, right: int)
    requires
        left < right,
        fits(idx, left, right, t.len() as int),
        subtree_ok(t, idx, left, right),
    ensures
        subtree_ok(pushed_down(t, idx), idx, left, right),
        same_outside(t, pushed_down(t, idx), idx),
        pushed_down(t, idx)[idx] == t[idx],
        forall|k: int|
            left <= k <= mid(left, right) ==> #[trigger] value_at(
                pushed_down(t, idx),
                2 * idx,
                left,
                mid(left, right),
                k,
            ) == value_at(t, idx, left, right, k),
        forall|k: int|
            mid(left, right) < k <= right ==> #[trigger] value_at(
                pushed_down(t, idx),
                2 * idx + 1,
                mid(left, right) + 1,
                right,
                k,
            ) == value_at(t, idx, left, right, k),
        forall|k: int|
            left <= k <= right ==> #[trigger] value_at(pushed_down(t, idx), idx, left, right, k)
                == value_at(t, idx, left, right, k),
{
    let m = mid(left, right);
    let node = t[idx];
    let lc = 2 * idx;
    let rc = 2 * idx + 1;
    let t1 = t.update(lc, t[lc].clamped(node.max_value));
    let t2 = t1.update(rc, t[rc].clamped(node.max_value));
    lemma_fits_children(idx, left, right, t.len() as int);
    assert(t2 == pushed_down(t, idx));
    assert(in_subtree(lc, lc));
    assert(in_subtree(rc, rc));
    lemma_child_in_parent(lc, idx);
    lemma_child_in_parent(rc, idx);
    lemma_siblings_disjoint(lc, idx);
    lemma_siblings_disjoint(rc, idx);

    // the left child takes the bound
    lemma_clamp(t, lc, left, m, node.max_value);
    // the right subtree is the same in t and t1
    assert forall|j: int| 0 <= j < t.len() && in_subtree(j, rc) implies t[j] == t1[j] by {}
    lemma_same_subtree(t, t1, rc, m + 1, right);
    // the right child takes the bound
    lemma_clamp(t1, rc, m + 1, right, node.max_value);
    // the left subtree is the same in t1 and t2
    assert forall|j: int| 0 <= j < t.len() && in_subtree(j, lc) implies t1[j] == t2[j] by {}
    lemma_same_subtree(t1, t2, lc, left, m);

    assert forall|k: int| left <= k <= m implies #[trigger] value_at(t2, lc, left, m, k)
        == value_at(t, idx, left, right, k) by {
        assert(value_at(t1, lc, left, m, k) == value_at(t2, lc, left, m, k));
        assert(value_at(t1, lc, left, m, k) == min2(value_at(t, lc, left, m, k), node.max_value));
    }
    assert forall|k: int| m < k <= right implies #[trigger] value_at(t2, rc, m + 1, right, k)
        == value_at(t, idx, left, right, k) by {
        assert(value_at(t, rc, m + 1, right, k) == value_at(t1, rc, m + 1, right, k));
        assert(value_at(t2, rc, m + 1, right, k) == min2(
            value_at(t1, rc, m + 1, right, k),
            node.max_value,
        ));
    }
    assert forall|k: int| left <= k <= right implies #[trigger] value_at(t2, idx, left, right, k)
        == value_at(t, idx, left, right, k) by {
        if k <= m {
            assert(value_at(t2, lc, left, m, k) == value_at(t, idx, left, right, k));
        } else {
            assert(value_at(t2, rc, m + 1, right, k) == value_at(t, idx, left, right, k));
        }
    }
    lemma_summarizes_within(node, t, t2, idx, left, right);
    assert forall|j: int| 0 <= j < t.len() && !in_subtree(j, idx) implies t[j] == t2[j] by {}
}

/// A summary of one array's subtree is one of another's that holds the same
/// values within the range of the subtree.
proof fn lemma_summarizes_within(
    node: Node,
    t1: Seq<Node>,
    t2: Seq<Node>,
    idx: int,
    left: int,
    right: int,
)
    requires
        forall|k: int|
            left <= k <= right ==> #[trigger] value_at(t2, idx, left, right, k) == value_at(
                t1,
                idx,
                left,
                right,
                k,
            ),
        summarizes(node, t1, idx, left, right),
    ensures
        summarizes(node, t2, idx, left, right),
{
    let k1 = choose|k: int|
        left <= k <= right && #[trigger] value_at(t1, idx, left, right, k) == node.max_value;
    assert(value_at(t2, idx, left, right, k1) == node.max_value);
    if node.second_max != NEG_INF {
        let k2 = choose|k: int|
            left <= k <= right && #[trigger] value_at(t1, idx, left, right, k) == node.second_max;
        assert(value_at(t2, idx, left, right, k2) == node.second_max);
    }
    assert forall|k: int| left <= k <= right implies {
        let v = #[trigger] value_at(t2, idx, left, right, k);
        v == node.max_value || v <= node.second_max
    } by {
        let v = value_at(t1, idx, left, right, k);
        assert(v == node.max_value || v <= node.second_max);
    }
}

/// Storing at an inner node the merge of its two children, whose subtrees are
/// in order, puts the subtree of that node in order; the node then holds the
/// values that its children hold.
proof fn lemma_merge(t: Seq<Node>, idx: int, left: int, right: int)
    requires
        left < right,
        fits(idx, left, right, t.len() as int),
        subtree_ok(t, 2 * idx, left, mid(left, right)),
        subtree_ok(t, 2 * idx + 1, mid(left, right) + 1, right),
    ensures
        subtree_ok(t.update(idx, Node::merged(t[2 * idx], t[2 * idx + 1])), idx, left, right),
        forall|k: int|
            left <= k <= mid(left, right) ==> #[trigger] value_at(
                t.update(idx, Node::merged(t[2 * idx], t[2 * idx + 1])),
                idx,
                left,
                right,
                k,
            ) == value_at(t, 2 * idx, left, mid(left, right), k),
        forall|k: int|
            mid(left, right) < k <= right ==> #[trigger] value_at(
                t.update(idx, Node::merged(t[2 * idx], t[2 * idx + 1])),
                idx,
                left,
                right,
                k,
            ) == value_at(t, 2 * idx + 1, mid(left, right) + 1, right, k),
{
    let m = mid(left, right);
    let lc = 2 * idx;
    let rc = 2 * idx + 1;
    let a = t[lc];
    let b = t[rc];
    let node = Node::merged(a, b);
    let t2 = t.update(idx, node);
    lemma_fits_children(idx, left, right, t.len() as int);
    assert forall|j: int| 0 <= j < t.len() && in_subtree(j, lc) implies t[j] == t2[j] by {
        lemma_child_in_parent(j, idx);
    }
    assert forall|j: int| 0 <= j < t.len() && in_subtree(j, rc) implies t[j] == t2[j] by {
        lemma_child_in_parent(j, idx);
    }
    lemma_same_subtree(t, t2, lc, left, m);
    lemma_same_subtree(t, t2, rc, m + 1, right);
    assert(node.max_value == max2(a.max_value, b.max_value));
    assert(a.second_max <= a.max_value && b.second_max <= b.max_value);
    assert(a.second_max <= node.second_max && b.second_max <= node.second_max);

    assert forall|k: int| left <= k <= m implies #[trigger] value_at(t2, idx, left, right, k)
        == value_at(t, lc, left, m, k) by {
        assert(value_at(t, lc, left, m, k) == value_at(t2, lc, left, m, k));
        lemma_value_le_max(t2, lc, left, m, k);
    }
    assert forall|k: int| m < k <= right implies #[trigger] value_at(t2, idx, left, right, k)
        == value_at(t, rc, m + 1, right, k) by {
        assert(value_at(t, rc, m + 1, right, k) == value_at(t2, rc, m + 1, right, k));
        lemma_value_le_max(t2, rc, m + 1, right, k);
    }
    // the witnesses of the children
    let ka = choose|k: int| left <= k <= m && #[trigger] value_at(t, lc, left, m, k) == a.max_value;
    let kb = choose|k: int|
        m + 1 <= k <= right && #[trigger] value_at(t, rc, m + 1, right, k) == b.max_value;
    assert(value_at(t2, idx, left, right, ka) == a.max_value);
    assert(value_at(t2, idx, left, right, kb) == b.max_value);
    if a.second_max != NEG_INF {
        let k2 = choose|k: int|
            left <= k <= m && #[trigger] value_at(t, lc, left, m, k) == a.second_max;
        assert(value_at(t2, idx, left, right, k2) == a.second_max);
    }
    if b.second_max != NEG_INF {
        let k2 = choose|k: int|
            m + 1 <= k <= right && #[trigger] value_at(t, rc, m + 1, right, k) == b.second_max;
        assert(value_at(t2, idx, left, right, k2) == b.second_max);
    }
    assert forall|k: int| left <= k <= right implies {
        let v = #[trigger] value_at(t2, idx, left, right, k);
        v == node.max_value || v <= node.second_max
    } by {
        if k <= m {
            let v = value_at(t, lc, left, m, k);
            assert(v == a.max_value || v <= a.second_max);
        } else {
            let v = value_at(t, rc, m + 1, right, k);
            assert(v == b.max_value || v <= b.second_max);
        }
    }
    assert(summarizes(node, t2, idx, left, right));
}

/// A leaf that stores a single value, with no second maximum, is in order.
proof fn lemma_leaf(t: Seq<Node>, idx: int, pos: int)
    requires
        t[idx].second_max == NEG_INF,
    ensures
        subtree_ok(t, idx, pos, pos),
        value_at(t, idx, pos, pos, pos) == t[idx].max_value,
{
    assert(value_at(t, idx, pos, pos, pos) == t[idx].max_value);
}

/// An update of the range `[ql, qr]` to the threshold `x` finds nothing to
/// change in the subtree rooted at `idx`: wherever it would go on, the node
/// is out of the range or not above the threshold, and on its way there the
/// children are not above their parent, which holds their merge.
spec fn settled(t: Seq<Node>, idx: int, left: int, right: int, ql: int, qr: int, x: i64) -> bool
    decreases right - left,
{
    ||| right < ql || qr < left
    ||| t[idx].max_value <= x
    ||| {
        &&& left < right
        &&& !(ql <= left && right <= qr)
        &&& t[2 * idx].max_value <= t[idx].max_value
        &&& t[2 * idx + 1].max_value <= t[idx].max_value
        &&& settled(t, 2 * idx, left, mid(left, right), ql, qr, x)
        &&& settled(t, 2 * idx + 1, mid(left, right) + 1, right, ql, qr, x)
        &&& t[idx] == Node::merged(t[2 * idx], t[2 * idx + 1])
    }
}

/// Whether an update finds nothing to change in a subtree depends on the
/// nodes of that subtree only.
proof fn lemma_same_settled(
    t1: Seq<Node>,
    t2: Seq<Node>,
    idx: int,
    left: int,
    right: int,
    ql: int,
    qr: int,
    x: i64,
)
    requires
        same_subtree(t1, t2, idx),
        fits(idx, left, right, t1.len() as int),
    ensures
        settled(t1, idx, left, right, ql, qr, x) == settled(t2, idx, left, right, ql, qr, x),
    decreases right - left,
{
    assert(in_subtree(idx, idx));
    if left < right {
        let m = mid(left, right);
        lemma_fits_children(idx, left, right, t1.len() as int);
        assert forall|j: int| 0 <= j < t1.len() && in_subtree(j, 2 * idx) implies t1[j] == t2[j] by {
            lemma_child_in_parent(j, idx);
        }
        assert forall|j: int| 0 <= j < t1.len() && in_subtree(j, 2 * idx + 1) implies t1[j]
            == t2[j] by {
            lemma_child_in_parent(j, idx);
        }
        assert(in_subtree(2 * idx, 2 * idx));
        assert(in_subtree(2 * idx + 1, 2 * idx + 1));
        lemma_same_settled(t1, t2, 2 * idx, left, m, ql, qr, x);
        lemma_same_settled(t1, t2, 2 * idx + 1, m + 1, right, ql, qr, x);
    }
}

/// A segment tree over a fixed number of `i64` values that supports lowering
/// a range of them to a threshold and asking for the largest of a range.
pub struct SegmentTree {
    n: usize,
    tree: Vec<Node>,
}

impl View for SegmentTree {
    type V = Seq<i64>;

    /// The values that the tree holds now, by position.
    closed spec fn view(&self) -> Seq<i64> {
        Seq::new(self.n as nat, |k: int| value_at(self.tree@, 1, 0, self.n - 1, k))
    }
}

impl SegmentTree {
    /// The tree has the size it was built with and every node summarizes the
    /// values below it.
    pub closed spec fn wf(&self) -> bool {
        &&& self.n <= usize::MAX / 4
        &&& self.tree@.len() == 4 * (if self.n >= 1 {
            self.n as int
        } else {
            1
        })
        &&& self.n > 0 ==> subtree_ok(self.tree@, 1, 0, self.n - 1)
        &&& self.n == 0 ==> forall|i: int|
            0 <= i < self.tree@.len() ==> #[trigger] self.tree@[i] == (Node {
                max_value: NEG_INF,
                second_max: NEG_INF,
            })
    }

    /// The nodes that the tree keeps, by index: node `1` is the root, and the
    /// children of node `i` are the nodes `2 * i` and `2 * i + 1`.
    pub closed spec fn nodes(&self) -> Seq<Node> {
        self.tree@
    }

    /// The number of nodes that the tree keeps.
    pub open spec fn node_count(&self) -> nat {
        self.nodes().len()
    }

    /// Every node of a tree that holds no value is the summary of a range
    /// without data.
    pub proof fn lemma_empty_tree(&self)
        requires
            self.wf(),
            self@.len() == 0,
        ensures
            forall|i: int|
                0 <= i < self.nodes().len() ==> #[trigger] self.nodes()[i] == (Node {
                    max_value: NEG_INF,
                    second_max: NEG_INF,
                }),
    {
    }

    /// The tree is in the state in which an update of the range `[ql, qr]` to
    /// the threshold `x` leaves it: that update finds nothing to change.
    pub closed spec fn settled_for(&self, ql: int, qr: int, x: i64) -> bool {
        self.n > 0 ==> settled(self.tree@, 1, 0, self.n - 1, ql, qr, x)
    }

    /// A tree keeps four nodes for each value it holds, and four nodes where it
    /// holds none.
    pub proof fn lemma_node_count(&self)
        requires
            self.wf(),
        ensures
            self.node_count() == 4 * (if self@.len() >= 1 {
                self@.len()
            } else {
                1
            }),
    {
    }

    /// The summary stored at the root of the tree.
    pub open spec fn root_node(&self) -> Node {
        self.nodes()[1]
    }

    /// The root of a tree always holds the largest of the values that the
    /// tree holds now, and the largest of them strictly below it.
    pub proof fn lemma_root_summary(&self)
        requires
            self.wf(),
        ensures
            self.root_node() == summary(self@),
    {
        let s = self@;
        let t = self.tree@;
        let hi = self.n - 1;
        lemma_max_in(s, 0, hi);
        lemma_max_below(s, 0, hi, max_in(s, 0, hi));
        if self.n > 0 {
            let nd = t[1];
            let k1 = choose|k: int|
                0 <= k <= hi && #[trigger] value_at(t, 1, 0, hi, k) == nd.max_value;
            assert(s[k1] == nd.max_value);
            assert forall|k: int| 0 <= k <= hi implies #[trigger] s[k] <= nd.max_value by {
                lemma_value_le_max(t, 1, 0, hi, k);
            }
            assert(nd.max_value == max_in(s, 0, hi));
            if nd.second_max != NEG_INF {
                let k2 = choose|k: int|
                    0 <= k <= hi && #[trigger] value_at(t, 1, 0, hi, k) == nd.second_max;
                assert(s[k2] == nd.second_max);
            }
            assert forall|k: int| 0 <= k <= hi && s[k] < nd.max_value implies #[trigger] s[k]
                <= nd.second_max by {
                let v = value_at(t, 1, 0, hi, k);
                assert(v == nd.max_value || v <= nd.second_max);
            }
            assert(nd.second_max == max_below(s, 0, hi, nd.max_value));
        }
    }

    /// Builds the tree over `values`.
    pub fn new(values: &[i64]) -> (tree: Self)
        requires
            values.len() <= usize::MAX / 4,
        ensures
            tree.wf(),
            tree@ == values@,
            tree.root_node() == summary(values@),
            tree.node_count() == 4 * (if values.len() >= 1 {
                values.len()
            } else {
                1
            }),
            values.len() == 0 ==> forall|i: int|
                0 <= i < tree.nodes().len() ==> #[trigger] tree.nodes()[i] == (Node {
                    max_value: NEG_INF,
                    second_max: NEG_INF,
                }),
    {
        let n = values.len();
        let size = 4 * n.max(1);
        let mut st = Self { n, tree: vec![Node::empty(); size] };
        if n > 0 {
            proof {
                lemma_root_fits(n as int);
            }
            st.build(1, 0, n - 1, values);
        }
        assert(st@ =~= values@);
        proof {
            st.lemma_root_summary();
        }
        st
    }

    fn build(&mut self, index: usize, left: usize, right: usize, values: &[i64])
        requires
            left <= right < values.len() <= usize::MAX / 4,
            fits(index as int, left as int, right as int, old(self).tree@.len() as int),
        ensures
            final(self).n == old(self).n,
            same_outside(old(self).tree@, final(self).tree@, index as int),
            subtree_ok(final(self).tree@, index as int, left as int, right as int),
            forall|k: int|
                left <= k <= right ==> #[trigger] value_at(
                    final(self).tree@,
                    index as int,
                    left as int,
                    right as int,
                    k,
                ) == values@[k],
        decreases right - left,
    {
        if left == right {
            self.tree.set(index, Node::from_single(values[left]));
            proof {
                lemma_leaf(self.tree@, index as int, left as int);
                assert(in_subtree(index as int, index as int));
            }
            return ;
        }
        proof {
            lemma_fits_children(index as int, left as int, right as int, self.tree@.len() as int);
            assert(self.tree@.len() == self.tree.len());
        }
        let mid = (left + right) / 2;
        let left_child = index * 2;
        let right_child = left_child + 1;

        let ghost t0 = self.tree@;
        self.build(left_child, left, mid, values);
        let ghost t1 = self.tree@;
        self.build(right_child, mid + 1, right, values);
        let ghost t2 = self.tree@;
        proof {
            lemma_child_frame(t0, t1, index as int, true);
            lemma_child_frame(t1, t2, index as int, false);
            lemma_same_subtree(t1, t2, left_child as int, left as int, mid as int);
            lemma_merge(t2, index as int, left as int, right as int);
        }
        self.tree.set(index, Node::merge(self.tree[left_child], self.tree[right_child]));
        proof {
            assert(in_subtree(index as int, index as int));
            assert forall|k: int| left <= k <= right implies #[trigger] value_at(
                self.tree@,
                index as int,
                left as int,
                right as int,
                k,
            ) == values@[k] by {
                if k <= mid {
                    assert(value_at(t1, left_child as int, left as int, mid as int, k)
                        == value_at(t2, left_child as int, left as int, mid as int, k));
                }
            }
        }
    }

    /// Lowers the maxima stored at the children of `index` to the maximum
    /// stored at `index`.
    fn push_down(&mut self, index: usize)
        requires
            2 * index + 1 < old(self).tree@.len(),
        ensures
            final(self).n == old(self).n,
            final(self).tree@ == pushed_down(old(self).tree@, index as int),
    {
        assert(self.tree@.len() == self.tree.len());
        let parent_node = self.tree[index];
        let left_child = index * 2;
        let right_child = left_child + 1;

        if self.tree[left_child].max_value > parent_node.max_value {
            self.clamp_node(left_child, parent_node.max_value);
        }
        if self.tree[right_child].max_value > parent_node.max_value {
            self.clamp_node(right_child, parent_node.max_value);
        }
        assert(self.tree@ =~= pushed_down(old(self).tree@, index as int));
    }

    /// Lowers the maximum stored at `index` to `new_max` where it is above.
    fn clamp_node(&mut self, index: usize, new_max: i64)
        requires
            index < old(self).tree@.len(),
        ensures
            final(self).n == old(self).n,
            final(self).tree@ == old(self).tree@.update(
                index as int,
                old(self).tree@[index as int].clamped(new_max),
            ),
    {
        let node = self.tree[index];
        if new_max >= node.max_value {
            assert(self.tree@ =~= old(self).tree@.update(
                index as int,
                old(self).tree@[index as int].clamped(new_max),
            ));
            return ;
        }
        self.tree.set(index, Node { max_value: new_max, second_max: node.second_max });
    }

    /// Replaces every value at a position in `[ql, qr]` by the smaller of
    /// itself and `x`. The range has to lie within the tree; a tree that holds
    /// no value stays as it is.
    ///
    /// Where the root is not above `x`, no node changes. Where the range is the
    /// whole tree and `x` lies between the two maxima of the root, the root
    /// takes `x` as its maximum and no other node changes. Afterwards the tree
    /// is settled for this update: the same update again changes no node.
    pub fn range_chmin(&mut self, ql: usize, qr: usize, x: i64)
        requires
            old(self).wf(),
            old(self)@.len() == 0 || ql <= qr < old(self)@.len(),
        ensures
            final(self).wf(),
            final(self)@ == chmin_seq(old(self)@, ql as int, qr as int, x),
            final(self).nodes().len() == old(self).nodes().len(),
            old(self).root_node().max_value <= x ==> final(self).nodes() == old(self).nodes(),
            (ql == 0 && qr + 1 == old(self)@.len() && old(self).root_node().second_max < x
                && x < old(self).root_node().max_value)
                ==> final(self).nodes() == old(self).nodes().update(
                1,
                (Node { max_value: x, second_max: old(self).root_node().second_max }),
            ),
            final(self).settled_for(ql as int, qr as int, x),
            old(self).settled_for(ql as int, qr as int, x)
                ==> final(self).nodes() == old(self).nodes(),
    {
        if self.n == 0 {
            assert(self@ =~= chmin_seq(old(self)@, ql as int, qr as int, x));
            return ;
        }
        proof {
            lemma_root_fits(self.n as int);
        }
        self.range_chmin_rec(1, 0, self.n - 1, ql, qr, x);
        assert(self@ =~= chmin_seq(old(self)@, ql as int, qr as int, x));
    }

    /// The update within the subtree rooted at `index`, which covers
    /// `[left, right]`. A node out of the range, or not above the threshold,
    /// ends it; a covered node whose two maxima have the threshold between
    /// them takes the threshold, and nothing below is touched.
    fn range_chmin_rec(
        &mut self,
        index: usize,
        left: usize,
        right: usize,
        ql: usize,
        qr: usize,
        x: i64,
    )
        requires
            left <= right <= usize::MAX / 4,
            fits(index as int, left as int, right as int, old(self).tree@.len() as int),
            subtree_ok(old(self).tree@, index as int, left as int, right as int),
        ensures
            final(self).n == old(self).n,
            same_outside(old(self).tree@, final(self).tree@, index as int),
            subtree_ok(final(self).tree@, index as int, left as int, right as int),
            forall|k: int|
                left <= k <= right ==> #[trigger] value_at(
                    final(self).tree@,
                    index as int,
                    left as int,
                    right as int,
                    k,
                ) == if ql <= k <= qr {
                    min2(value_at(old(self).tree@, index as int, left as int, right as int, k), x)
                } else {
                    value_at(old(self).tree@, index as int, left as int, right as int, k)
                },
            (right < ql || qr < left || old(self).tree@[index as int].max_value <= x)
                ==> final(self).tree@ == old(self).tree@,
            (!(right < ql || qr < left) && ql <= left && right <= qr
                && old(self).tree@[index as int].second_max < x
                && x < old(self).tree@[index as int].max_value)
                ==> final(self).tree@ == old(self).tree@.update(
                index as int,
                (Node { max_value: x, second_max: old(self).tree@[index as int].second_max }),
            ),
            settled(
                final(self).tree@,
                index as int,
                left as int,
                right as int,
                ql as int,
                qr as int,
                x,
            ),
            settled(
                old(self).tree@,
                index as int,
                left as int,
                right as int,
                ql as int,
                qr as int,
                x,
            ) ==> final(self).tree@ == old(self).tree@,
        decreases right - left,
    {
        let ghost t0 = self.tree@;
        let ghost (i, l, r) = (index as int, left as int, right as int);
        assert(self.tree@.len() == self.tree.len());
        let node = self.tree[index];

        // No overlap or nothing to reduce
        if right < ql || qr < left || node.max_value <= x {
            proof {
                assert forall|k: int| l <= k <= r implies value_at(t0, i, l, r, k) <= node.max_value by {
                    lemma_value_le_max(t0, i, l, r, k);
                }
            }
            return ;
        }
        // Fully covered, and the threshold falls between the two maxima

        if ql <= left && right <= qr && node.second_max < x && x < node.max_value {
            proof {
                lemma_clamp(t0, i, l, r, x);
                assert(in_subtree(i, i));
            }
            self.clamp_node(index, x);
            return ;
        }
        if left != right {
            proof {
                lemma_fits_children(i, l, r, t0.len() as int);
                lemma_push_down(t0, i, l, r);
            }
            self.push_down(index);
            let mid = (left + right) / 2;
            let left_child = index * 2;
            let right_child = left_child + 1;
            let ghost (lc, rc, m) = (left_child as int, right_child as int, mid as int);

            let ghost t1 = self.tree@;
            self.range_chmin_rec(left_child, left, mid, ql, qr, x);
            let ghost t2 = self.tree@;
            proof {
                lemma_child_frame(t1, t2, i, true);
                lemma_same_subtree(t1, t2, rc, m + 1, r);
            }
            self.range_chmin_rec(right_child, mid + 1, right, ql, qr, x);
            let ghost t3 = self.tree@;
            proof {
                lemma_child_frame(t2, t3, i, false);
                lemma_same_subtree(t2, t3, lc, l, m);
                lemma_merge(t3, i, l, r);
            }
            self.tree.set(index, Node::merge(self.tree[left_child], self.tree[right_child]));
            proof {
                assert(in_subtree(i, i));
                assert forall|k: int| l <= k <= r implies #[trigger] value_at(
                    self.tree@,
                    i,
                    l,
                    r,
                    k,
                ) == if ql <= k <= qr {
                    min2(value_at(t0, i, l, r, k), x)
                } else {
                    value_at(t0, i, l, r, k)
                } by {
                    if k <= m {
                        assert(value_at(t3, lc, l, m, k) == value_at(t2, lc, l, m, k));
                        assert(value_at(t1, lc, l, m, k) == value_at(t0, i, l, r, k));
                    } else {
                        assert(value_at(t2, rc, m + 1, r, k) == value_at(t1, rc, m + 1, r, k));
                        assert(value_at(t1, rc, m + 1, r, k) == value_at(t0, i, l, r, k));
                    }
                }
                // the update has nothing left to do here
                let t4 = self.tree@;
                lemma_child_in_parent(lc, i);
                lemma_child_in_parent(rc, i);
                assert(in_subtree(lc, lc) && in_subtree(rc, rc));
                assert forall|j: int| 0 <= j < t3.len() && in_subtree(j, lc) implies t3[j]
                    == t4[j] by {
                    lemma_child_in_parent(j, i);
                }
                assert forall|j: int| 0 <= j < t3.len() && in_subtree(j, rc) implies t3[j]
                    == t4[j] by {
                    lemma_child_in_parent(j, i);
                }
                lemma_same_settled(t2, t3, lc, l, m, ql as int, qr as int, x);
                lemma_same_settled(t3, t4, lc, l, m, ql as int, qr as int, x);
                lemma_same_settled(t3, t4, rc, m + 1, r, ql as int, qr as int, x);
                if t4[i].max_value > x && ql <= l && r <= qr {
                    let k = choose|k: int|
                        l <= k <= r && #[trigger] value_at(t4, i, l, r, k) == t4[i].max_value;
                    assert(value_at(t4, i, l, r, k) <= x);
                }
                assert(settled(t4, i, l, r, ql as int, qr as int, x));
                // and where it had nothing to do before, no node has changed
                if settled(t0, i, l, r, ql as int, qr as int, x) {
                    assert(t1 =~= t0);
                    assert(t2 == t1);
                    lemma_same_settled(t1, t2, rc, m + 1, r, ql as int, qr as int, x);
                    assert(t3 == t2);
                    assert(t4 =~= t0);
                }
            }
        } else {
            // A leaf whose value is above the threshold
            proof {
                lemma_clamp(t0, i, l, r, x);
                assert(in_subtree(i, i));
            }
            self.clamp_node(index, x);
        }
    }

    /// The largest value at a position in `[ql, qr]`. The range has to lie
    /// within the tree; a tree that holds no value gives `NEG_INF`, which
    /// stands for "no data".
    ///
    /// The values stay as they are. Where the range is the whole tree, the
    /// maximum is read off the root and no node changes.
    pub fn range_max(&mut self, ql: usize, qr: usize) -> (m: i64)
        requires
            old(self).wf(),
            old(self)@.len() == 0 || ql <= qr < old(self)@.len(),
        ensures
            final(self).wf(),
            final(self)@ == old(self)@,
            old(self)@.len() == 0 ==> m == NEG_INF && final(self).nodes() == old(self).nodes(),
            old(self)@.len() > 0 ==> m == max_in(old(self)@, ql as int, qr as int),
            final(self).nodes().len() == old(self).nodes().len(),
            (ql == 0 && qr + 1 == old(self)@.len()) ==> final(self).nodes() == old(self).nodes(),
    {
        if self.n == 0 {
            return i64::MIN;
        }
        proof {
            lemma_root_fits(self.n as int);
        }
        let m = self.range_max_rec(1, 0, self.n - 1, ql, qr);
        proof {
            assert(self@ =~= old(self)@);
            let s = old(self)@;
            let t0 = old(self).tree@;
            let hi = self.n - 1;
            let k = choose|k: int|
                0 <= k <= hi && ql <= k <= qr && #[trigger] value_at(t0, 1, 0, hi, k) == m;
            assert(s[k] == m);
            assert forall|j: int| ql <= j <= qr implies #[trigger] s[j] <= m by {
                assert(value_at(t0, 1, 0, hi, j) <= m);
            }
            lemma_max_in_unique(s, ql as int, qr as int, m);
        }
        m
    }

    /// The query within the subtree rooted at `index`, which covers
    /// `[left, right]`. A node out of the range gives `NEG_INF`, a covered
    /// node gives its maximum, and in both cases no node is touched.
    fn range_max_rec(&mut self, index: usize, left: usize, right: usize, ql: usize, qr: usize) -> (m:
        i64)
        requires
            left <= right <= usize::MAX / 4,
            fits(index as int, left as int, right as int, old(self).tree@.len() as int),
            subtree_ok(old(self).tree@, index as int, left as int, right as int),
        ensures
            final(self).n == old(self).n,
            same_outside(old(self).tree@, final(self).tree@, index as int),
            subtree_ok(final(self).tree@, index as int, left as int, right as int),
            forall|k: int|
                left <= k <= right ==> #[trigger] value_at(
                    final(self).tree@,
                    index as int,
                    left as int,
                    right as int,
                    k,
                ) == value_at(old(self).tree@, index as int, left as int, right as int, k),
            final(self).tree@[index as int] == old(self).tree@[index as int],
            (right < ql || qr < left || (ql <= left && right <= qr))
                ==> final(self).tree@ == old(self).tree@,
            (!(right < ql || qr < left) && ql <= left && right <= qr)
                ==> m == old(self).tree@[index as int].max_value,
            is_max_of(
                old(self).tree@,
                index as int,
                left as int,
                right as int,
                ql as int,
                qr as int,
                m,
            ),
        decreases right - left,
    {
        let ghost t0 = self.tree@;
        let ghost (i, l, r) = (index as int, left as int, right as int);
        assert(self.tree@.len() == self.tree.len());
        // No overlap
        if right < ql || qr < left {
            return i64::MIN;
        }
        // Fully covered

        if ql <= left && right <= qr {
            proof {
                assert forall|k: int| l <= k <= r implies value_at(t0, i, l, r, k)
                    <= t0[i].max_value by {
                    lemma_value_le_max(t0, i, l, r, k);
                }
            }
            return self.tree[index].max_value;
        }
        // Partial overlap; push down and recurse

        proof {
            lemma_fits_children(i, l, r, t0.len() as int);
            lemma_push_down(t0, i, l, r);
        }
        self.push_down(index);

        let mid = (left + right) / 2;
        let left_child = index * 2;
        let right_child = left_child + 1;
        let ghost (lc, rc, m) = (left_child as int, right_child as int, mid as int);

        let ghost t1 = self.tree@;
        let max_left = self.range_max_rec(left_child, left, mid, ql, qr);
        let ghost t2 = self.tree@;
        proof {
            lemma_child_frame(t1, t2, i, true);
            lemma_same_subtree(t1, t2, rc, m + 1, r);
        }
        let max_right = self.range_max_rec(right_child, mid + 1, right, ql, qr);
        let ghost t3 = self.tree@;
        let best = max_left.max(max_right);
        proof {
            lemma_child_frame(t2, t3, i, false);
            lemma_same_subtree(t2, t3, lc, l, m);
            assert(in_subtree(lc, lc) && in_subtree(rc, rc));
            assert(t3[i] == t0[i]);
            assert(t3[lc] == t1[lc]);
            assert(t3[rc] == t1[rc]);
            // the subtree is in order, with the values it had
            assert forall|k: int| l <= k <= r implies #[trigger] value_at(t3, i, l, r, k)
                == value_at(t0, i, l, r, k) by {
                assert(value_at(t1, i, l, r, k) == value_at(t0, i, l, r, k));
                if k <= m {
                    assert(value_at(t3, lc, l, m, k) == value_at(t2, lc, l, m, k));
                    assert(value_at(t2, lc, l, m, k) == value_at(t1, lc, l, m, k));
                } else {
                    assert(value_at(t3, rc, m + 1, r, k) == value_at(t2, rc, m + 1, r, k));
                    assert(value_at(t2, rc, m + 1, r, k) == value_at(t1, rc, m + 1, r, k));
                }
            }
            lemma_summarizes_within(t0[i], t0, t3, i, l, r);
            // the larger of the two halves' maxima is the maximum
            assert forall|k: int| l <= k <= r && ql <= k <= qr implies #[trigger] value_at(
                t0,
                i,
                l,
                r,
                k,
            ) <= best by {
                if k <= m {
                    assert(value_at(t1, lc, l, m, k) == value_at(t0, i, l, r, k));
                } else {
                    assert(value_at(t2, rc, m + 1, r, k) == value_at(t1, rc, m + 1, r, k));
                    assert(value_at(t1, rc, m + 1, r, k) == value_at(t0, i, l, r, k));
                }
            }
            if exists|k: int|
                l <= k <= m && ql <= k <= qr && #[trigger] value_at(t1, lc, l, m, k) == max_left {
                let k = choose|k: int|
                    l <= k <= m && ql <= k <= qr && #[trigger] value_at(t1, lc, l, m, k)
                        == max_left;
                assert(value_at(t0, i, l, r, k) == max_left);
            }
            if exists|k: int|
                m + 1 <= k <= r && ql <= k <= qr && #[trigger] value_at(t2, rc, m + 1, r, k)
                    == max_right {
                let k = choose|k: int|
                    m + 1 <= k <= r && ql <= k <= qr && #[trigger] value_at(t2, rc, m + 1, r, k)
                        == max_right;
                assert(value_at(t1, rc, m + 1, r, k) == value_at(t2, rc, m + 1, r, k));
                assert(value_at(t0, i, l, r, k) == max_right);
            }
        }
        best
    }

    /// A copy of the nodes that the tree keeps, by index.
    pub fn to_nodes(&self) -> (copy: Vec<Node>)
        ensures
            copy@ == self.nodes(),
    {
        let mut copy: Vec<Node> = Vec::new();
        let mut i: usize = 0;
        while i < self.tree.len()
            invariant
                i <= self.tree.len(),
                copy@ == self.tree@.take(i as int),
            decreases self.tree.len() - i,
        {
            copy.push(self.tree[i]);
            assert(copy@ =~= self.tree@.take(i + 1));
            i = i + 1;
        }
        assert(copy@ =~= self.tree@);
        copy
    }

    /// The summary of all the values that the tree holds now.
    pub fn root(&self) -> (node: Node)
        requires
            self.wf(),
        ensures
            node == self.root_node(),
            node == summary(self@),
    {
        proof {
            self.lemma_root_summary();
        }
        self.tree[1]
    }
}

/// `m` is the largest of the values that the subtree rooted at `idx` holds at
/// the positions of `[ql, qr]`, or `NEG_INF` where it holds none there.
spec fn is_max_of(
    t: Seq<Node>,
    idx: int,
    left: int,
    right: int,
    ql: int,
    qr: int,
    m: i64,
) -> bool {
    &&& forall|k: int|
        left <= k <= right && ql <= k <= qr ==> #[trigger] value_at(t, idx, left, right, k) <= m
    &&& {
        ||| exists|k: int|
            left <= k <= right && ql <= k <= qr && #[trigger] value_at(t, idx, left, right, k) == m
        ||| m == NEG_INF && (right < ql || qr < left || qr < ql)
    }
}

/// Lowering a range to a threshold a second time changes nothing.
pub proof fn lemma_chmin_idempotent(s: Seq<i64>, l: int, r: int, x: i64)
    ensures
        chmin_seq(chmin_seq(s, l, r, x), l, r, x) == chmin_seq(s, l, r, x),
{
    assert(chmin_seq(chmin_seq(s, l, r, x), l, r, x) =~= chmin_seq(s, l, r, x));
}

/// After a range was lowered to a threshold, its maximum is at most the
/// threshold.
pub proof fn lemma_chmin_bounds_max(s: Seq<i64>, l: int, r: int, x: i64)
    requires
        0 <= l <= r < s.len(),
    ensures
        max_in(chmin_seq(s, l, r, x), l, r) <= x,
{
    lemma_max_in(chmin_seq(s, l, r, x), l, r);
    let k = choose|k: int|
        l <= k <= r && #[trigger] chmin_seq(s, l, r, x)[k] == max_in(chmin_seq(s, l, r, x), l, r);
    assert(chmin_seq(s, l, r, x)[k] <= x);
}

/// Lowering the range `[l, r]` leaves the maximum of every range `[a, b]`
/// that does not overlap it as it was.
pub proof fn lemma_chmin_keeps_max_elsewhere(s: Seq<i64>, l: int, r: int, x: i64, a: int, b: int)
    requires
        0 <= a <= b < s.len(),
        b < l || r < a,
    ensures
        max_in(chmin_seq(s, l, r, x), a, b) == max_in(s, a, b),
{
    lemma_max_in_same(chmin_seq(s, l, r, x), s, a, b);
}

/// Two updates commute: the order in which two ranges are lowered, each to
/// its own threshold, does not matter. This holds of ranges that overlap as
/// well as of disjoint ones.
pub proof fn lemma_chmin_commutes(s: Seq<i64>, l1: int, r1: int, x1: i64, l2: int, r2: int, x2: i64)
    ensures
        chmin_seq(chmin_seq(s, l1, r1, x1), l2, r2, x2) == chmin_seq(
            chmin_seq(s, l2, r2, x2),
            l1,
            r1,
            x1,
        ),
{
    assert(chmin_seq(chmin_seq(s, l1, r1, x1), l2, r2, x2) =~= chmin_seq(
        chmin_seq(s, l2, r2, x2),
        l1,
        r1,
        x1,
    ));
}

/// The merge of the summaries of two sequences is the summary of the two put
/// one behind the other.
pub proof fn lemma_merge_is_summary(a: Seq<i64>, b: Seq<i64>)
    ensures
        Node::merged(summary(a), summary(b)) == summary(a + b),
{
    let s = a + b;
    let sa = summary(a);
    let sb = summary(b);
    let m = Node::merged(sa, sb);
    let (ha, hb, hs) = (a.len() - 1, b.len() - 1, s.len() - 1);
    lemma_max_in(a, 0, ha);
    lemma_max_in(b, 0, hb);
    lemma_max_below(a, 0, ha, sa.max_value);
    lemma_max_below(b, 0, hb, sb.max_value);
    assert forall|k: int| 0 <= k < s.len() implies #[trigger] s[k] == if k < a.len() {
        a[k]
    } else {
        b[k - a.len()]
    } by {}
    // the larger of the two maxima is the maximum
    assert(m.max_value == max2(sa.max_value, sb.max_value));
    assert forall|k: int| 0 <= k <= hs && 0 <= k < s.len() implies #[trigger] s[k]
        <= m.max_value by {
        if k < a.len() {
            assert(a[k] <= sa.max_value);
        } else {
            assert(b[k - a.len()] <= sb.max_value);
        }
    }
    if a.len() > 0 {
        let k = choose|k: int| 0 <= k <= ha && 0 <= k < a.len() && #[trigger] a[k] == sa.max_value;
        assert(s[k] == sa.max_value);
    }
    if b.len() > 0 {
        let k = choose|k: int| 0 <= k <= hb && 0 <= k < b.len() && #[trigger] b[k] == sb.max_value;
        assert(s[k + a.len()] == sb.max_value);
    }
    lemma_max_in_unique(s, 0, hs, m.max_value);
    // the second maximum
    assert forall|k: int|
        0 <= k <= hs && 0 <= k < s.len() && s[k] < m.max_value implies #[trigger] s[k]
        <= m.second_max by {
        if k < a.len() {
            assert(a[k] <= sa.max_value);
            if a[k] < sa.max_value {
                assert(a[k] <= sa.second_max);
            }
        } else {
            let j = k - a.len();
            assert(b[j] <= sb.max_value);
            if b[j] < sb.max_value {
                assert(b[j] <= sb.second_max);
            }
        }
    }
    if m.second_max != NEG_INF {
        if sa.second_max != NEG_INF && m.second_max == sa.second_max {
            let k = choose|k: int|
                0 <= k <= ha && 0 <= k < a.len() && a[k] < sa.max_value && #[trigger] a[k]
                    == sa.second_max;
            assert(s[k] == m.second_max && s[k] < m.max_value);
        } else if sb.second_max != NEG_INF && m.second_max == sb.second_max {
            let k = choose|k: int|
                0 <= k <= hb && 0 <= k < b.len() && b[k] < sb.max_value && #[trigger] b[k]
                    == sb.second_max;
            assert(s[k + a.len()] == m.second_max && s[k + a.len()] < m.max_value);
        } else if m.second_max == sa.max_value {
            let k = choose|k: int|
                0 <= k <= ha && 0 <= k < a.len() && #[trigger] a[k] == sa.max_value;
            assert(s[k] == m.second_max && s[k] < m.max_value);
        } else {
            let k = choose|k: int|
                0 <= k <= hb && 0 <= k < b.len() && #[trigger] b[k] == sb.max_value;
            assert(s[k + a.len()] == m.second_max && s[k + a.len()] < m.max_value);
        }
    }
    lemma_max_below_unique(s, 0, hs, m.max_value, m.second_max);
}

} // verus!
