//! A binary tree whose nodes live in one array and name their children by
//! position.
//!
//! A tree starts as a single root at position `0` and grows one leaf at a
//! time, so that every child stands behind its parent in the array.

use vstd::prelude::*;

verus! {

/// A node: its key and the positions of its children.
pub struct Node {
    pub key: u32,
    pub id_left: Option<usize>,
    pub id_right: Option<usize>,
}

impl Node {
    fn new(key: u32) -> (node: Self)
        ensures
            node == (Node { key, id_left: None, id_right: None }),
    {
        Self { key, id_left: None, id_right: None }
    }
}

/// A child of node `i` in an array of `len` nodes is absent or stands behind
/// `i`.
pub open spec fn child_ok(child: Option<usize>, i: int, len: nat) -> bool {
    match child {
        Some(c) => i < c < len,
        None => true,
    }
}

/// Every child stands behind its parent.
pub open spec fn children_follow(nodes: Seq<Node>) -> bool {
    forall|i: int|
        0 <= i < nodes.len() ==> child_ok((#[trigger] nodes[i]).id_left, i, nodes.len())
            && child_ok(nodes[i].id_right, i, nodes.len())
}

/// How many positions lie at or behind `root`.
pub open spec fn span(nodes: Seq<Node>, root: Option<usize>) -> nat {
    match root {
        Some(r) => if r < nodes.len() {
            (nodes.len() - r) as nat
        } else {
            0
        },
        None => 0,
    }
}

/// The left child of node `r`, where it stands behind `r`.
pub open spec fn left_of(nodes: Seq<Node>, r: int) -> Option<usize> {
    if child_ok(nodes[r].id_left, r, nodes.len()) {
        nodes[r].id_left
    } else {
        None
    }
}

/// The right child of node `r`, where it stands behind `r`.
pub open spec fn right_of(nodes: Seq<Node>, r: int) -> Option<usize> {
    if child_ok(nodes[r].id_right, r, nodes.len()) {
        nodes[r].id_right
    } else {
        None
    }
}

/// Node `j` belongs to the subtree rooted at `root`.
pub open spec fn in_tree(nodes: Seq<Node>, root: Option<usize>, j: int) -> bool
    decreases span(nodes, root),
{
    match root {
        Some(r) => r < nodes.len() && (r == j || in_tree(nodes, left_of(nodes, r as int), j)
            || in_tree(nodes, right_of(nodes, r as int), j)),
        None => false,
    }
}

/// The sum of the keys in the subtree rooted at `root`.
pub open spec fn subtree_sum(nodes: Seq<Node>, root: Option<usize>) -> int
    decreases span(nodes, root),
{
    match root {
        Some(r) => if r < nodes.len() {
            nodes[r as int].key + subtree_sum(nodes, left_of(nodes, r as int)) + subtree_sum(
                nodes,
                right_of(nodes, r as int),
            )
        } else {
            0
        },
        None => 0,
    }
}

/// `key` lies strictly between the bounds that are given.
pub open spec fn within(key: u32, min: Option<u32>, max: Option<u32>) -> bool {
    &&& min matches Some(lo) ==> lo < key
    &&& max matches Some(hi) ==> key < hi
}

/// The subtree rooted at `root` is a search tree: at every node, the keys of
/// the left subtree are smaller and the keys of the right subtree are larger
/// than the key of the node.
pub open spec fn ordered(nodes: Seq<Node>, root: Option<usize>) -> bool
    decreases span(nodes, root),
{
    match root {
        Some(r) => r < nodes.len() ==> {
            let l = left_of(nodes, r as int);
            let rt = right_of(nodes, r as int);
            &&& ordered(nodes, l)
            &&& ordered(nodes, rt)
            &&& forall|j: int| #[trigger] in_tree(nodes, l, j) ==> nodes[j].key < nodes[r as int].key
            &&& forall|j: int| #[trigger]
                in_tree(nodes, rt, j) ==> nodes[j].key > nodes[r as int].key
        },
        None => true,
    }
}

/// The number of leaves in the subtree rooted at `root`.
pub open spec fn leaves(nodes: Seq<Node>, root: Option<usize>) -> nat
    decreases span(nodes, root),
{
    match root {
        Some(r) => if r < nodes.len() {
            if nodes[r as int].id_left is None && nodes[r as int].id_right is None {
                1
            } else {
                leaves(nodes, left_of(nodes, r as int)) + leaves(nodes, right_of(nodes, r as int))
            }
        } else {
            0
        },
        None => 0,
    }
}

/// The largest sum of the keys on a path from `root` down to a leaf; `None`
/// for an absent subtree.
pub open spec fn heaviest_descent(nodes: Seq<Node>, root: Option<usize>) -> Option<int>
    decreases span(nodes, root),
{
    match root {
        Some(r) => if r < nodes.len() {
            let key = nodes[r as int].key as int;
            match (
                heaviest_descent(nodes, left_of(nodes, r as int)),
                heaviest_descent(nodes, right_of(nodes, r as int)),
            ) {
                (Some(a), Some(b)) => Some(
                    key + if a >= b {
                        a
                    } else {
                        b
                    },
                ),
                (Some(a), None) => Some(key + a),
                (None, Some(b)) => Some(key + b),
                (None, None) => Some(key),
            }
        } else {
            None
        },
        None => None,
    }
}

/// The sum of the keys on the heaviest path that connects two leaves and has
/// node `r` as its highest node; `0` where `r` lacks a child.
pub open spec fn fork_at(nodes: Seq<Node>, r: int) -> int {
    match (
        heaviest_descent(nodes, left_of(nodes, r)),
        heaviest_descent(nodes, right_of(nodes, r)),
    ) {
        (Some(a), Some(b)) => a + nodes[r].key + b,
        _ => 0,
    }
}

/// The largest sum of the keys on a path that connects two leaves of the
/// subtree rooted at `root`; `0` where it has no two leaves.
pub open spec fn heaviest_path(nodes: Seq<Node>, root: Option<usize>) -> int
    decreases span(nodes, root),
{
    match root {
        Some(r) => if r < nodes.len() {
            let below_left = heaviest_path(nodes, left_of(nodes, r as int));
            let below_right = heaviest_path(nodes, right_of(nodes, r as int));
            let below = if below_left >= below_right {
                below_left
            } else {
                below_right
            };
            if below >= fork_at(nodes, r as int) {
                below
            } else {
                fork_at(nodes, r as int)
            }
        } else {
            0
        },
        None => 0,
    }
}

/// The largest sum that the search for the heaviest path forms on its way
/// through the subtree rooted at `root`: at each node its key and the heaviest
/// descent into each of its subtrees.
pub open spec fn widest_sum(nodes: Seq<Node>, root: Option<usize>) -> int
    decreases span(nodes, root),
{
    match root {
        Some(r) => if r < nodes.len() {
            let l = left_of(nodes, r as int);
            let rt = right_of(nodes, r as int);
            let here = nodes[r as int].key + (match heaviest_descent(nodes, l) {
                Some(a) => a,
                None => 0,
            }) + (match heaviest_descent(nodes, rt) {
                Some(b) => b,
                None => 0,
            });
            let wl = widest_sum(nodes, l);
            let wr = widest_sum(nodes, rt);
            let below = if wl >= wr {
                wl
            } else {
                wr
            };
            if below >= here {
                below
            } else {
                here
            }
        } else {
            0
        },
        None => 0,
    }
}

/// Node `c` is a child of node `i`.
pub open spec fn has_child(nodes: Seq<Node>, i: int, c: int) -> bool {
    ||| nodes[i].id_left matches Some(l) && l == c
    ||| nodes[i].id_right matches Some(r) && r == c
}

/// Node `c` is the child of a node that stands before it.
pub open spec fn has_parent(nodes: Seq<Node>, c: int) -> bool {
    exists|i: int| 0 <= i < c && #[trigger] has_child(nodes, i, c)
}

/// The nodes form a tree rooted at position `0`: every child stands behind
/// its parent, the two children of a node differ, and every node but the root
/// is the child of exactly one node.
pub open spec fn is_tree(nodes: Seq<Node>) -> bool {
    &&& nodes.len() >= 1
    &&& children_follow(nodes)
    &&& forall|i: int|
        0 <= i < nodes.len() && (#[trigger] nodes[i]).id_left is Some ==> nodes[i].id_left
            != nodes[i].id_right
    &&& forall|i1: int, i2: int, c: int|
        0 <= i1 < nodes.len() && 0 <= i2 < nodes.len() && #[trigger] has_child(nodes, i1, c)
            && #[trigger] has_child(nodes, i2, c) ==> i1 == i2
    &&& forall|c: int| 1 <= c < nodes.len() ==> #[trigger] has_parent(nodes, c)
}

/// Under `is_tree`, the children that a node names are its children.
proof fn lemma_children(nodes: Seq<Node>, i: int)
    requires
        is_tree(nodes),
        0 <= i < nodes.len(),
    ensures
        left_of(nodes, i) == nodes[i].id_left,
        right_of(nodes, i) == nodes[i].id_right,
        child_ok(nodes[i].id_left, i, nodes.len()),
        child_ok(nodes[i].id_right, i, nodes.len()),
        nodes[i].id_left is Some ==> nodes[i].id_left != nodes[i].id_right,
{
}

/// The nodes of a subtree stand at or behind its root.
proof fn lemma_in_tree_behind(nodes: Seq<Node>, root: Option<usize>, j: int)
    requires
        in_tree(nodes, root, j),
    ensures
        root matches Some(r) && r <= j < nodes.len(),
    decreases span(nodes, root),
{
    let r = root->0 as int;
    if r != j {
        if in_tree(nodes, left_of(nodes, r), j) {
            lemma_in_tree_behind(nodes, left_of(nodes, r), j);
        } else {
            lemma_in_tree_behind(nodes, right_of(nodes, r), j);
        }
    }
}

/// A node of a subtree other than its root is the child of a node of that
/// subtree.
proof fn lemma_parent_in_tree(nodes: Seq<Node>, root: Option<usize>, j: int) -> (q: int)
    requires
        is_tree(nodes),
        in_tree(nodes, root, j),
        root matches Some(r) && r != j,
    ensures
        0 <= q < j,
        in_tree(nodes, root, q),
        has_child(nodes, q, j),
    decreases span(nodes, root),
{
    let r = root->0 as int;
    lemma_in_tree_behind(nodes, root, j);
    lemma_children(nodes, r);
    let sub = if in_tree(nodes, left_of(nodes, r), j) {
        left_of(nodes, r)
    } else {
        right_of(nodes, r)
    };
    lemma_in_tree_behind(nodes, sub, j);
    assert(has_child(nodes, r, sub->0 as int));
    if sub->0 == j {
        r
    } else {
        lemma_parent_in_tree(nodes, sub, j)
    }
}

/// The subtrees of the two children of a node share no node.
proof fn lemma_disjoint(nodes: Seq<Node>, i: int, j: int)
    requires
        is_tree(nodes),
        0 <= i < nodes.len(),
    ensures
        !(in_tree(nodes, nodes[i].id_left, j) && in_tree(nodes, nodes[i].id_right, j)),
    decreases j,
{
    let l = nodes[i].id_left;
    let r = nodes[i].id_right;
    if in_tree(nodes, l, j) && in_tree(nodes, r, j) {
        lemma_children(nodes, i);
        lemma_in_tree_behind(nodes, l, j);
        lemma_in_tree_behind(nodes, r, j);
        assert(has_child(nodes, i, l->0 as int));
        assert(has_child(nodes, i, r->0 as int));
        if l->0 == j {
            let q = lemma_parent_in_tree(nodes, r, j);
            lemma_in_tree_behind(nodes, r, q);
            assert(q == i);
        } else if r->0 == j {
            let q = lemma_parent_in_tree(nodes, l, j);
            lemma_in_tree_behind(nodes, l, q);
            assert(q == i);
        } else {
            let q1 = lemma_parent_in_tree(nodes, l, j);
            let q2 = lemma_parent_in_tree(nodes, r, j);
            assert(q1 == q2);
            lemma_disjoint(nodes, i, q1);
        }
    }
}

/// How many of the positions below `hi` belong to the subtree rooted at
/// `root`.
pub open spec fn members_below(nodes: Seq<Node>, root: Option<usize>, hi: nat) -> nat
    decreases hi,
{
    if hi == 0 {
        0
    } else {
        members_below(nodes, root, (hi - 1) as nat) + if in_tree(nodes, root, hi - 1) {
            1nat
        } else {
            0nat
        }
    }
}

proof fn lemma_members_bound(nodes: Seq<Node>, root: Option<usize>, hi: nat)
    ensures
        members_below(nodes, root, hi) <= hi,
    decreases hi,
{
    if hi > 0 {
        lemma_members_bound(nodes, root, (hi - 1) as nat);
    }
}

/// The members of a subtree are its root and the members of the subtrees of
/// its two children.
proof fn lemma_members_split(nodes: Seq<Node>, i: usize, hi: nat)
    requires
        is_tree(nodes),
        i < nodes.len(),
    ensures
        members_below(nodes, Some(i), hi) == (if i < hi {
            1nat
        } else {
            0nat
        }) + members_below(nodes, nodes[i as int].id_left, hi) + members_below(
            nodes,
            nodes[i as int].id_right,
            hi,
        ),
    decreases hi,
{
    if hi > 0 {
        let j = hi - 1;
        lemma_members_split(nodes, i, j as nat);
        lemma_children(nodes, i as int);
        lemma_disjoint(nodes, i as int, j);
        if in_tree(nodes, nodes[i as int].id_left, j) {
            lemma_in_tree_behind(nodes, nodes[i as int].id_left, j);
        }
        if in_tree(nodes, nodes[i as int].id_right, j) {
            lemma_in_tree_behind(nodes, nodes[i as int].id_right, j);
        }
    }
}

/// A subtree has at most as many leaves as members.
proof fn lemma_leaves_members(nodes: Seq<Node>, root: Option<usize>)
    requires
        is_tree(nodes),
    ensures
        leaves(nodes, root) <= members_below(nodes, root, nodes.len()),
    decreases span(nodes, root),
{
    if let Some(r) = root {
        if r < nodes.len() {
            lemma_children(nodes, r as int);
            lemma_members_split(nodes, r, nodes.len());
            lemma_leaves_members(nodes, nodes[r as int].id_left);
            lemma_leaves_members(nodes, nodes[r as int].id_right);
        }
    }
}

/// A tree has at most as many leaves as nodes.
pub proof fn lemma_leaves_bound(nodes: Seq<Node>, root: Option<usize>)
    requires
        is_tree(nodes),
    ensures
        leaves(nodes, root) <= nodes.len(),
{
    lemma_leaves_members(nodes, root);
    lemma_members_bound(nodes, root, nodes.len());
}

proof fn lemma_sum_nonnegative(nodes: Seq<Node>, root: Option<usize>)
    ensures
        subtree_sum(nodes, root) >= 0,
    decreases span(nodes, root),
{
    if let Some(r) = root {
        if r < nodes.len() {
            lemma_sum_nonnegative(nodes, left_of(nodes, r as int));
            lemma_sum_nonnegative(nodes, right_of(nodes, r as int));
        }
    }
}

proof fn lemma_paths_nonnegative(nodes: Seq<Node>, root: Option<usize>)
    ensures
        heaviest_path(nodes, root) >= 0,
        widest_sum(nodes, root) >= 0,
        heaviest_descent(nodes, root) matches Some(d) ==> d >= 0,
    decreases span(nodes, root),
{
    if let Some(r) = root {
        if r < nodes.len() {
            lemma_paths_nonnegative(nodes, left_of(nodes, r as int));
            lemma_paths_nonnegative(nodes, right_of(nodes, r as int));
        }
    }
}

/// The sum of the keys of all the nodes.
pub open spec fn keys_total(nodes: Seq<Node>) -> int
    decreases nodes.len(),
{
    if nodes.len() == 0 {
        0
    } else {
        keys_total(nodes.drop_last()) + nodes.last().key
    }
}

/// The sum of the keys of the nodes below position `hi` that belong to the
/// subtree rooted at `root`.
pub open spec fn keys_below(nodes: Seq<Node>, root: Option<usize>, hi: nat) -> int
    decreases hi,
{
    if hi == 0 {
        0
    } else {
        keys_below(nodes, root, (hi - 1) as nat) + if in_tree(nodes, root, hi - 1) {
            nodes[hi - 1].key as int
        } else {
            0
        }
    }
}

proof fn lemma_keys_split(nodes: Seq<Node>, i: usize, hi: nat)
    requires
        is_tree(nodes),
        i < nodes.len(),
    ensures
        keys_below(nodes, Some(i), hi) == (if i < hi {
            nodes[i as int].key as int
        } else {
            0
        }) + keys_below(nodes, nodes[i as int].id_left, hi) + keys_below(
            nodes,
            nodes[i as int].id_right,
            hi,
        ),
    decreases hi,
{
    if hi > 0 {
        let j = hi - 1;
        lemma_keys_split(nodes, i, j as nat);
        lemma_children(nodes, i as int);
        lemma_disjoint(nodes, i as int, j);
        if in_tree(nodes, nodes[i as int].id_left, j) {
            lemma_in_tree_behind(nodes, nodes[i as int].id_left, j);
        }
        if in_tree(nodes, nodes[i as int].id_right, j) {
            lemma_in_tree_behind(nodes, nodes[i as int].id_right, j);
        }
    }
}

proof fn lemma_keys_below_none(nodes: Seq<Node>, hi: nat)
    ensures
        keys_below(nodes, None, hi) == 0,
    decreases hi,
{
    if hi > 0 {
        lemma_keys_below_none(nodes, (hi - 1) as nat);
    }
}

proof fn lemma_sum_keys_below(nodes: Seq<Node>, root: Option<usize>)
    requires
        is_tree(nodes),
        root matches Some(r) ==> r < nodes.len(),
    ensures
        subtree_sum(nodes, root) == keys_below(nodes, root, nodes.len()),
    decreases span(nodes, root),
{
    match root {
        Some(r) => {
            lemma_children(nodes, r as int);
            lemma_keys_split(nodes, r, nodes.len());
            lemma_sum_keys_below(nodes, nodes[r as int].id_left);
            lemma_sum_keys_below(nodes, nodes[r as int].id_right);
        },
        None => {
            lemma_keys_below_none(nodes, nodes.len());
        },
    }
}

/// The child of a node of a subtree belongs to the subtree.
proof fn lemma_child_in_tree(nodes: Seq<Node>, root: Option<usize>, q: int, j: int)
    requires
        is_tree(nodes),
        in_tree(nodes, root, q),
        has_child(nodes, q, j),
    ensures
        in_tree(nodes, root, j),
    decreases span(nodes, root),
{
    let r = root->0 as int;
    lemma_in_tree_behind(nodes, root, q);
    lemma_children(nodes, r);
    lemma_children(nodes, q);
    if r == q {
        if nodes[q].id_left matches Some(l) && l == j {
            assert(in_tree(nodes, nodes[q].id_left, j));
        } else {
            assert(in_tree(nodes, nodes[q].id_right, j));
        }
    } else if in_tree(nodes, left_of(nodes, r), q) {
        lemma_child_in_tree(nodes, left_of(nodes, r), q, j);
    } else {
        lemma_child_in_tree(nodes, right_of(nodes, r), q, j);
    }
}

/// Every node of a tree belongs to the subtree of the root.
pub proof fn lemma_all_in_tree(nodes: Seq<Node>, j: int)
    requires
        is_tree(nodes),
        0 <= j < nodes.len(),
    ensures
        in_tree(nodes, Some(0), j),
    decreases j,
{
    if j > 0 {
        assert(has_parent(nodes, j));
        let q = choose|q: int| 0 <= q < j && #[trigger] has_child(nodes, q, j);
        lemma_all_in_tree(nodes, q);
        lemma_child_in_tree(nodes, Some(0), q, j);
    }
}

proof fn lemma_keys_below_all(nodes: Seq<Node>, hi: nat)
    requires
        is_tree(nodes),
        hi <= nodes.len(),
    ensures
        keys_below(nodes, Some(0), hi) == keys_total(nodes.take(hi as int)),
    decreases hi,
{
    if hi > 0 {
        lemma_keys_below_all(nodes, (hi - 1) as nat);
        lemma_all_in_tree(nodes, hi - 1);
        assert(nodes.take(hi as int).drop_last() =~= nodes.take(hi - 1));
    }
}

/// The keys in the subtree of the root of a tree are the keys of all the
/// nodes.
pub proof fn lemma_sum_is_total(nodes: Seq<Node>)
    requires
        is_tree(nodes),
    ensures
        subtree_sum(nodes, Some(0)) == keys_total(nodes),
{
    lemma_sum_keys_below(nodes, Some(0));
    lemma_keys_below_all(nodes, nodes.len());
    assert(nodes.take(nodes.len() as int) =~= nodes);
}

/// A binary tree stored in one array, the root first.
pub struct Tree {
    nodes: Vec<Node>,
}

impl View for Tree {
    type V = Seq<Node>;

    /// The nodes by position; position `0` holds the root.
    closed spec fn view(&self) -> Seq<Node> {
        self.nodes@
    }
}

impl Tree {
    /// A tree that consists of a root with the given key.
    pub fn with_root(key: u32) -> (tree: Self)
        ensures
            tree@ == seq![Node { key, id_left: None, id_right: None }],
            is_tree(tree@),
    {
        let tree = Self { nodes: vec![Node::new(key)] };
        assert(tree.nodes@ =~= seq![Node { key, id_left: None, id_right: None }]);
        tree
    }

    /// Adds a leaf with the given key below the node `parent_id`, as its left
    /// child if `is_left` and as its right child otherwise, and returns the
    /// position of the new node. The node `parent_id` has to exist and to lack
    /// that child.
    pub fn add_node(&mut self, parent_id: usize, key: u32, is_left: bool) -> (child_id: usize)
        requires
            is_tree(old(self)@),
            parent_id < old(self)@.len(),
            is_left ==> old(self)@[parent_id as int].id_left is None,
            !is_left ==> old(self)@[parent_id as int].id_right is None,
        ensures
            child_id == old(self)@.len(),
            final(self)@ == old(self)@.update(
                parent_id as int,
                if is_left {
                    Node {
                        key: old(self)@[parent_id as int].key,
                        id_left: Some(child_id),
                        id_right: old(self)@[parent_id as int].id_right,
                    }
                } else {
                    Node {
                        key: old(self)@[parent_id as int].key,
                        id_left: old(self)@[parent_id as int].id_left,
                        id_right: Some(child_id),
                    }
                },
            ).push(Node { key, id_left: None, id_right: None }),
            is_tree(final(self)@),
    {
        let ghost before = self.nodes@;
        let child_id = self.nodes.len();
        self.nodes.push(Node::new(key));

        let parent_key = self.nodes[parent_id].key;
        let parent_left = self.nodes[parent_id].id_left;
        let parent_right = self.nodes[parent_id].id_right;
        let parent = if is_left {
            Node { key: parent_key, id_left: Some(child_id), id_right: parent_right }
        } else {
            Node { key: parent_key, id_left: parent_left, id_right: Some(child_id) }
        };
        self.nodes.set(parent_id, parent);
        proof {
            let after = self.nodes@;
            assert(after =~= before.update(parent_id as int, parent).push(
                Node { key, id_left: None, id_right: None },
            ));
            assert forall|i: int| 0 <= i < after.len() implies child_ok(
                (#[trigger] after[i]).id_left,
                i,
                after.len(),
            ) && child_ok(after[i].id_right, i, after.len()) by {
                if i < before.len() {
                    assert(child_ok(before[i].id_left, i, before.len()));
                    assert(child_ok(before[i].id_right, i, before.len()));
                }
            }
            assert forall|i: int|
                0 <= i < after.len() && (#[trigger] after[i]).id_left is Some implies after[i].id_left
                != after[i].id_right by {
                if i < before.len() {
                    assert(child_ok(before[i].id_left, i, before.len()));
                    assert(child_ok(before[i].id_right, i, before.len()));
                    assert(before[i].id_left is Some ==> before[i].id_left != before[i].id_right);
                }
            }
            assert forall|i: int, c: int|
                0 <= i < before.len() && c < before.len() implies (#[trigger] has_child(after, i, c)
                == has_child(before, i, c)) by {}
            assert forall|i: int| 0 <= i < after.len() && #[trigger] has_child(
                after,
                i,
                child_id as int,
            ) implies i == parent_id by {
                if i < before.len() {
                    assert(child_ok(before[i].id_left, i, before.len()));
                    assert(child_ok(before[i].id_right, i, before.len()));
                }
            }
            assert forall|i1: int, i2: int, c: int|
                0 <= i1 < after.len() && 0 <= i2 < after.len() && #[trigger] has_child(after, i1, c)
                    && #[trigger] has_child(after, i2, c) implies i1 == i2 by {
                assert(child_ok(after[i1].id_left, i1, after.len()));
                assert(child_ok(after[i1].id_right, i1, after.len()));
                if c < before.len() {
                    assert(has_child(before, i1, c));
                    assert(has_child(before, i2, c));
                }
            }
            assert forall|c: int| 1 <= c < after.len() implies #[trigger] has_parent(after, c) by {
                if c < before.len() {
                    assert(has_parent(before, c));
                    let i = choose|i: int| 0 <= i < c && #[trigger] has_child(before, i, c);
                    assert(has_child(after, i, c));
                } else {
                    assert(has_child(after, parent_id as int, c));
                }
            }
        }
        child_id
    }

    /// The sum of all the keys in the tree, which has to fit in a `u32`.
    pub fn sum(&self) -> (total: u32)
        requires
            is_tree(self@),
            keys_total(self@) <= u32::MAX,
        ensures
            total == keys_total(self@),
    {
        proof {
            lemma_sum_is_total(self@);
        }
        self.rec_sum(Some(0))
    }

    /// The sum of the keys in the subtree rooted at `node_id`.
    fn rec_sum(&self, node_id: Option<usize>) -> (total: u32)
        requires
            is_tree(self@),
            node_id matches Some(id) ==> id < self@.len(),
            subtree_sum(self@, node_id) <= u32::MAX,
        ensures
            total == subtree_sum(self@, node_id),
        decreases span(self@, node_id),
    {
        if let Some(id) = node_id {
            let node = &self.nodes[id];
            proof {
                lemma_children(self@, id as int);
                lemma_sum_nonnegative(self@, node.id_left);
                lemma_sum_nonnegative(self@, node.id_right);
            }
            let sum_left = self.rec_sum(node.id_left);
            let sum_right = self.rec_sum(node.id_right);

            return sum_left + sum_right + node.key;
        }
        0
    }

    /// Whether the tree is a search tree.
    pub fn is_bst(&self) -> (ok: bool)
        requires
            is_tree(self@),
        ensures
            ok == ordered(self@, Some(0)),
    {
        self.rec_is_bst(Some(0), None, None)
    }

    /// Whether the subtree rooted at `node_id` is a search tree all of whose
    /// keys lie strictly between `min` and `max`.
    fn rec_is_bst(&self, node_id: Option<usize>, min: Option<u32>, max: Option<u32>) -> (ok: bool)
        requires
            is_tree(self@),
            node_id matches Some(id) ==> id < self@.len(),
        ensures
            ok == (ordered(self@, node_id) && forall|j: int| #[trigger]
                in_tree(self@, node_id, j) ==> within(self@[j].key, min, max)),
        decreases span(self@, node_id),
    {
        // An empty subtree is a search tree
        let Some(id) = node_id else {
            return true;
        };
        let node = &self.nodes[id];
        proof {
            lemma_children(self@, id as int);
            assert(in_tree(self@, node_id, id as int));
        }

        // The key of this node has to keep the bounds
        if let Some(min_val) = min {
            if node.key <= min_val {
                return false;
            }
        }
        if let Some(max_val) = max {
            if node.key >= max_val {
                return false;
            }
        }
        // So have the keys of the two subtrees

        let left_ok = self.rec_is_bst(node.id_left, min, Some(node.key));
        let ghost all_within = forall|j: int| #[trigger]
            in_tree(self@, node_id, j) ==> within(self@[j].key, min, max);
        if !left_ok {
            proof {
                if ordered(self@, node_id) && all_within {
                    assert forall|j: int| #[trigger]
                        in_tree(self@, node.id_left, j) implies within(
                        self@[j].key,
                        min,
                        Some(node.key),
                    ) by {
                        assert(in_tree(self@, node_id, j));
                    }
                }
            }
            return false;
        }
        let right_ok = self.rec_is_bst(node.id_right, Some(node.key), max);
        proof {
            if ordered(self@, node_id) && all_within {
                assert forall|j: int| #[trigger]
                    in_tree(self@, node.id_right, j) implies within(
                    self@[j].key,
                    Some(node.key),
                    max,
                ) by {
                    assert(in_tree(self@, node_id, j));
                }
            }
            if right_ok {
                assert forall|j: int| #[trigger]
                    in_tree(self@, node_id, j) implies within(self@[j].key, min, max) by {
                    if j != id {
                        if in_tree(self@, node.id_left, j) {
                            assert(within(self@[j].key, min, Some(node.key)));
                        } else {
                            assert(in_tree(self@, node.id_right, j));
                            assert(within(self@[j].key, Some(node.key), max));
                        }
                    }
                }
                assert forall|j: int| #[trigger]
                    in_tree(self@, node.id_left, j) implies self@[j].key < node.key by {
                    assert(within(self@[j].key, min, Some(node.key)));
                }
                assert forall|j: int| #[trigger]
                    in_tree(self@, node.id_right, j) implies self@[j].key > node.key by {
                    assert(within(self@[j].key, Some(node.key), max));
                }
            }
        }
        right_ok
    }

    /// The largest sum of the keys on a path that connects two leaves. The tree
    /// has to have two leaves at least.
    pub fn max_path_sum(&self) -> (best: u32)
        requires
            is_tree(self@),
            leaves(self@, Some(0)) >= 2,
            widest_sum(self@, Some(0)) <= u32::MAX,
        ensures
            best == heaviest_path(self@, Some(0)),
    {
        let mut max_sum: u32 = 0;
        proof {
            lemma_paths_nonnegative(self@, Some(0));
        }
        self.rec_max_path_sum(Some(0), &mut max_sum);
        max_sum
    }

    /// The number of leaves in the subtree rooted at `node_id`.
    pub fn count_leaves(&self, node_id: Option<usize>) -> (count: usize)
        requires
            is_tree(self@),
            node_id matches Some(id) ==> id < self@.len(),
        ensures
            count == leaves(self@, node_id),
        decreases span(self@, node_id),
    {
        let Some(id) = node_id else {
            return 0;
        };
        let node = &self.nodes[id];

        // A leaf node has no children
        if node.id_left.is_none() && node.id_right.is_none() {
            return 1;
        }
        proof {
            lemma_children(self@, id as int);
            lemma_leaves_bound(self@, node_id);
            assert(self.nodes@.len() == self.nodes.len());
        }
        // Count leaves in both subtrees

        self.count_leaves(node.id_left) + self.count_leaves(node.id_right)
    }

    /// The largest sum of the keys on a path from `node_id` down to a leaf.
    /// Raises `max_sum` to the largest sum of the keys on a path that connects
    /// two leaves of the subtree rooted at `node_id`, where that is above it.
    fn rec_max_path_sum(&self, node_id: Option<usize>, max_sum: &mut u32) -> (down: Option<u32>)
        requires
            is_tree(self@),
            node_id matches Some(id) ==> id < self@.len(),
            widest_sum(self@, node_id) <= u32::MAX,
        ensures
            match down {
                Some(d) => heaviest_descent(self@, node_id) == Some(d as int),
                None => heaviest_descent(self@, node_id) is None,
            },
            *final(max_sum) == if *old(max_sum) >= heaviest_path(self@, node_id) {
                *old(max_sum) as int
            } else {
                heaviest_path(self@, node_id)
            },
        decreases span(self@, node_id),
    {
        let id = node_id?;
        let node = &self.nodes[id];
        proof {
            lemma_children(self@, id as int);
            lemma_paths_nonnegative(self@, node.id_left);
            lemma_paths_nonnegative(self@, node.id_right);
        }

        // The heaviest descents into the two subtrees
        let left_max = self.rec_max_path_sum(node.id_left, max_sum);
        let right_max = self.rec_max_path_sum(node.id_right, max_sum);

        match (left_max, right_max) {
            (Some(left), Some(right)) => {
                // A path through this node connects a leaf on either side
                let path_through_node = left + node.key + right;
                *max_sum = (*max_sum).max(path_through_node);

                Some(node.key + left.max(right))
            },
            (Some(left), None) => Some(node.key + left),
            (None, Some(right)) => Some(node.key + right),
            (None, None) => Some(node.key),
        }
    }
}

} // verus!
