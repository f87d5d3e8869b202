use algolab::binary_tree::Tree;

#[test]
fn test_sum() {
    let mut tree = Tree::with_root(10);
    assert_eq!(tree.sum(), 10);

    tree.add_node(0, 5, true); // id 1
    tree.add_node(0, 22, false); // id 2
    assert_eq!(tree.sum(), 37);

    tree.add_node(1, 7, false); // id 3
    tree.add_node(2, 20, true); // id 4
    assert_eq!(tree.sum(), 64);
}

#[test]
fn test_is_bst_valid() {
    //       10
    //      /  \
    //     5    15
    //    / \   /
    //   3   7 12
    let mut tree = Tree::with_root(10);
    tree.add_node(0, 5, true);
    tree.add_node(0, 15, false);
    tree.add_node(1, 3, true);
    tree.add_node(1, 7, false);
    tree.add_node(2, 12, true);

    assert!(tree.is_bst());
}

#[test]
fn test_is_bst_invalid_subtree() {
    // 12 is in the left subtree but above the root
    //       10
    //      /  \
    //     5    15
    //      \
    //      12
    let mut tree = Tree::with_root(10);
    tree.add_node(0, 5, true);
    tree.add_node(0, 15, false);
    tree.add_node(1, 12, false);

    assert!(!tree.is_bst());
}

#[test]
fn test_is_bst_equal_values() {
    let mut tree = Tree::with_root(10);
    tree.add_node(0, 10, true);
    tree.add_node(0, 15, false);

    assert!(!tree.is_bst());
}

#[test]
fn test_max_path_sum_simple() {
    //     10
    //    /  \
    //   5    15
    let mut tree = Tree::with_root(10);
    tree.add_node(0, 5, true);
    tree.add_node(0, 15, false);

    assert_eq!(tree.max_path_sum(), 30);
}

#[test]
fn test_max_path_sum_not_through_root() {
    //         1
    //        / \
    //       50  2
    //      / \   \
    //     30 40   3
    let mut tree = Tree::with_root(1);
    tree.add_node(0, 50, true);
    tree.add_node(0, 2, false);
    tree.add_node(1, 30, true);
    tree.add_node(1, 40, false);
    tree.add_node(2, 3, false);

    assert_eq!(tree.max_path_sum(), 120);
}

#[test]
fn add_node_returns_the_next_position() {
    let mut tree = Tree::with_root(1);
    assert_eq!(tree.add_node(0, 2, true), 1);
    assert_eq!(tree.add_node(1, 3, false), 2);
    assert_eq!(tree.add_node(0, 4, false), 3);
    assert_eq!(tree.count_leaves(Some(0)), 2);
    assert_eq!(tree.count_leaves(Some(1)), 1);
    assert_eq!(tree.count_leaves(None), 0);
}

#[test]
fn single_node_is_a_search_tree_with_one_leaf() {
    let tree = Tree::with_root(9);
    assert!(tree.is_bst());
    assert_eq!(tree.count_leaves(Some(0)), 1);
    assert_eq!(tree.sum(), 9);
}
