use algolab::existence_tree::{MinMaxNode, SegmentTree};

#[test]
fn coverage_array_holds_two_but_not_three() {
    let tree = SegmentTree::new(&[0, 1, 1, 2, 1, 0]);
    assert!(tree.exists_value_in_range(0, 5, 2));
    assert!(!tree.exists_value_in_range(0, 5, 3));
    assert!(tree.exists_value_in_range(3, 3, 2));
    assert!(!tree.exists_value_in_range(0, 2, 2));
    assert!(!tree.exists_value_in_range(4, 5, 2));
    assert!(tree.exists_value_in_range(5, 5, 0));
    assert_eq!(tree.root(), MinMaxNode { min_value: 0, max_value: 2 });
}

#[test]
fn empty_existence_tree_holds_nothing() {
    let tree = SegmentTree::new(&[]);
    assert!(!tree.exists_value_in_range(0, 0, 0));
    assert!(!tree.exists_value_in_range(0, 9, i64::MIN));
    assert_eq!(tree.root(), MinMaxNode::empty());
}

#[test]
fn existence_agrees_with_a_linear_scan() {
    let values: [i64; 9] = [4, -1, 7, 7, 0, 3, -5, 4, 2];
    let tree = SegmentTree::new(&values);
    for l in 0..values.len() {
        for r in l..values.len() {
            for k in -6..9 {
                let expected = values[l..=r].iter().any(|&v| v == k);
                assert_eq!(tree.exists_value_in_range(l, r, k), expected);
            }
        }
    }
}

#[test]
fn ranges_of_one_position() {
    let tree = SegmentTree::new(&[1, 2, 3]);
    assert!(tree.exists_value_in_range(0, 0, 1));
    assert!(!tree.exists_value_in_range(0, 0, 2));
    assert!(tree.exists_value_in_range(2, 2, 3));
    assert!(tree.exists_value_in_range(1, 2, 3));
    assert!(!tree.exists_value_in_range(0, 1, 3));
}

#[test]
fn min_max_merge_takes_both_extremes() {
    let a = MinMaxNode::from_single(4);
    let b = MinMaxNode::from_single(-2);
    assert_eq!(MinMaxNode::merge(a, b), MinMaxNode { min_value: -2, max_value: 4 });
    assert_eq!(MinMaxNode::merge(MinMaxNode::empty(), a), a);
}
