use algolab::chmin_tree::{Node, SegmentTree};

#[test]
fn chmin_then_max_over_five_values() {
    let mut tree = SegmentTree::new(&[5, 1, 4, 2, 8]);
    assert_eq!(tree.range_max(0, 4), 8);
    tree.range_chmin(0, 4, 4);
    assert_eq!(tree.range_max(0, 4), 4);
    assert_eq!(tree.range_max(1, 3), 4);
    assert_eq!(tree.range_max(1, 1), 1);
    assert_eq!(tree.range_max(3, 3), 2);
    assert_eq!(tree.range_max(4, 4), 4);
}

#[test]
fn all_equal_values_have_no_second_maximum() {
    let mut tree = SegmentTree::new(&[3, 3, 3]);
    assert_eq!(tree.root(), Node { max_value: 3, second_max: i64::MIN });
    tree.range_chmin(0, 2, 3);
    assert_eq!(tree.root(), Node { max_value: 3, second_max: i64::MIN });
    for i in 0..3 {
        assert_eq!(tree.range_max(i, i), 3);
    }
    tree.range_chmin(0, 2, 2);
    for i in 0..3 {
        assert_eq!(tree.range_max(i, i), 2);
    }
    assert_eq!(tree.root(), Node { max_value: 2, second_max: i64::MIN });
}

#[test]
fn empty_tree_has_no_data() {
    let mut tree = SegmentTree::new(&[]);
    assert_eq!(tree.range_max(0, 0), i64::MIN);
    assert_eq!(tree.range_max(3, 7), i64::MIN);
    tree.range_chmin(0, 5, 1);
    assert_eq!(tree.range_max(0, 5), i64::MIN);
    assert_eq!(tree.root(), Node::empty());
}

#[test]
fn single_element_tree() {
    let mut tree = SegmentTree::new(&[7]);
    tree.range_chmin(0, 0, 10);
    assert_eq!(tree.range_max(0, 0), 7);
    tree.range_chmin(0, 0, 5);
    assert_eq!(tree.range_max(0, 0), 5);
}

fn reference_chmin(values: &mut [i64], l: usize, r: usize, x: i64) {
    for v in values[l..=r].iter_mut() {
        *v = (*v).min(x);
    }
}

fn reference_max(values: &[i64], l: usize, r: usize) -> i64 {
    *values[l..=r].iter().max().unwrap()
}

#[test]
fn tree_agrees_with_an_array_under_many_updates() {
    let mut values: Vec<i64> = vec![9, 3, 7, 7, 1, 8, 2, 6, 5, 9, 4];
    let mut tree = SegmentTree::new(&values);
    let n = values.len();
    let mut seed: u64 = 12345;
    for _ in 0..300 {
        seed = seed.wrapping_mul(6364136223846793005).wrapping_add(1442695040888963407);
        let a = ((seed >> 33) as usize) % n;
        seed = seed.wrapping_mul(6364136223846793005).wrapping_add(1442695040888963407);
        let b = ((seed >> 33) as usize) % n;
        let (l, r) = if a <= b { (a, b) } else { (b, a) };
        seed = seed.wrapping_mul(6364136223846793005).wrapping_add(1442695040888963407);
        let x = ((seed >> 33) % 12) as i64 - 1;
        if seed % 2 == 0 {
            tree.range_chmin(l, r, x);
            reference_chmin(&mut values, l, r, x);
        } else {
            assert_eq!(tree.range_max(l, r), reference_max(&values, l, r));
        }
    }
    for i in 0..n {
        assert_eq!(tree.range_max(i, i), values[i]);
    }
}

#[test]
fn root_of_a_fresh_tree_is_the_summary() {
    let tree = SegmentTree::new(&[5, 1, 4, 2, 8]);
    assert_eq!(tree.root(), Node { max_value: 8, second_max: 5 });
    let tree = SegmentTree::new(&[8, 8, 1]);
    assert_eq!(tree.root(), Node { max_value: 8, second_max: 1 });
}

#[test]
fn chmin_twice_is_chmin_once() {
    let mut once = SegmentTree::new(&[5, 1, 4, 2, 8]);
    let mut twice = SegmentTree::new(&[5, 1, 4, 2, 8]);
    once.range_chmin(1, 4, 3);
    twice.range_chmin(1, 4, 3);
    twice.range_chmin(1, 4, 3);
    for i in 0..5 {
        assert_eq!(once.range_max(i, i), twice.range_max(i, i));
    }
    assert_eq!(once.root(), twice.root());
}

#[test]
fn chmin_bounds_its_range_and_no_other() {
    let mut tree = SegmentTree::new(&[5, 1, 4, 2, 8, 9]);
    tree.range_chmin(1, 3, 3);
    assert!(tree.range_max(1, 3) <= 3);
    assert_eq!(tree.range_max(1, 3), 3);
    assert_eq!(tree.range_max(0, 0), 5);
    assert_eq!(tree.range_max(4, 5), 9);
}

#[test]
fn disjoint_updates_commute() {
    let mut ab = SegmentTree::new(&[5, 1, 4, 2, 8, 9]);
    let mut ba = SegmentTree::new(&[5, 1, 4, 2, 8, 9]);
    ab.range_chmin(0, 2, 3);
    ab.range_chmin(3, 5, 7);
    ba.range_chmin(3, 5, 7);
    ba.range_chmin(0, 2, 3);
    for i in 0..6 {
        assert_eq!(ab.range_max(i, i), ba.range_max(i, i));
    }
}

#[test]
fn threshold_at_either_maximum() {
    // second maximum 5, maximum 8
    let mut tree = SegmentTree::new(&[5, 1, 4, 2, 8]);
    tree.range_chmin(0, 4, 8);
    assert_eq!(tree.root(), Node { max_value: 8, second_max: 5 });
    tree.range_chmin(0, 4, 5);
    assert_eq!(tree.root(), Node { max_value: 5, second_max: 4 });
    assert_eq!(tree.range_max(4, 4), 5);
    assert_eq!(tree.range_max(0, 0), 5);
    assert_eq!(tree.range_max(2, 2), 4);
}

#[test]
fn threshold_of_the_smallest_value() {
    let mut tree = SegmentTree::new(&[5, 1, 4]);
    tree.range_chmin(0, 1, i64::MIN);
    assert_eq!(tree.range_max(0, 1), i64::MIN);
    assert_eq!(tree.range_max(0, 2), 4);
    assert_eq!(tree.range_max(2, 2), 4);
}

#[test]
fn merge_of_two_summaries() {
    let a = Node { max_value: 7, second_max: 3 };
    let b = Node { max_value: 7, second_max: 5 };
    let c = Node { max_value: 9, second_max: 8 };
    assert_eq!(Node::merge(a, b), Node { max_value: 7, second_max: 5 });
    assert_eq!(Node::merge(a, c), Node { max_value: 9, second_max: 8 });
    assert_eq!(Node::merge(c, Node::from_single(4)), Node { max_value: 9, second_max: 8 });
    assert_eq!(Node::merge(Node::from_single(4), Node::from_single(6)), Node { max_value: 6, second_max: 4 });
    assert_eq!(Node::merge(Node::empty(), a), a);
    assert_eq!(Node::merge(a, Node::empty()), a);
}

#[test]
fn update_that_lowers_nothing_changes_no_node() {
    let mut tree = SegmentTree::new(&[3, 3, 3]);
    let before = tree.to_nodes();
    assert_eq!(before.len(), 12);
    tree.range_chmin(0, 2, 3);
    assert_eq!(tree.to_nodes(), before);
    assert_eq!(tree.range_max(0, 2), 3);
    tree.range_chmin(0, 2, 9);
    assert_eq!(tree.to_nodes(), before);

    let mut single = SegmentTree::new(&[7]);
    let before = single.to_nodes();
    assert_eq!(before.len(), 4);
    single.range_chmin(0, 0, 10);
    assert_eq!(single.to_nodes(), before);
    assert_eq!(single.range_max(0, 0), 7);
}

#[test]
fn threshold_between_the_maxima_changes_the_root_only() {
    // second maximum 5, maximum 8
    let mut tree = SegmentTree::new(&[5, 1, 4, 2, 8]);
    let mut expected = tree.to_nodes();
    assert_eq!(expected[1], Node { max_value: 8, second_max: 5 });
    expected[1] = Node { max_value: 6, second_max: 5 };
    tree.range_chmin(0, 4, 6);
    assert_eq!(tree.to_nodes(), expected);
    assert_eq!(tree.range_max(4, 4), 6);
    assert_eq!(tree.range_max(0, 3), 5);
}

#[test]
fn second_equal_update_changes_no_node() {
    let mut tree = SegmentTree::new(&[9, 3, 7, 7, 1, 8, 2, 6, 5, 9, 4]);
    for (l, r, x) in [(2, 7, 6), (0, 10, 8), (3, 3, 0), (5, 9, 5), (0, 4, 2)] {
        tree.range_chmin(l, r, x);
        let once = tree.to_nodes();
        tree.range_chmin(l, r, x);
        assert_eq!(tree.to_nodes(), once);
    }
}

#[test]
fn query_over_the_whole_tree_changes_no_node() {
    let mut tree = SegmentTree::new(&[5, 1, 4, 2, 8]);
    tree.range_chmin(0, 4, 6);
    let before = tree.to_nodes();
    assert_eq!(tree.range_max(0, 4), 6);
    assert_eq!(tree.to_nodes(), before);
}

#[test]
fn every_node_of_an_empty_tree_is_empty() {
    let mut tree = SegmentTree::new(&[]);
    assert_eq!(tree.to_nodes(), vec![Node::empty(); 4]);
    tree.range_chmin(0, 0, 1);
    assert_eq!(tree.range_max(0, 0), i64::MIN);
    assert_eq!(tree.to_nodes(), vec![Node::empty(); 4]);
}
