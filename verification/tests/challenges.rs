use algolab::challenges::brackets::max_depth;
use algolab::challenges::majority::majority;
use algolab::challenges::missing::missing_number;
use algolab::challenges::runs::rle;

#[test]
fn test_max_depth() {
    assert_eq!(max_depth("((()))"), 3);
    assert_eq!(max_depth("(a(b(c)d)e)"), 3);
    assert_eq!(max_depth("abc"), 0);
    assert_eq!(max_depth("( a(b) (c) (d(e(f)g)h) I (j(k)l)m)"), 4);
}

#[test]
fn max_depth_passes_over_unmatched_closing() {
    assert_eq!(max_depth(""), 0);
    assert_eq!(max_depth(")))"), 0);
    assert_eq!(max_depth("))(("), 2);
    assert_eq!(max_depth("()()"), 1);
    assert_eq!(max_depth("(()"), 2);
}

#[test]
fn test_missing_number() {
    assert_eq!(missing_number(&[3, 0, 1]), 2);
    assert_eq!(missing_number(&[0, 1, 2, 4]), 3);
    assert_eq!(missing_number(&[5, 2, 0, 1, 3]), 4);
    assert_eq!(missing_number(&[1]), 0);
}

#[test]
fn test_missing_number_edge_cases() {
    assert_eq!(missing_number(&[]), 0);
    assert_eq!(missing_number(&[0]), 1);
}

#[test]
fn missing_number_is_an_exclusive_or() {
    // 0 ^ 1 ^ 2 ^ 7 ^ 7
    assert_eq!(missing_number(&[7, 7]), 3);
    // 0 ^ 1 ^ 9
    assert_eq!(missing_number(&[9]), 8);
}

#[test]
fn test_majority() {
    assert_eq!(majority(&[3, 2, 3]), Some(3));
    assert_eq!(majority(&[2, 2, 1, 1, 1, 2, 2]), Some(2));
    assert_eq!(majority(&[1, 2, 3, 4]), None);
    assert_eq!(majority(&[1, 1, 1, 2, 2]), Some(1));
    assert_eq!(majority(&[1]), Some(1));
}

#[test]
fn test_majority_edge_cases() {
    assert_eq!(majority(&[]), None);
    assert_eq!(majority(&[1, 2]), None);
    assert_eq!(majority(&[1, 1, 2, 2, 2]), Some(2));
}

#[test]
fn majority_needs_more_than_half() {
    assert_eq!(majority(&[4, 4, 5, 5]), None);
    assert_eq!(majority(&[0, 0, 0, 1, 2]), Some(0));
    assert_eq!(majority(&[1, 2, 1, 3, 1, 4]), None);
}

#[test]
fn test_run_length_encoding() {
    assert_eq!(rle("aaabbc"), vec![('a', 3), ('b', 2), ('c', 1)]);
    assert_eq!(rle("abc"), vec![('a', 1), ('b', 1), ('c', 1)]);
    assert_eq!(rle("aaaaa"), vec![('a', 5)]);
    assert_eq!(rle("aaaabbbaaa"), vec![('a', 4), ('b', 3), ('a', 3)]);
    assert_eq!(rle(""), Vec::<(char, usize)>::new());
}
