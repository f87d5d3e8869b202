use algolab::chmin_queries;
use algolab::coverage_queries;
use algolab::text::{join_lines, numbers};

#[test]
fn chmin_queries_on_five_values() {
    let input = "5 4\n5 1 4 2 8\n1 1 5\n0 1 5 4\n1 1 5\n1 2 4\n";
    assert_eq!(chmin_queries::solve(input), "8\n4\n4");
    assert_eq!(chmin_queries::try_solve(input), Some("8\n4\n4".to_string()));
}

#[test]
fn chmin_queries_write_negative_numbers() {
    let input = "3 3  -7 -2 -9  1 1 3  0 2 2 -12  1 1 3";
    assert_eq!(chmin_queries::solve(input), "-2\n-7");
}

#[test]
fn chmin_queries_without_input() {
    assert_eq!(chmin_queries::solve(""), "");
    assert_eq!(chmin_queries::try_solve("   \n "), Some(String::new()));
    assert_eq!(chmin_queries::solve("2 0 4 5"), "");
}

#[test]
fn chmin_queries_refuse_what_is_malformed() {
    // a value is missing
    assert_eq!(chmin_queries::try_solve("3 0 1 2"), None);
    // an operation is cut short
    assert_eq!(chmin_queries::try_solve("2 1 1 2 1 1"), None);
    assert_eq!(chmin_queries::try_solve("2 1 1 2 0 1 2"), None);
    // an unknown kind of operation
    assert_eq!(chmin_queries::try_solve("2 1 1 2 7 1 2"), None);
    // a word that is no number
    assert_eq!(chmin_queries::try_solve("2 1 1 x 1 1 2"), None);
    // positions count from one
    assert_eq!(chmin_queries::try_solve("2 1 1 2 1 0 2"), None);
    // what follows the last operation is not read
    assert_eq!(chmin_queries::try_solve("2 1 1 2 1 1 2 junk"), Some("2".to_string()));
}

#[test]
fn coverage_queries_on_two_segments() {
    // the segments [1, 2] and [2, 4] cover the positions 0..=5 with 0 1 2 1 1 0
    let input = "2 4\n1 2\n2 4\n0 5 2\n0 5 3\n3 5 1\n5 5 0\n";
    assert_eq!(coverage_queries::solve(input), "1\n0\n1\n1");
    assert_eq!(coverage_queries::try_solve(input), Some("1\n0\n1\n1".to_string()));
}

#[test]
fn coverage_queries_beyond_the_last_segment() {
    let input = "1 3  0 1  3 6 0  0 1 1  2 9 1";
    assert_eq!(coverage_queries::solve(input), "1\n1\n0");
}

#[test]
fn coverage_queries_without_input() {
    assert_eq!(coverage_queries::solve(""), "");
    assert_eq!(coverage_queries::try_solve("0 0"), Some(String::new()));
    assert_eq!(coverage_queries::solve("0 1 0 0 0"), "1");
}

#[test]
fn coverage_queries_refuse_what_is_malformed() {
    assert_eq!(coverage_queries::try_solve("1"), None);
    assert_eq!(coverage_queries::try_solve("1 0 3"), None);
    assert_eq!(coverage_queries::try_solve("0 1 0 3"), None);
    assert_eq!(coverage_queries::try_solve("1 0 a 3"), None);
    // a segment that starts two positions behind the largest right end
    assert_eq!(coverage_queries::try_solve("1 0 5 3"), None);
    assert_eq!(coverage_queries::try_solve("1 0 4 3"), Some(String::new()));
}

#[test]
fn coverage_array_of_two_segments() {
    let segments = vec![
        coverage_queries::Segment { left: 1, right: 2 },
        coverage_queries::Segment { left: 2, right: 4 },
    ];
    assert_eq!(coverage_queries::coverage_array(&segments, 6), vec![0, 1, 2, 1, 1, 0]);
}

#[test]
fn numbers_of_a_text() {
    assert_eq!(numbers(" 12\t-3\nx +4 "), vec![Some(12), Some(-3), None, Some(4)]);
    assert_eq!(numbers(""), Vec::<Option<i64>>::new());
    assert_eq!(numbers("9223372036854775808"), vec![None]);
}

#[test]
fn lines_joined_by_line_feeds() {
    assert_eq!(join_lines(&vec![]), "");
    assert_eq!(join_lines(&vec!["a".to_string()]), "a");
    assert_eq!(join_lines(&vec!["a".to_string(), String::new(), "b".to_string()]), "a\n\nb");
}

#[test]
fn words_that_are_integers() {
    assert_eq!(
        numbers("+5 -0 007 -9223372036854775808 9223372036854775807"),
        vec![Some(5), Some(0), Some(7), Some(i64::MIN), Some(i64::MAX)]
    );
    assert_eq!(
        numbers("+ - +-5 --5 5- 1_000 0x10 1.5 ٣ -9223372036854775809"),
        vec![None, None, None, None, None, None, None, None, None, None]
    );
}

#[test]
fn chmin_queries_refuse_ranges_outside_the_values() {
    // the range ends behind the last value
    assert_eq!(chmin_queries::try_solve("2 1 1 2 1 1 3"), None);
    assert_eq!(chmin_queries::try_solve("2 1 1 2 0 2 3 5"), None);
    // the range is inverted
    assert_eq!(chmin_queries::try_solve("2 1 1 2 1 2 1"), None);
    // there is no value to ask for
    assert_eq!(chmin_queries::try_solve("0 1 1 1 1"), None);
    assert_eq!(chmin_queries::try_solve("2 2 1 2 1 2 2 0 1 2 0"), Some("2".to_string()));
}

#[test]
fn coverage_queries_refuse_inverted_ranges() {
    assert_eq!(coverage_queries::try_solve("1 1 0 3 2 1 1"), None);
    assert_eq!(coverage_queries::try_solve("1 1 0 3 1 2 1"), Some("1".to_string()));
}
