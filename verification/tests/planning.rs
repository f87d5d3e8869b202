use algolab::lis::lis_length;
use algolab::sightseeing;
use algolab::topic_order::compare_topics;
use algolab::topics;
use std::cmp::Ordering;

#[test]
fn most_attractions_in_two_cities() {
    // two days: one day in each city gives 3 + 5, two days in the second 5 + 1
    let cities = vec![vec![3, 2, 1], vec![5, 1]];
    assert_eq!(sightseeing::most_attractions(&cities, 0), Some(0));
    assert_eq!(sightseeing::most_attractions(&cities, 1), Some(5));
    assert_eq!(sightseeing::most_attractions(&cities, 2), Some(8));
    assert_eq!(sightseeing::most_attractions(&cities, 3), Some(10));
    assert_eq!(sightseeing::most_attractions(&cities, 4), Some(11));
    assert_eq!(sightseeing::most_attractions(&cities, 5), Some(12));
    assert_eq!(sightseeing::most_attractions(&cities, 9), Some(12));
}

#[test]
fn most_attractions_without_cities() {
    assert_eq!(sightseeing::most_attractions(&vec![], 4), Some(0));
    assert_eq!(sightseeing::most_attractions(&vec![vec![]], 4), Some(0));
}

#[test]
fn most_attractions_that_do_not_fit() {
    let cities = vec![vec![usize::MAX], vec![1]];
    assert_eq!(sightseeing::most_attractions(&cities, 1), Some(usize::MAX));
    assert_eq!(sightseeing::most_attractions(&cities, 2), None);
    assert_eq!(sightseeing::most_attractions(&vec![vec![usize::MAX, 1]], 2), None);
}

#[test]
fn sightseeing_from_text() {
    let input = "2 3\n3 2 1\n5 1\n";
    assert_eq!(sightseeing::solve(input), "10");
    assert_eq!(sightseeing::try_solve(input), Some("10".to_string()));
    assert_eq!(sightseeing::solve("0 5"), "0");
    assert_eq!(sightseeing::solve("1 2 ignored\n\n"), "0");
    assert_eq!(sightseeing::read_trip(input), Some((3, vec![vec![3, 2, 1], vec![5, 1]])));
}

#[test]
fn sightseeing_refuses_what_is_malformed() {
    assert_eq!(sightseeing::try_solve(""), None);
    assert_eq!(sightseeing::try_solve("2"), None);
    assert_eq!(sightseeing::try_solve("x 2"), None);
    // a line for the second city is missing
    assert_eq!(sightseeing::try_solve("2 3\n1 2"), None);
    assert_eq!(sightseeing::try_solve("1 3\n1 -2"), None);
    assert_eq!(sightseeing::try_solve("1 18446744073709551615\n1"), None);
    // the sum does not fit
    assert_eq!(sightseeing::try_solve("1 2\n18446744073709551615 1"), None);
}

#[test]
fn longest_rising_subsequence() {
    assert_eq!(lis_length(&[]), 0);
    assert_eq!(lis_length(&[7]), 1);
    assert_eq!(lis_length(&[3, 3, 3]), 1);
    assert_eq!(lis_length(&[5, 4, 3, 2, 1]), 1);
    assert_eq!(lis_length(&[1, 2, 3, 4]), 4);
    assert_eq!(lis_length(&[10, 9, 2, 5, 3, 7, 101, 18]), 4);
    assert_eq!(lis_length(&[0, 8, 4, 12, 2, 10, 6, 14, 1, 9, 5, 13, 3, 11, 7, 15]), 6);
}

#[test]
fn topics_in_order() {
    assert_eq!(compare_topics(&(1, 5), &(2, 0)), Ordering::Less);
    assert_eq!(compare_topics(&(2, 5), &(2, 0)), Ordering::Less);
    assert_eq!(compare_topics(&(2, 0), &(2, 5)), Ordering::Greater);
    assert_eq!(compare_topics(&(2, 5), &(2, 5)), Ordering::Equal);
    assert_eq!(compare_topics(&(3, 5), &(2, 9)), Ordering::Greater);
}

#[test]
fn longest_chain_of_topics() {
    assert_eq!(topics::longest_chain_length(vec![]), 0);
    assert_eq!(topics::longest_chain_length(vec![(1, 1)]), 1);
    // equal beauty never chains
    assert_eq!(topics::longest_chain_length(vec![(1, 1), (1, 2), (1, 3)]), 1);
    assert_eq!(topics::longest_chain_length(vec![(3, 3), (1, 1), (2, 2)]), 3);
    assert_eq!(topics::longest_chain_length(vec![(1, 9), (2, 1), (3, 2), (4, 3), (5, 0)]), 3);
    assert_eq!(topics::longest_chain_length(vec![(2, 2), (2, 3), (1, 2), (3, 3), (3, 4)]), 3);
    assert_eq!(topics::longest_chain_length(vec![(2, 2), (2, 3), (1, 3), (3, 3)]), 2);
}

#[test]
fn topics_from_text() {
    assert_eq!(topics::solve("3\n3 3\n1 1\n2 2\n"), "3");
    assert_eq!(topics::solve(" 0 \nwhatever"), "0");
    // fewer lines than announced
    assert_eq!(topics::solve("5\n1 1\n2 2"), "2");
    assert_eq!(topics::try_solve("2\n1 -1 extra\n-2 5\n9 9"), Some("1".to_string()));
    assert_eq!(topics::read_topics("2\n1 -1 extra\n-2 5\n9 9"), Some(vec![(1, -1), (-2, 5)]));
}

#[test]
fn topics_refuse_what_is_malformed() {
    assert_eq!(topics::try_solve(""), None);
    assert_eq!(topics::try_solve("two\n1 1"), None);
    assert_eq!(topics::try_solve("1 2\n1 1"), None);
    assert_eq!(topics::try_solve("1\n1"), None);
    assert_eq!(topics::try_solve("1\n1 b"), None);
    assert_eq!(topics::try_solve("1\n2147483648 1"), None);
}

#[test]
fn words_that_are_natural_numbers() {
    assert_eq!(
        algolab::text::counts("+7 0 0042 18446744073709551615"),
        vec![Some(7), Some(0), Some(42), Some(usize::MAX)]
    );
    assert_eq!(
        algolab::text::counts("-0 -5 + 18446744073709551616 1e3"),
        vec![None, None, None, None, None]
    );
}

#[test]
fn plans_reach_what_the_table_gives() {
    // every way to spend three days in two cities, by hand
    let cities = vec![vec![2, 9], vec![4, 1, 1]];
    let seen = |city: &Vec<usize>, days: usize| -> usize { city.iter().take(days).sum() };
    let mut best = 0;
    for a in 0..=3 {
        for b in 0..=(3 - a) {
            best = best.max(seen(&cities[0], a) + seen(&cities[1], b));
        }
    }
    assert_eq!(best, 15);
    assert_eq!(sightseeing::most_attractions(&cities, 3), Some(15));
}
