//! The order in which topics are put before the longest chain among them is
//! looked for: by rising beauty, and by falling difficulty where the beauty
//! is the same.

use std::cmp::Ordering;
use vstd::prelude::*;

verus! {

/// Topic `a`, given by its beauty and its difficulty, may stand before topic
/// `b`.
pub open spec fn may_precede(a: (i32, i32), b: (i32, i32)) -> bool {
    a.0 < b.0 || (a.0 == b.0 && a.1 >= b.1)
}

/// The topics stand in order.
pub open spec fn in_order(topics: Seq<(i32, i32)>) -> bool {
    forall|i: int, j: int|
        0 <= i < j < topics.len() ==> may_precede(#[trigger] topics[i], #[trigger] topics[j])
}

/// Compares two topics: the one of smaller beauty comes first, and of two
/// topics of the same beauty the one of larger difficulty.
pub fn compare_topics(a: &(i32, i32), b: &(i32, i32)) -> (order: Ordering)
    ensures
        match order {
            Ordering::Less => a.0 < b.0 || (a.0 == b.0 && a.1 > b.1),
            Ordering::Equal => a.0 == b.0 && a.1 == b.1,
            Ordering::Greater => a.0 > b.0 || (a.0 == b.0 && a.1 < b.1),
        },
{
    if a.0 == b.0 {
        b.1.cmp(&a.1)
    } else {
        a.0.cmp(&b.0)
    }
}

/// Calls `sort_by` on the slice of `topics` with `compare_topics`. Trusted:
/// afterwards the vector holds the topics it held, each as often as before,
/// in the order that `compare_topics` gives.
#[verifier::external_body]
pub(crate) fn sort_topics(topics: &mut Vec<(i32, i32)>)
    ensures
        final(topics)@.to_multiset() == old(topics)@.to_multiset(),
        in_order(final(topics)@),
{
    topics.sort_by(|a, b| compare_topics(a, b));
}

} // verus!
