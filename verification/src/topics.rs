//! The longest chain of topics in which both the beauty and the difficulty
//! rise from each topic to the next.
//!
//! A topic is a pair of its beauty and its difficulty. The text that holds
//! the topics starts with a line that holds their number; each further line
//! holds the beauty and the difficulty of one topic.

use vstd::prelude::*;
use vstd::seq_lib::group_to_multiset_ensures;
use crate::lis::{is_rising_pick, lis_length};
use crate::text::{
    decimal, parse_i32, parse_usize, parsed_i32, parsed_usize, split_lines, split_words,
    text_lines, trim, trimmed, usize_to_string, whitespace_tokens,
};
use crate::topic_order::{in_order, may_precede, sort_topics};

verus! {

/// `chain` holds topics of `topics` only, and from each of them to the next
/// both the beauty and the difficulty rise.
pub open spec fn is_chain(topics: Seq<(i32, i32)>, chain: Seq<(i32, i32)>) -> bool {
    &&& forall|k: int| 0 <= k < chain.len() ==> topics.contains(#[trigger] chain[k])
    &&& forall|k: int, l: int|
        0 <= k < l < chain.len() ==> (#[trigger] chain[k]).0 < (#[trigger] chain[l]).0
            && chain[k].1 < chain[l].1
}

/// `length` is the length of a chain of `topics`, and no chain is longer.
pub open spec fn is_longest(topics: Seq<(i32, i32)>, length: nat) -> bool {
    &&& exists|chain: Seq<(i32, i32)>| #[trigger] is_chain(topics, chain) && chain.len() == length
    &&& forall|chain: Seq<(i32, i32)>| #[trigger] is_chain(topics, chain) ==> chain.len() <= length
}

/// The length of the longest chain of `topics`.
pub open spec fn longest_chain(topics: Seq<(i32, i32)>) -> nat {
    choose|length: nat| is_longest(topics, length)
}

/// There is one length of the longest chain only.
pub proof fn lemma_longest_unique(topics: Seq<(i32, i32)>, length: nat)
    requires
        is_longest(topics, length),
    ensures
        longest_chain(topics) == length,
{
    let other = longest_chain(topics);
    assert(is_longest(topics, other));
    let c1 = choose|chain: Seq<(i32, i32)>| #[trigger]
        is_chain(topics, chain) && chain.len() == length;
    let c2 = choose|chain: Seq<(i32, i32)>| #[trigger]
        is_chain(topics, chain) && chain.len() == other;
    assert(is_chain(topics, c1) && is_chain(topics, c2));
}

/// The difficulties of the topics, in order.
pub open spec fn difficulties(topics: Seq<(i32, i32)>) -> Seq<i32> {
    topics.map_values(|topic: (i32, i32)| topic.1)
}

/// The topics that a rising pick of the difficulties of topics in order picks
/// form a chain.
proof fn lemma_pick_is_chain(topics: Seq<(i32, i32)>, sorted: Seq<(i32, i32)>, idx: Seq<int>)
    requires
        sorted.to_multiset() == topics.to_multiset(),
        in_order(sorted),
        is_rising_pick(difficulties(sorted), idx),
    ensures
        is_chain(topics, idx.map_values(|p: int| sorted[p])),
{
    broadcast use group_to_multiset_ensures;

    let chain = idx.map_values(|p: int| sorted[p]);
    assert forall|k: int| 0 <= k < chain.len() implies topics.contains(#[trigger] chain[k]) by {
        assert(0 <= idx[k] < sorted.len());
        assert(sorted.contains(sorted[idx[k]]));
        assert(sorted.to_multiset().count(chain[k]) > 0);
    }
    assert forall|k: int, l: int| 0 <= k < l < chain.len() implies (#[trigger] chain[k]).0 < (
    #[trigger] chain[l]).0 && chain[k].1 < chain[l].1 by {
        assert(0 <= idx[k] < sorted.len() && 0 <= idx[l] < sorted.len());
        assert(idx[k] < idx[l] && difficulties(sorted)[idx[k]] < difficulties(sorted)[idx[l]]);
        assert(may_precede(sorted[idx[k]], sorted[idx[l]]));
    }
}

/// The position of a topic of a chain among the topics in order.
pub open spec fn position_in(sorted: Seq<(i32, i32)>, topic: (i32, i32)) -> int {
    choose|p: int| 0 <= p < sorted.len() && sorted[p] == topic
}

/// The positions at which the topics of a chain stand among the topics in
/// order form a rising pick of the difficulties.
proof fn lemma_chain_is_pick(topics: Seq<(i32, i32)>, sorted: Seq<(i32, i32)>, chain: Seq<(i32, i32)>)
    requires
        sorted.to_multiset() == topics.to_multiset(),
        in_order(sorted),
        is_chain(topics, chain),
    ensures
        is_rising_pick(
            difficulties(sorted),
            chain.map_values(|topic: (i32, i32)| position_in(sorted, topic)),
        ),
{
    broadcast use group_to_multiset_ensures;

    let idx = chain.map_values(|topic: (i32, i32)| position_in(sorted, topic));
    assert forall|k: int| 0 <= k < chain.len() implies 0 <= #[trigger] idx[k] < sorted.len()
        && sorted[idx[k]] == chain[k] by {
        assert(topics.contains(chain[k]));
        assert(topics.to_multiset().count(chain[k]) > 0);
        assert(sorted.contains(chain[k]));
        let p = choose|p: int| 0 <= p < sorted.len() && sorted[p] == chain[k];
        assert(0 <= p < sorted.len() && sorted[p] == chain[k]);
    }
    assert forall|k: int, l: int| 0 <= k < l < idx.len() implies #[trigger] idx[k] < #[trigger] idx[l]
        && difficulties(sorted)[idx[k]] < difficulties(sorted)[idx[l]] by {
        assert(sorted[idx[k]] == chain[k] && sorted[idx[l]] == chain[l]);
        assert(chain[k].0 < chain[l].0 && chain[k].1 < chain[l].1);
        if idx[k] > idx[l] {
            assert(may_precede(sorted[idx[l]], sorted[idx[k]]));
        }
    }
}

/// The length of the longest chain of the given topics.
pub fn longest_chain_length(topics: Vec<(i32, i32)>) -> (length: usize)
    ensures
        is_longest(topics@, length as nat),
        length == longest_chain(topics@),
{
    let mut sorted = topics;
    // Sort by beauty rising, then difficulty falling
    sort_topics(&mut sorted);

    // The difficulties after sorting
    let mut levels: Vec<i32> = Vec::new();
    let mut i: usize = 0;
    while i < sorted.len()
        invariant
            i <= sorted.len(),
            levels@ == difficulties(sorted@).take(i as int),
        decreases sorted.len() - i,
    {
        levels.push(sorted[i].1);
        assert(levels@ =~= difficulties(sorted@).take(i + 1));
        i = i + 1;
    }
    assert(levels@ =~= difficulties(sorted@));

    let length = lis_length(levels.as_slice());
    proof {
        let idx = choose|idx: Seq<int>| #[trigger]
            is_rising_pick(levels@, idx) && idx.len() == length;
        lemma_pick_is_chain(topics@, sorted@, idx);
        assert(idx.map_values(|p: int| sorted@[p]).len() == length);
        assert forall|chain: Seq<(i32, i32)>| #[trigger] is_chain(topics@, chain) implies chain.len()
            <= length by {
            lemma_chain_is_pick(topics@, sorted@, chain);
            let pick = chain.map_values(|topic: (i32, i32)| position_in(sorted@, topic));
            assert(is_rising_pick(levels@, pick));
        }
        lemma_longest_unique(topics@, length as nat);
    }
    length
}

/// The number of topics that a text announces: what its first line holds.
pub open spec fn announced(text: Seq<char>) -> Option<usize> {
    if text_lines(text).len() >= 1 {
        parsed_usize(trimmed(text_lines(text)[0]))
    } else {
        None
    }
}

/// The topic that a line holds: its first two words, each a number.
pub open spec fn pair_of(line: Seq<char>) -> Option<(i32, i32)> {
    let words = whitespace_tokens(line);
    if words.len() >= 2 && parsed_i32(words[0]) is Some && parsed_i32(words[1]) is Some {
        Some((parsed_i32(words[0])->0, parsed_i32(words[1])->0))
    } else {
        None
    }
}

/// The number of topics that are read from a text: as many as it announces,
/// or as many as it has lines for, where these are fewer.
pub open spec fn topic_count(text: Seq<char>) -> nat {
    let announced = announced(text)->0 as nat;
    let lines = (text_lines(text).len() - 1) as nat;
    if announced <= lines {
        announced
    } else {
        lines
    }
}

/// The first line of the text holds a number, and each of the lines that are
/// read after it holds a topic.
pub open spec fn well_formed(text: Seq<char>) -> bool {
    &&& announced(text) is Some
    &&& forall|i: int| 1 <= i <= topic_count(text) ==> pair_of(#[trigger] text_lines(text)[i]) is Some
}

/// The topics of a well-formed text.
pub open spec fn topics_of(text: Seq<char>) -> Seq<(i32, i32)> {
    Seq::new(topic_count(text), |i: int| pair_of(text_lines(text)[i + 1])->0)
}

/// The topic that a line holds, or `None` where it holds none.
fn read_pair(line: &str) -> (pair: Option<(i32, i32)>)
    ensures
        pair == pair_of(line@),
{
    let words = split_words(line);
    if words.len() < 2 {
        return None;
    }
    assert(words.deep_view()[0] == words@[0]@);
    assert(words.deep_view()[1] == words@[1]@);
    let Some(beauty) = parse_i32(words[0].as_str()) else {
        return None;
    };
    let Some(difficulty) = parse_i32(words[1].as_str()) else {
        return None;
    };
    Some((beauty, difficulty))
}

/// The topics that a text holds, or `None` where it is not well formed.
pub fn read_topics(input: &str) -> (topics: Option<Vec<(i32, i32)>>)
    ensures
        match topics {
            Some(list) => well_formed(input@) && list@ == topics_of(input@),
            None => !well_formed(input@),
        },
{
    let lines = split_lines(input);
    if lines.len() == 0 {
        return None;
    }
    assert(lines.deep_view()[0] == lines@[0]@);
    let Some(n) = parse_usize(trim(lines[0].as_str())) else {
        return None;
    };
    let count = if n <= lines.len() - 1 {
        n
    } else {
        lines.len() - 1
    };
    let mut topics: Vec<(i32, i32)> = Vec::new();
    let mut i: usize = 0;
    while i < count
        invariant
            i <= count < lines.len(),
            count == topic_count(input@),
            announced(input@) is Some,
            lines.deep_view() == text_lines(input@),
            forall|k: int| 1 <= k <= i ==> pair_of(#[trigger] text_lines(input@)[k]) is Some,
            topics@ == topics_of(input@).take(i as int),
        decreases count - i,
    {
        assert(lines.deep_view()[i + 1] == lines@[i + 1]@);
        let Some(pair) = read_pair(lines[i + 1].as_str()) else {
            return None;
        };
        topics.push(pair);
        assert(topics@ =~= topics_of(input@).take(i + 1));
        i = i + 1;
    }
    assert(topics@ =~= topics_of(input@));
    Some(topics)
}

/// The length of the longest chain of the topics of `input`, written in
/// decimal. The text has to be well formed.
pub fn solve(input: &str) -> (output: String)
    requires
        well_formed(input@),
    ensures
        output@ == decimal(longest_chain(topics_of(input@)) as int),
{
    let topics = read_topics(input).unwrap();
    let result = longest_chain_length(topics);
    usize_to_string(result)
}

/// The length of the longest chain of the topics of `input`, as `solve` gives
/// it, where the text is well formed, and `None` where it is not.
pub fn try_solve(input: &str) -> (output: Option<String>)
    ensures
        match output {
            Some(text) => well_formed(input@) && text@ == decimal(
                longest_chain(topics_of(input@)) as int,
            ),
            None => !well_formed(input@),
        },
{
    if read_topics(input).is_none() {
        return None;
    }
    Some(solve(input))
}

} // verus!
