//! Reading numbers out of text and writing them back.
//!
//! Splitting, parsing and printing are left to the standard library. What
//! parsing and printing return is stated here; what splitting returns is
//! named, so that the functions that work on the words can say exactly what
//! they make of them.

use vstd::prelude::*;
use vstd::string::StringExecFns;

verus! {

/// The words of a text: what `str::split_whitespace` yields for it, in order.
pub uninterp spec fn whitespace_tokens(text: Seq<char>) -> Seq<Seq<char>>;

/// The lines of a text: what `str::lines` yields for it, in order.
pub uninterp spec fn text_lines(text: Seq<char>) -> Seq<Seq<char>>;

/// A text without the white space at its two ends: what `str::trim` returns
/// for it.
pub uninterp spec fn trimmed(text: Seq<char>) -> Seq<char>;

/// The value of a decimal digit, `None` for any other character.
pub open spec fn digit_value(c: char) -> Option<nat> {
    if c == '0' {
        Some(0)
    } else if c == '1' {
        Some(1)
    } else if c == '2' {
        Some(2)
    } else if c == '3' {
        Some(3)
    } else if c == '4' {
        Some(4)
    } else if c == '5' {
        Some(5)
    } else if c == '6' {
        Some(6)
    } else if c == '7' {
        Some(7)
    } else if c == '8' {
        Some(8)
    } else if c == '9' {
        Some(9)
    } else {
        None
    }
}

/// The natural number that a string of decimal digits stands for, `None`
/// where the string is empty or holds anything but digits.
pub open spec fn digits_value(s: Seq<char>) -> Option<nat>
    decreases s.len(),
{
    if s.len() == 0 {
        None
    } else {
        match digit_value(s.last()) {
            Some(d) => if s.len() == 1 {
                Some(d)
            } else {
                match digits_value(s.drop_last()) {
                    Some(front) => Some(10 * front + d),
                    None => None,
                }
            },
            None => None,
        }
    }
}

/// The integer that a word stands for: decimal digits behind an optional
/// plus sign or, where `signed`, an optional minus sign.
pub open spec fn integer_value(token: Seq<char>, signed: bool) -> Option<int> {
    if token.len() >= 1 && token[0] == '+' {
        match digits_value(token.skip(1)) {
            Some(v) => Some(v as int),
            None => None,
        }
    } else if signed && token.len() >= 1 && token[0] == '-' {
        match digits_value(token.skip(1)) {
            Some(v) => Some(-(v as int)),
            None => None,
        }
    } else {
        match digits_value(token) {
            Some(v) => Some(v as int),
            None => None,
        }
    }
}

/// The `i64` that a word stands for, `None` where it stands for no integer
/// or for one beyond the range of `i64`.
pub open spec fn parsed_i64(token: Seq<char>) -> Option<i64> {
    match integer_value(token, true) {
        Some(v) => if i64::MIN <= v <= i64::MAX {
            Some(v as i64)
        } else {
            None
        },
        None => None,
    }
}

/// The `i32` that a word stands for, `None` where it stands for no integer
/// or for one beyond the range of `i32`.
pub open spec fn parsed_i32(token: Seq<char>) -> Option<i32> {
    match integer_value(token, true) {
        Some(v) => if i32::MIN <= v <= i32::MAX {
            Some(v as i32)
        } else {
            None
        },
        None => None,
    }
}

/// The `usize` that a word stands for, `None` where it stands for no natural
/// number or for one beyond the range of `usize`.
pub open spec fn parsed_usize(token: Seq<char>) -> Option<usize> {
    match integer_value(token, false) {
        Some(v) => if v <= usize::MAX {
            Some(v as usize)
        } else {
            None
        },
        None => None,
    }
}

/// The numbers that the words of a text stand for.
pub open spec fn numbers_of(text: Seq<char>) -> Seq<Option<i64>> {
    whitespace_tokens(text).map_values(|token: Seq<char>| parsed_i64(token))
}

/// The natural numbers that the words of a text stand for.
pub open spec fn counts_of(text: Seq<char>) -> Seq<Option<usize>> {
    whitespace_tokens(text).map_values(|token: Seq<char>| parsed_usize(token))
}

/// The number at position `pos`, where the list has a number there.
pub open spec fn number_at(nums: Seq<Option<i64>>, pos: int) -> Option<i64> {
    if 0 <= pos < nums.len() {
        nums[pos]
    } else {
        None
    }
}

/// The count at position `pos` of the list: `0` where the list ends before it,
/// `None` where what stands there is no number.
pub open spec fn count_at(nums: Seq<Option<i64>>, pos: int) -> Option<usize> {
    if 0 <= pos < nums.len() {
        match nums[pos] {
            Some(v) => Some(v as usize),
            None => None,
        }
    } else {
        Some(0)
    }
}

/// The character of a decimal digit.
pub open spec fn digit(d: nat) -> char {
    if d == 0 {
        '0'
    } else if d == 1 {
        '1'
    } else if d == 2 {
        '2'
    } else if d == 3 {
        '3'
    } else if d == 4 {
        '4'
    } else if d == 5 {
        '5'
    } else if d == 6 {
        '6'
    } else if d == 7 {
        '7'
    } else if d == 8 {
        '8'
    } else {
        '9'
    }
}

/// The decimal digits of a natural number, without leading zeros.
pub open spec fn digits(n: nat) -> Seq<char>
    decreases n,
{
    if n < 10 {
        seq![digit(n)]
    } else {
        digits(n / 10).push(digit(n % 10))
    }
}

/// A number written in decimal, with a minus sign where it is negative.
pub open spec fn decimal(v: int) -> Seq<char> {
    if v < 0 {
        seq!['-'] + digits((-v) as nat)
    } else {
        digits(v as nat)
    }
}

/// Lines put together with a line feed between each two of them.
pub open spec fn joined(lines: Seq<Seq<char>>) -> Seq<char>
    decreases lines.len(),
{
    if lines.len() == 0 {
        Seq::empty()
    } else if lines.len() == 1 {
        lines[0]
    } else {
        joined(lines.drop_last()) + seq!['\n'] + lines.last()
    }
}

/// Calls `str::split_whitespace` and hands out the words as owned strings.
/// Trusted: the words, in order, are what the name `whitespace_tokens` stands
/// for.
#[verifier::external_body]
pub(crate) fn split_words(text: &str) -> (words: Vec<String>)
    ensures
        words.deep_view() == whitespace_tokens(text@),
{
    text.split_whitespace().map(|word| word.to_string()).collect()
}

/// Calls `str::lines` and hands out the lines as owned strings. Trusted: the
/// lines, in order, are what the name `text_lines` stands for.
#[verifier::external_body]
pub(crate) fn split_lines(text: &str) -> (lines: Vec<String>)
    ensures
        lines.deep_view() == text_lines(text@),
{
    text.lines().map(|line| line.to_string()).collect()
}

/// Calls `str::trim`. Trusted: the result is what the name `trimmed` stands
/// for.
#[verifier::external_body]
pub(crate) fn trim<'a>(text: &'a str) -> (inner: &'a str)
    ensures
        inner@ == trimmed(text@),
{
    text.trim()
}

/// Calls `str::parse::<i64>` and hands out the number, `None` for an error.
/// Trusted: the call succeeds on decimal digits behind an optional sign that
/// stand for a number within the range of `i64`, and on nothing else.
#[verifier::external_body]
pub(crate) fn parse_i64(token: &str) -> (value: Option<i64>)
    ensures
        value == parsed_i64(token@),
{
    token.parse::<i64>().ok()
}

/// Calls `str::parse::<i32>` and hands out the number, `None` for an error.
/// Trusted: the call succeeds on decimal digits behind an optional sign that
/// stand for a number within the range of `i32`, and on nothing else.
#[verifier::external_body]
pub(crate) fn parse_i32(token: &str) -> (value: Option<i32>)
    ensures
        value == parsed_i32(token@),
{
    token.parse::<i32>().ok()
}

/// Calls `str::parse::<usize>` and hands out the number, `None` for an error.
/// Trusted: the call succeeds on decimal digits behind an optional plus sign
/// that stand for a number within the range of `usize`, and on nothing else.
#[verifier::external_body]
pub(crate) fn parse_usize(token: &str) -> (value: Option<usize>)
    ensures
        value == parsed_usize(token@),
{
    token.parse::<usize>().ok()
}

/// Calls `to_string` on an `i64`. Trusted: the result is the number in
/// decimal, with a minus sign where it is negative and without leading zeros.
#[verifier::external_body]
pub(crate) fn i64_to_string(v: i64) -> (s: String)
    ensures
        s@ == decimal(v as int),
{
    v.to_string()
}

/// Calls `to_string` on a `usize`. Trusted: the result is the number in
/// decimal, without leading zeros.
#[verifier::external_body]
pub(crate) fn usize_to_string(v: usize) -> (s: String)
    ensures
        s@ == decimal(v as int),
{
    v.to_string()
}

/// The numbers that the words of `text` stand for, `None` for each word that
/// is no number.
pub fn numbers(text: &str) -> (nums: Vec<Option<i64>>)
    ensures
        nums@ == numbers_of(text@),
{
    let words = split_words(text);
    let mut nums: Vec<Option<i64>> = Vec::new();
    let mut i: usize = 0;
    while i < words.len()
        invariant
            i <= words.len(),
            words.deep_view() == whitespace_tokens(text@),
            nums@ == numbers_of(text@).take(i as int),
        decreases words.len() - i,
    {
        let value = parse_i64(words[i].as_str());
        proof {
            assert(words.deep_view()[i as int] == words@[i as int]@);
        }
        nums.push(value);
        assert(nums@ =~= numbers_of(text@).take(i + 1));
        i = i + 1;
    }
    assert(nums@ =~= numbers_of(text@));
    nums
}

/// The natural numbers that the words of `text` stand for, `None` for each
/// word that is no natural number.
pub fn counts(text: &str) -> (nums: Vec<Option<usize>>)
    ensures
        nums@ == counts_of(text@),
{
    let words = split_words(text);
    let mut nums: Vec<Option<usize>> = Vec::new();
    let mut i: usize = 0;
    while i < words.len()
        invariant
            i <= words.len(),
            words.deep_view() == whitespace_tokens(text@),
            nums@ == counts_of(text@).take(i as int),
        decreases words.len() - i,
    {
        let value = parse_usize(words[i].as_str());
        proof {
            assert(words.deep_view()[i as int] == words@[i as int]@);
        }
        nums.push(value);
        assert(nums@ =~= counts_of(text@).take(i + 1));
        i = i + 1;
    }
    assert(nums@ =~= counts_of(text@));
    nums
}

/// The count at position `pos` of the list.
pub fn read_count(nums: &[Option<i64>], pos: usize) -> (count: Option<usize>)
    ensures
        count == count_at(nums@, pos as int),
{
    if pos < nums.len() {
        match nums[pos] {
            Some(v) => Some(
                #[verifier::truncate]
                (v as usize),
            ),
            None => None,
        }
    } else {
        Some(0)
    }
}

/// Puts lines together with a line feed between each two of them.
pub fn join_lines(lines: &Vec<String>) -> (text: String)
    ensures
        text@ == joined(lines.deep_view()),
{
    let mut text = String::new();
    let mut i: usize = 0;
    proof {
        reveal_strlit("\n");
        assert(lines.deep_view().take(0) =~= Seq::<Seq<char>>::empty());
    }
    while i < lines.len()
        invariant
            i <= lines.len(),
            text@ == joined(lines.deep_view().take(i as int)),
            "\n"@ == seq!['\n'],
        decreases lines.len() - i,
    {
        if i > 0 {
            text.append("\n");
        }
        text.append(lines[i].as_str());
        proof {
            let all = lines.deep_view();
            assert(all.take(i + 1).drop_last() =~= all.take(i as int));
            assert(all.take(i + 1).last() == lines@[i as int]@);
            if i == 0 {
                assert(all.take(0).len() == 0);
                assert(text@ =~= lines@[i as int]@);
            }
        }
        i = i + 1;
    }
    assert(lines.deep_view().take(lines.len() as int) =~= lines.deep_view());
    text
}

} // verus!
