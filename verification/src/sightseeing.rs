//! How many attractions a traveller can see in a number of days spread over
//! a number of cities.
//!
//! Each city offers its attractions in a fixed order, a number of them per
//! day; whoever stays `k` days in a city sees what its first `k` days offer.
//! A plan gives each city a number of days, not more than the traveller has
//! in all.

use vstd::prelude::*;
use crate::text::{counts, counts_of, decimal, split_lines, text_lines, usize_to_string};

verus! {

/// What a city offers in its first `days` days.
pub open spec fn seen(city: Seq<usize>, days: nat) -> int
    decreases days,
{
    if days == 0 {
        0
    } else {
        seen(city, (days - 1) as nat) + if days <= city.len() {
            city[days - 1] as int
        } else {
            0
        }
    }
}

/// The days that a plan spends in all.
pub open spec fn plan_days(plan: Seq<nat>) -> nat
    decreases plan.len(),
{
    if plan.len() == 0 {
        0
    } else {
        plan_days(plan.drop_last()) + plan.last()
    }
}

/// What a plan for the first `plan.len()` cities lets the traveller see.
pub open spec fn plan_value(cities: Seq<Seq<usize>>, plan: Seq<nat>) -> int
    decreases plan.len(),
{
    if plan.len() == 0 {
        0
    } else {
        plan_value(cities, plan.drop_last()) + seen(cities[plan.len() - 1], plan.last())
    }
}

/// `plan` gives each of the first `count` cities a number of days, `days` in
/// all at most.
pub open spec fn is_plan(plan: Seq<nat>, count: nat, days: nat) -> bool {
    plan.len() == count && plan_days(plan) <= days
}

/// The most that a traveller can see in the first `count` cities in `days`
/// days.
pub open spec fn most(cities: Seq<Seq<usize>>, count: nat, days: nat) -> int
    decreases count, days + 1,
{
    if count == 0 {
        0
    } else {
        most_with(cities, count, days, days)
    }
}

/// The most that a traveller can see in the first `count` cities in `days`
/// days when staying `stay` days at most in the last of them.
pub open spec fn most_with(cities: Seq<Seq<usize>>, count: nat, days: nat, stay: nat) -> int
    decreases count, stay,
{
    if count == 0 || stay > days {
        0
    } else {
        let here = most(cities, (count - 1) as nat, (days - stay) as nat) + seen(
            cities[count - 1],
            stay,
        );
        if stay == 0 {
            here
        } else {
            let shorter = most_with(cities, count, days, (stay - 1) as nat);
            if shorter >= here {
                shorter
            } else {
                here
            }
        }
    }
}

proof fn lemma_seen_grows(city: Seq<usize>, a: nat, b: nat)
    requires
        a <= b,
    ensures
        0 <= seen(city, a) <= seen(city, b),
    decreases b,
{
    if a < b {
        lemma_seen_grows(city, a, (b - 1) as nat);
    } else if a > 0 {
        lemma_seen_grows(city, (a - 1) as nat, (a - 1) as nat);
    }
}

/// No stay of `stay` days at most in the last city lets the traveller see
/// more than `most_with` says.
proof fn lemma_most_with_bounds(
    cities: Seq<Seq<usize>>,
    count: nat,
    days: nat,
    stay: nat,
    k: nat,
)
    requires
        count >= 1,
        k <= stay <= days,
    ensures
        most(cities, (count - 1) as nat, (days - k) as nat) + seen(cities[count - 1], k)
            <= most_with(cities, count, days, stay),
    decreases stay,
{
    if k < stay {
        lemma_most_with_bounds(cities, count, days, (stay - 1) as nat, k);
    }
}

/// Some stay of `stay` days at most in the last city lets the traveller see
/// what `most_with` says.
proof fn lemma_most_with_attained(cities: Seq<Seq<usize>>, count: nat, days: nat, stay: nat) -> (k:
    nat)
    requires
        count >= 1,
        stay <= days,
    ensures
        k <= stay,
        most(cities, (count - 1) as nat, (days - k) as nat) + seen(cities[count - 1], k)
            == most_with(cities, count, days, stay),
    decreases stay,
{
    let here = most(cities, (count - 1) as nat, (days - stay) as nat) + seen(
        cities[count - 1],
        stay,
    );
    if stay == 0 {
        0
    } else if most_with(cities, count, days, (stay - 1) as nat) >= here {
        lemma_most_with_attained(cities, count, days, (stay - 1) as nat)
    } else {
        stay
    }
}

/// No plan lets the traveller see more than `most` says.
pub proof fn lemma_most_bounds(cities: Seq<Seq<usize>>, count: nat, days: nat, plan: Seq<nat>)
    requires
        is_plan(plan, count, days),
    ensures
        plan_value(cities, plan) <= most(cities, count, days),
    decreases count,
{
    if count > 0 {
        let k = plan.last();
        lemma_most_bounds(cities, (count - 1) as nat, (days - k) as nat, plan.drop_last());
        lemma_most_with_bounds(cities, count, days, days, k);
    }
}

/// Some plan lets the traveller see what `most` says.
pub proof fn lemma_most_attained(cities: Seq<Seq<usize>>, count: nat, days: nat) -> (plan: Seq<nat>)
    ensures
        is_plan(plan, count, days),
        plan_value(cities, plan) == most(cities, count, days),
    decreases count,
{
    if count == 0 {
        Seq::empty()
    } else {
        let k = lemma_most_with_attained(cities, count, days, days);
        let rest = lemma_most_attained(cities, (count - 1) as nat, (days - k) as nat);
        let plan = rest.push(k);
        assert(plan.drop_last() =~= rest);
        plan
    }
}

proof fn lemma_most_nonnegative(cities: Seq<Seq<usize>>, count: nat, days: nat)
    ensures
        0 <= most(cities, count, days),
    decreases count,
{
    if count > 0 {
        lemma_most_nonnegative(cities, (count - 1) as nat, days);
        lemma_most_with_bounds(cities, count, days, days, 0);
    }
}

/// More days or more cities never let the traveller see less.
proof fn lemma_most_grows(cities: Seq<Seq<usize>>, c1: nat, d1: nat, c2: nat, d2: nat)
    requires
        c1 <= c2,
        d1 <= d2,
    ensures
        0 <= most(cities, c1, d1) <= most(cities, c2, d2),
    decreases c2 - c1,
{
    lemma_most_nonnegative(cities, c1, d1);
    if c1 == c2 {
        let plan = lemma_most_attained(cities, c1, d1);
        lemma_most_bounds(cities, c2, d2, plan);
    } else {
        lemma_most_grows(cities, c1, d1, (c2 - 1) as nat, d2);
        lemma_most_with_bounds(cities, c2, d2, d2, 0);
    }
}

/// What each city offers in its first `0..=d` days, or `None` where one of
/// these numbers does not fit in a `usize`.
fn offers(cities: &Vec<Vec<usize>>, d: usize) -> (cum: Option<Vec<Vec<usize>>>)
    requires
        d < usize::MAX,
    ensures
        match cum {
            Some(table) => {
                &&& table@.len() == cities.len()
                &&& forall|i: int|
                    0 <= i < cities.len() ==> (#[trigger] table@[i])@.len() == d + 1
                &&& forall|i: int, k: int|
                    0 <= i < cities.len() && 0 <= k <= d ==> #[trigger] table@[i]@[k] == seen(
                        cities.deep_view()[i],
                        k as nat,
                    )
            },
            None => most(cities.deep_view(), cities.len() as nat, d as nat) > usize::MAX,
        },
{
    let ghost cs = cities.deep_view();
    let mut table: Vec<Vec<usize>> = Vec::new();
    let mut i: usize = 0;
    while i < cities.len()
        invariant
            i <= cities.len(),
            d < usize::MAX,
            cs == cities.deep_view(),
            table@.len() == i,
            forall|c: int| 0 <= c < i ==> (#[trigger] table@[c])@.len() == d + 1,
            forall|c: int, k: int|
                0 <= c < i && 0 <= k <= d ==> #[trigger] table@[c]@[k] == seen(cs[c], k as nat),
        decreases cities.len() - i,
    {
        let city = &cities[i];
        assert(cs[i as int] == city@);
        let mut row = vec![0usize; d + 1];
        let mut day: usize = 1;
        while day <= d
            invariant
                1 <= day <= d + 1,
                d < usize::MAX,
                i < cities.len(),
                cs == cities.deep_view(),
                cs[i as int] == city@,
                row@.len() == d + 1,
                forall|k: int| 0 <= k < day ==> #[trigger] row@[k] == seen(city@, k as nat),
            decreases d + 1 - day,
        {
            let value = if day <= city.len() {
                match row[day - 1].checked_add(city[day - 1]) {
                    Some(v) => v,
                    None => {
                        proof {
                            let n = cities.len() as nat;
                            lemma_most_with_bounds(cs, (i + 1) as nat, d as nat, d as nat, day as nat);
                            lemma_most_nonnegative(cs, i as nat, (d - day) as nat);
                            lemma_most_grows(cs, (i + 1) as nat, d as nat, n, d as nat);
                        }
                        return None;
                    },
                }
            } else {
                row[day - 1]
            };
            row.set(day, value);
            day = day + 1;
        }
        table.push(row);
        i = i + 1;
    }
    Some(table)
}

/// The most that a traveller can see in `d` days in the given cities, each
/// of which is given by what it offers day by day; `None` where that number
/// does not fit in a `usize`.
pub fn most_attractions(cities: &Vec<Vec<usize>>, d: usize) -> (best: Option<usize>)
    requires
        d < usize::MAX,
    ensures
        match best {
            Some(b) => b == most(cities.deep_view(), cities.len() as nat, d as nat),
            None => most(cities.deep_view(), cities.len() as nat, d as nat) > usize::MAX,
        },
{
    let ghost cs = cities.deep_view();
    let n = cities.len();
    let Some(cum) = offers(cities, d) else {
        return None;
    };
    // dp[i][j]: the most that the first i cities offer in j days
    let mut dp: Vec<Vec<usize>> = Vec::new();
    dp.push(vec![0usize; d + 1]);
    let mut i: usize = 0;
    while i < n
        invariant
            i <= n == cities.len(),
            d < usize::MAX,
            cs == cities.deep_view(),
            cum@.len() == n,
            forall|c: int| 0 <= c < n ==> (#[trigger] cum@[c])@.len() == d + 1,
            forall|c: int, k: int|
                0 <= c < n && 0 <= k <= d ==> #[trigger] cum@[c]@[k] == seen(cs[c], k as nat),
            dp@.len() == i + 1,
            forall|c: int| 0 <= c <= i ==> (#[trigger] dp@[c])@.len() == d + 1,
            forall|c: int, j: int|
                0 <= c <= i && 0 <= j <= d ==> #[trigger] dp@[c]@[j] == most(cs, c as nat, j as nat),
        decreases n - i,
    {
        let mut row = vec![0usize; d + 1];
        let mut j: usize = 0;
        while j <= d
            invariant
                j <= d + 1,
                i < n == cities.len(),
                d < usize::MAX,
                cs == cities.deep_view(),
                cum@.len() == n,
                (cum@[i as int])@.len() == d + 1,
                forall|k: int|
                    0 <= k <= d ==> #[trigger] cum@[i as int]@[k] == seen(cs[i as int], k as nat),
                dp@.len() == i + 1,
                (dp@[i as int])@.len() == d + 1,
                forall|k: int|
                    0 <= k <= d ==> #[trigger] dp@[i as int]@[k] == most(cs, i as nat, k as nat),
                row@.len() == d + 1,
                forall|k: int|
                    0 <= k < j ==> #[trigger] row@[k] == most(cs, (i + 1) as nat, k as nat),
            decreases d + 1 - j,
        {
            let mut best: usize = 0;
            let mut k: usize = 0;
            while k <= j
                invariant
                    k <= j + 1,
                    j <= d < usize::MAX,
                    i < n == cities.len(),
                    cs == cities.deep_view(),
                    cum@.len() == n,
                    (cum@[i as int])@.len() == d + 1,
                    forall|x: int|
                        0 <= x <= d ==> #[trigger] cum@[i as int]@[x] == seen(
                            cs[i as int],
                            x as nat,
                        ),
                    dp@.len() == i + 1,
                    (dp@[i as int])@.len() == d + 1,
                    forall|x: int|
                        0 <= x <= d ==> #[trigger] dp@[i as int]@[x] == most(
                            cs,
                            i as nat,
                            x as nat,
                        ),
                    k == 0 ==> best == 0,
                    k > 0 ==> best == most_with(cs, (i + 1) as nat, j as nat, (k - 1) as nat),
                decreases j + 1 - k,
            {
                let term = match dp[i][j - k].checked_add(cum[i][k]) {
                    Some(t) => t,
                    None => {
                        proof {
                            lemma_most_with_bounds(
                                cs,
                                (i + 1) as nat,
                                j as nat,
                                j as nat,
                                k as nat,
                            );
                            lemma_most_grows(cs, (i + 1) as nat, j as nat, n as nat, d as nat);
                        }
                        return None;
                    },
                };
                proof {
                    lemma_most_nonnegative(cs, i as nat, (j - k) as nat);
                    lemma_seen_grows(cs[i as int], 0, k as nat);
                }
                best = best.max(term);
                k = k + 1;
            }
            row.set(j, best);
            j = j + 1;
        }
        dp.push(row);
        i = i + 1;
    }
    Some(dp[n][d])
}

/// The number of cities that a text announces: the first number of its first
/// line.
pub open spec fn cities_announced(text: Seq<char>) -> Option<usize> {
    let lines = text_lines(text);
    if lines.len() >= 1 && counts_of(lines[0]).len() >= 1 {
        counts_of(lines[0])[0]
    } else {
        None
    }
}

/// The number of days that a text gives the traveller: the second number of
/// its first line.
pub open spec fn days_given(text: Seq<char>) -> Option<usize> {
    let lines = text_lines(text);
    if lines.len() >= 1 && counts_of(lines[0]).len() >= 2 {
        counts_of(lines[0])[1]
    } else {
        None
    }
}

/// Every word of the line is a natural number.
pub open spec fn all_counts(line: Seq<char>) -> bool {
    forall|k: int| 0 <= k < counts_of(line).len() ==> (#[trigger] counts_of(line)[k]) is Some
}

/// The first line of the text holds the number of cities and the number of
/// days, and for each city a further line holds what the city offers day by
/// day.
pub open spec fn well_laid_out(text: Seq<char>) -> bool {
    &&& cities_announced(text) matches Some(n)
    &&& days_given(text) matches Some(d)
    &&& d < usize::MAX
    &&& n + 1 <= text_lines(text).len()
    &&& forall|i: int| 1 <= i <= n ==> all_counts(#[trigger] text_lines(text)[i])
}

/// What the cities of a text offer day by day.
pub open spec fn cities_of(text: Seq<char>) -> Seq<Seq<usize>> {
    Seq::new(
        cities_announced(text)->0 as nat,
        |i: int| counts_of(text_lines(text)[i + 1]).map_values(|count: Option<usize>| count->0),
    )
}

/// The most that the traveller of a text can see.
pub open spec fn most_of(text: Seq<char>) -> int {
    most(cities_of(text), cities_announced(text)->0 as nat, days_given(text)->0 as nat)
}

/// The text is well laid out and the most that its traveller can see fits in
/// a `usize`.
pub open spec fn well_formed(text: Seq<char>) -> bool {
    well_laid_out(text) && most_of(text) <= usize::MAX
}

/// What a line offers day by day, or `None` where one of its words is no
/// natural number.
fn read_city(line: &str) -> (city: Option<Vec<usize>>)
    ensures
        match city {
            Some(offer) => all_counts(line@) && offer@ == counts_of(line@).map_values(
                |count: Option<usize>| count->0,
            ),
            None => !all_counts(line@),
        },
{
    let nums = counts(line);
    let mut offer: Vec<usize> = Vec::new();
    let mut k: usize = 0;
    while k < nums.len()
        invariant
            k <= nums.len(),
            nums@ == counts_of(line@),
            offer@.len() == k,
            forall|x: int| 0 <= x < k ==> nums@[x] == Some(#[trigger] offer@[x]),
        decreases nums.len() - k,
    {
        match nums[k] {
            Some(v) => offer.push(v),
            None => {
                assert(counts_of(line@)[k as int] is None);
                return None;
            },
        }
        k = k + 1;
    }
    assert(offer@ =~= counts_of(line@).map_values(|count: Option<usize>| count->0));
    assert forall|x: int| 0 <= x < counts_of(line@).len() implies (#[trigger] counts_of(
        line@,
    )[x]) is Some by {
        assert(nums@[x] == Some(offer@[x]));
    }
    Some(offer)
}

/// The number of days and what the cities offer, read from a text; `None`
/// where the text is not well laid out.
pub fn read_trip(input: &str) -> (trip: Option<(usize, Vec<Vec<usize>>)>)
    ensures
        match trip {
            Some((d, cities)) => {
                &&& well_laid_out(input@)
                &&& days_given(input@) == Some(d)
                &&& cities.len() == cities_announced(input@)->0
                &&& cities.deep_view() == cities_of(input@)
            },
            None => !well_laid_out(input@),
        },
{
    let lines = split_lines(input);
    if lines.len() == 0 {
        return None;
    }
    assert(lines.deep_view()[0] == lines@[0]@);
    let first = counts(lines[0].as_str());
    if first.len() < 2 {
        return None;
    }
    let Some(n) = first[0] else {
        return None;
    };
    let Some(d) = first[1] else {
        return None;
    };
    if d == usize::MAX || n > lines.len() - 1 {
        return None;
    }
    let mut cities: Vec<Vec<usize>> = Vec::new();
    let mut i: usize = 0;
    while i < n
        invariant
            i <= n < lines.len(),
            lines.deep_view() == text_lines(input@),
            cities_announced(input@) == Some(n),
            cities@.len() == i,
            forall|c: int| 1 <= c <= i ==> all_counts(#[trigger] text_lines(input@)[c]),
            forall|c: int| 0 <= c < i ==> (#[trigger] cities@[c])@ == cities_of(input@)[c],
        decreases n - i,
    {
        assert(lines.deep_view()[i + 1] == lines@[i + 1]@);
        match read_city(lines[i + 1].as_str()) {
            Some(offer) => cities.push(offer),
            None => {
                return None;
            },
        }
        i = i + 1;
    }
    assert forall|c: int| 0 <= c < n implies #[trigger] cities.deep_view()[c] == cities_of(
        input@,
    )[c] by {
        assert(cities.deep_view()[c] =~= cities@[c]@);
    }
    assert(cities.deep_view() =~= cities_of(input@));
    Some((d, cities))
}

/// The most attractions that the traveller of `input` can see, written in
/// decimal. The text has to be well formed.
pub fn solve(input: &str) -> (output: String)
    requires
        well_formed(input@),
    ensures
        output@ == decimal(most_of(input@)),
{
    let (d, cities) = read_trip(input).unwrap();
    let best = most_attractions(&cities, d).unwrap();
    usize_to_string(best)
}

/// The most attractions that the traveller of `input` can see, as `solve`
/// gives it, where the text is well formed, and `None` where it is not.
pub fn try_solve(input: &str) -> (output: Option<String>)
    ensures
        match output {
            Some(text) => well_formed(input@) && text@ == decimal(most_of(input@)),
            None => !well_formed(input@),
        },
{
    let Some((d, cities)) = read_trip(input) else {
        return None;
    };
    if most_attractions(&cities, d).is_none() {
        return None;
    }
    Some(solve(input))
}

} // verus!
