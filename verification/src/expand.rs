//! From range tokens to the days they cover.

use crate::calendar::{
    lemma_day_number_counts_days, lemma_rank_follows_order, lemma_successor_is_next, CalendarDate,
};
use crate::utils::{parse_date_range, resolve_range, ParseError};
use vstd::prelude::*;

verus! {

/// Whether `date` lies in the inclusive range from `range.0` to `range.1`.
pub open spec fn in_range(date: CalendarDate, range: (CalendarDate, CalendarDate)) -> bool {
    !date.precedes(range.0) && !range.1.precedes(date)
}

/// Whether each date is earlier than all that follow it.
pub open spec fn strictly_ascending(dates: Seq<CalendarDate>) -> bool {
    forall|i: int, j: int| 0 <= i < j < dates.len() ==> dates[i].precedes(dates[j])
}

/// Whether each date is later than all that follow it.
pub open spec fn strictly_descending(dates: Seq<CalendarDate>) -> bool {
    forall|i: int, j: int| 0 <= i < j < dates.len() ==> dates[j].precedes(dates[i])
}

/// Whether every date of the sequence is a real day.
pub open spec fn all_valid(dates: Seq<CalendarDate>) -> bool {
    forall|i: int| 0 <= i < dates.len() ==> (#[trigger] dates[i]).is_valid()
}

/// Whether the range token at index `i` resolves and its range holds `date`.
pub open spec fn covered_by(tokens: Seq<String>, i: int, date: CalendarDate) -> bool {
    0 <= i < tokens.len() && (resolve_range(tokens[i]@) matches Ok(range) && in_range(date, range))
}

/// Whether one of the range tokens covers `date`.
pub open spec fn covered(tokens: Seq<String>, date: CalendarDate) -> bool {
    exists|i: int| covered_by(tokens, i, date)
}

/// Whether the token at index `i` is the first that does not resolve.
pub open spec fn first_failure(tokens: Seq<String>, i: int) -> bool {
    &&& 0 <= i < tokens.len()
    &&& resolve_range(tokens[i]@) is Err
    &&& forall|j: int| 0 <= j < i ==> resolve_range(#[trigger] tokens[j]@) is Ok
}

/// Every day from `start` to `end`, both included, earliest first; none
/// when `end` lies before `start`.
pub fn days_between(start: CalendarDate, end: CalendarDate) -> (days: Vec<CalendarDate>)
    requires
        start.is_valid(),
        end.is_valid(),
    ensures
        strictly_ascending(days@),
        all_valid(days@),
        forall|date: CalendarDate|
            date.is_valid() ==> (days@.contains(date) <==> in_range(date, (start, end))),
        days.len() == (if end.precedes(start) {
            0
        } else {
            end.day_number() - start.day_number() + 1
        }),
{
    let mut days: Vec<CalendarDate> = Vec::new();
    if end.is_before(&start) {
        assert forall|date: CalendarDate| date.is_valid() implies (days@.contains(date)
            <==> in_range(date, (start, end))) by {}
        return days;
    }
    let mut day: CalendarDate = start;
    loop
        invariant_except_break
            start.is_valid(),
            end.is_valid(),
            day.is_valid(),
            !day.precedes(start),
            !end.precedes(day),
            strictly_ascending(days@),
            all_valid(days@),
            forall|i: int| 0 <= i < days.len() ==> (#[trigger] days@[i]).precedes(day),
            forall|date: CalendarDate|
                date.is_valid() ==> (days@.contains(date) <==> in_range(date, (start, end))
                    && date.precedes(day)),
            days.len() == day.day_number() - start.day_number(),
        ensures
            strictly_ascending(days@),
            all_valid(days@),
            forall|date: CalendarDate|
                date.is_valid() ==> (days@.contains(date) <==> in_range(date, (start, end))),
            days.len() == end.day_number() - start.day_number() + 1,
        decreases end.rank() - day.rank(),
    {
        let ghost before = days@;
        days.push(day);
        proof {
            assert forall|date: CalendarDate| days@.contains(date) <==> before.contains(date)
                || date == day by {
                if before.contains(date) {
                    let i = choose|i: int| 0 <= i < before.len() && before[i] == date;
                    assert(days@[i] == date);
                }
                if date == day {
                    assert(days@[before.len() as int] == date);
                }
            }
            lemma_rank_follows_order(day, end);
        }
        if !day.is_before(&end) {
            proof {
                assert(day == end);
                assert forall|date: CalendarDate| date.is_valid() implies (days@.contains(date)
                    <==> in_range(date, (start, end))) by {
                    lemma_rank_follows_order(date, day);
                }
            }
            break ;
        }
        proof {
            lemma_successor_is_next(day);
            lemma_day_number_counts_days(day);
        }
        let ghost today = day;
        match day.next_day() {
            Some(next) => {
                day = next;
            },
            None => {
                break ;
            },
        }
        proof {
            assert forall|date: CalendarDate| date.is_valid() implies (days@.contains(date)
                <==> in_range(date, (start, end)) && date.precedes(day)) by {
                lemma_rank_follows_order(date, today);
                lemma_rank_follows_order(date, day);
                if date.precedes(day) && !date.precedes(today) && date != today {
                    assert(today.precedes(date));
                }
            }
            lemma_rank_follows_order(day, end);
            lemma_rank_follows_order(today, end);
        }
    }
    days
}

/// The dates of two ascending runs in one ascending run, each date once.
pub fn merge_days(a: &Vec<CalendarDate>, b: &Vec<CalendarDate>) -> (merged: Vec<CalendarDate>)
    requires
        strictly_ascending(a@),
        strictly_ascending(b@),
    ensures
        strictly_ascending(merged@),
        all_valid(a@) && all_valid(b@) ==> all_valid(merged@),
        forall|date: CalendarDate|
            merged@.contains(date) <==> a@.contains(date) || b@.contains(date),
{
    let mut merged: Vec<CalendarDate> = Vec::new();
    let mut i: usize = 0;
    let mut j: usize = 0;
    while i < a.len() || j < b.len()
        invariant
            i <= a.len(),
            j <= b.len(),
            strictly_ascending(a@),
            strictly_ascending(b@),
            strictly_ascending(merged@),
            all_valid(a@) && all_valid(b@) ==> all_valid(merged@),
            forall|k: int|
                0 <= k < merged.len() && i < a.len() ==> (#[trigger] merged@[k]).precedes(
                    a@[i as int],
                ),
            forall|k: int|
                0 <= k < merged.len() && j < b.len() ==> (#[trigger] merged@[k]).precedes(
                    b@[j as int],
                ),
            forall|k: int|
                0 <= k < merged.len() ==> a@.contains(#[trigger] merged@[k]) || b@.contains(
                    merged@[k],
                ),
            forall|k: int| 0 <= k < i ==> merged@.contains(#[trigger] a@[k]),
            forall|k: int| 0 <= k < j ==> merged@.contains(#[trigger] b@[k]),
        decreases (a.len() - i) + (b.len() - j),
    {
        let ghost before = merged@;
        let ghost (i0, j0) = (i as int, j as int);
        let take_a: bool = j >= b.len() || (i < a.len() && a[i].is_before(&b[j]));
        let take_b: bool = !take_a && (i >= a.len() || b[j].is_before(&a[i]));
        if take_a {
            let date: CalendarDate = a[i];
            merged.push(date);
            i += 1;
            proof {
                assert(merged@[before.len() as int] == date);
                assert(a@.contains(date)) by {
                    assert(a@[i - 1] == date);
                }
            }
        } else if take_b {
            let date: CalendarDate = b[j];
            merged.push(date);
            j += 1;
            proof {
                assert(merged@[before.len() as int] == date);
                assert(b@.contains(date)) by {
                    assert(b@[j - 1] == date);
                }
            }
        } else {
            let date: CalendarDate = a[i];
            assert(a@[i as int] == b@[j as int]);
            merged.push(date);
            i += 1;
            j += 1;
            proof {
                assert(merged@[before.len() as int] == date);
                assert(a@.contains(date)) by {
                    assert(a@[i - 1] == date);
                }
            }
        }
        proof {
            assert forall|k: int| 0 <= k < merged.len() && i < a.len() implies (
                #[trigger] merged@[k]).precedes(a@[i as int]) by {
                if k < before.len() {
                    assert(merged@[k] == before[k]);
                    assert(before[k].precedes(a@[i0]));
                }
                if i0 < i {
                    assert(a@[i0].precedes(a@[i as int]));
                }
            }
            assert forall|k: int| 0 <= k < merged.len() && j < b.len() implies (
                #[trigger] merged@[k]).precedes(b@[j as int]) by {
                if k < before.len() {
                    assert(merged@[k] == before[k]);
                    assert(before[k].precedes(b@[j0]));
                }
                if j0 < j {
                    assert(b@[j0].precedes(b@[j as int]));
                }
            }
            assert forall|k: int| 0 <= k < i implies merged@.contains(#[trigger] a@[k]) by {
                if before.contains(a@[k]) {
                    let w = choose|w: int| 0 <= w < before.len() && before[w] == a@[k];
                    assert(merged@[w] == a@[k]);
                }
            }
            assert forall|k: int| 0 <= k < j implies merged@.contains(#[trigger] b@[k]) by {
                if before.contains(b@[k]) {
                    let w = choose|w: int| 0 <= w < before.len() && before[w] == b@[k];
                    assert(merged@[w] == b@[k]);
                }
            }
            assert forall|k: int| 0 <= k < merged.len() implies a@.contains(
                #[trigger] merged@[k],
            ) || b@.contains(merged@[k]) by {
                if k < before.len() {
                    assert(merged@[k] == before[k]);
                }
            }
        }
    }
    proof {
        assert forall|date: CalendarDate| merged@.contains(date) <==> a@.contains(date)
            || b@.contains(date) by {
            if a@.contains(date) {
                let k = choose|k: int| 0 <= k < a@.len() && a@[k] == date;
                assert(merged@.contains(a@[k]));
            }
            if b@.contains(date) {
                let k = choose|k: int| 0 <= k < b@.len() && b@[k] == date;
                assert(merged@.contains(b@[k]));
            }
            if merged@.contains(date) {
                let k = choose|k: int| 0 <= k < merged@.len() && merged@[k] == date;
                assert(a@.contains(merged@[k]) || b@.contains(merged@[k]));
            }
        }
    }
    merged
}

/// The same dates, last first.
pub fn reversed_days(days: &Vec<CalendarDate>) -> (turned: Vec<CalendarDate>)
    ensures
        turned@ == days@.reverse(),
{
    let mut turned: Vec<CalendarDate> = Vec::new();
    let mut left: usize = days.len();
    while left > 0
        invariant
            left <= days.len(),
            turned.len() == days.len() - left,
            forall|k: int| 0 <= k < turned.len() ==> turned@[k] == days@[days.len() - 1 - k],
        decreases left,
    {
        left -= 1;
        turned.push(days[left]);
    }
    turned
}

/// The days that a list of range tokens covers, each day once, in calendar
/// order, or latest first when `reverse` is set.
///
/// Every token must resolve; the error of the first that does not is
/// returned. A token whose start lies after its end covers no day.
pub fn expand_ranges(tokens: &Vec<String>, reverse: bool) -> (r: Result<Vec<CalendarDate>, ParseError>)
    ensures
        match r {
            Ok(days) => {
                &&& forall|i: int| 0 <= i < tokens.len() ==> resolve_range(#[trigger] tokens@[i]@) is Ok
                &&& all_valid(days@)
                &&& if reverse {
                    strictly_descending(days@)
                } else {
                    strictly_ascending(days@)
                }
                &&& forall|date: CalendarDate|
                    date.is_valid() ==> (days@.contains(date) <==> covered(tokens@, date))
            },
            Err(e) => exists|i: int|
                first_failure(tokens@, i) && resolve_range(tokens@[i]@) == Err::<
                    (CalendarDate, CalendarDate),
                    ParseError,
                >(e),
        },
{
    let mut days: Vec<CalendarDate> = Vec::new();
    let mut n: usize = 0;
    while n < tokens.len()
        invariant
            n <= tokens.len(),
            strictly_ascending(days@),
            all_valid(days@),
            forall|i: int| 0 <= i < n ==> resolve_range(#[trigger] tokens@[i]@) is Ok,
            forall|date: CalendarDate|
                date.is_valid() ==> (days@.contains(date) <==> exists|i: int|
                    i < n && covered_by(tokens@, i, date)),
        decreases tokens.len() - n,
    {
        let range: (CalendarDate, CalendarDate) = match parse_date_range(tokens[n].as_str()) {
            Ok(range) => range,
            Err(e) => {
                proof {
                    assert(first_failure(tokens@, n as int));
                }
                return Err(e);
            },
        };
        let run: Vec<CalendarDate> = days_between(range.0, range.1);
        let ghost before = days@;
        days = merge_days(&days, &run);
        proof {
            assert forall|date: CalendarDate| date.is_valid() implies (days@.contains(date)
                <==> exists|i: int| i < n + 1 && covered_by(tokens@, i, date)) by {
                if before.contains(date) {
                    let i = choose|i: int| i < n && covered_by(tokens@, i, date);
                    assert(i < n + 1 && covered_by(tokens@, i, date));
                }
                if run@.contains(date) {
                    assert(covered_by(tokens@, n as int, date));
                }
                if exists|i: int| i < n + 1 && covered_by(tokens@, i, date) {
                    let i = choose|i: int| i < n + 1 && covered_by(tokens@, i, date);
                    if i < n {
                        assert(before.contains(date));
                    } else {
                        assert(i == n);
                        assert(run@.contains(date));
                    }
                }
            }
        }
        n += 1;
    }
    proof {
        assert forall|date: CalendarDate| date.is_valid() implies (days@.contains(date)
            <==> covered(tokens@, date)) by {
            if covered(tokens@, date) {
                let i = choose|i: int| covered_by(tokens@, i, date);
                assert(i < n && covered_by(tokens@, i, date));
            }
        }
    }
    if reverse {
        let turned: Vec<CalendarDate> = reversed_days(&days);
        proof {
            assert forall|date: CalendarDate| turned@.contains(date) <==> days@.contains(
                date,
            ) by {
                if turned@.contains(date) {
                    let k = choose|k: int| 0 <= k < turned@.len() && turned@[k] == date;
                    assert(days@[days@.len() - 1 - k] == date);
                }
                if days@.contains(date) {
                    let k = choose|k: int| 0 <= k < days@.len() && days@[k] == date;
                    assert(turned@[days@.len() - 1 - k] == date);
                }
            }
        }
        Ok(turned)
    } else {
        Ok(days)
    }
}

} // verus!
