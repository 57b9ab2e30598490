//! What holds of every date token: theorems about `resolve_boundary`.

use crate::calendar::{
    days_in_month, four_digits, is_leap_year, is_valid_ymd, two_digits, year_text, CalendarDate,
};
use crate::text::{
    all_digits, decimal_text, decimal_value, digit_char, is_digit, lemma_decimal_text_round_trip,
    lemma_decimal_value_bound,
};
use crate::utils::{
    close_segment, date_of, is_separator, resolve_boundary, resolve_fields, scan_segments,
    segments, token_fields, ParseError,
};
use vstd::prelude::*;

verus! {

/// Whether no character of `s` is a separator.
pub open spec fn separator_free(s: Seq<char>) -> bool {
    forall|i: int| 0 <= i < s.len() ==> !is_separator(#[trigger] s[i])
}

/// Whether `t` is `s` with some separators exchanged for other separators.
pub open spec fn same_up_to_separators(s: Seq<char>, t: Seq<char>) -> bool {
    &&& s.len() == t.len()
    &&& forall|i: int|
        0 <= i < s.len() ==> (is_separator(#[trigger] s[i]) <==> is_separator(#[trigger] t[i]))
    &&& forall|i: int| 0 <= i < s.len() && !is_separator(s[i]) ==> #[trigger] s[i] == #[trigger] t[i]
}

/// Digits are no separators.
pub proof fn lemma_digits_separator_free(s: Seq<char>)
    requires
        all_digits(s),
    ensures
        separator_free(s),
{
    assert forall|i: int| 0 <= i < s.len() implies !is_separator(#[trigger] s[i]) by {
        assert(is_digit(s[i]));
    }
}

/// A part of a digit string is a digit string.
pub proof fn lemma_all_digits_subrange(s: Seq<char>, from: int, to: int)
    requires
        all_digits(s),
        0 <= from <= to <= s.len(),
    ensures
        all_digits(s.subrange(from, to)),
{
    assert forall|i: int| 0 <= i < s.subrange(from, to).len() implies is_digit(
        #[trigger] s.subrange(from, to)[i],
    ) by {
        assert(s.subrange(from, to)[i] == s[from + i]);
    }
}

/// Reading on through characters that are no separators only lengthens the
/// open segment.
pub proof fn lemma_scan_plain(p: Seq<char>, q: Seq<char>)
    requires
        separator_free(q),
    ensures
        scan_segments(p + q) == (scan_segments(p).0, scan_segments(p).1 + q),
    decreases q.len(),
{
    if q.len() == 0 {
        assert(p + q == p);
        assert(scan_segments(p).1 + q == scan_segments(p).1);
    } else {
        let shorter = q.drop_last();
        assert(separator_free(shorter)) by {
            assert forall|i: int| 0 <= i < shorter.len() implies !is_separator(
                #[trigger] shorter[i],
            ) by {
                assert(shorter[i] == q[i]);
            }
        }
        lemma_scan_plain(p, shorter);
        assert((p + q).drop_last() == p + shorter);
        assert((p + q).last() == q.last());
        assert(!is_separator(q.last()));
        assert((scan_segments(p).1 + shorter).push(q.last()) == scan_segments(p).1 + q);
    }
}

/// Reading one separator closes the open segment.
pub proof fn lemma_scan_separator(p: Seq<char>, c: char)
    requires
        is_separator(c),
    ensures
        scan_segments(p.push(c)) == (
            close_segment(scan_segments(p).0, scan_segments(p).1),
            Seq::<char>::empty(),
        ),
{
    assert(p.push(c).drop_last() == p);
    assert(p.push(c).last() == c);
}

/// No segment is empty.
pub proof fn lemma_scan_closed_not_empty(s: Seq<char>, i: int)
    requires
        0 <= i < scan_segments(s).0.len(),
    ensures
        scan_segments(s).0[i].len() > 0,
    decreases s.len(),
{
    if s.len() > 0 {
        let (closed, open) = scan_segments(s.drop_last());
        if i < closed.len() {
            lemma_scan_closed_not_empty(s.drop_last(), i);
        }
    }
}

/// No segment is empty.
pub proof fn lemma_segments_are_not_empty(s: Seq<char>, i: int)
    requires
        0 <= i < segments(s).len(),
    ensures
        segments(s)[i].len() > 0,
{
    if i < scan_segments(s).0.len() {
        lemma_scan_closed_not_empty(s, i);
    }
}

/// A non-empty text without separators is its own single segment.
pub proof fn lemma_single_segment(s: Seq<char>)
    requires
        s.len() > 0,
        separator_free(s),
    ensures
        segments(s) == seq![s],
{
    let none = Seq::<char>::empty();
    lemma_scan_plain(none, s);
    assert(none + s == s);
    assert(scan_segments(none) == (Seq::<Seq<char>>::empty(), none));
    assert(Seq::<Seq<char>>::empty().push(s) == seq![s]);
}

/// Two texts that differ only in which separator stands where have the same
/// segments.
pub proof fn lemma_scan_ignores_separator_choice(s: Seq<char>, t: Seq<char>)
    requires
        same_up_to_separators(s, t),
    ensures
        scan_segments(s) == scan_segments(t),
    decreases s.len(),
{
    if s.len() > 0 {
        assert(same_up_to_separators(s.drop_last(), t.drop_last())) by {
            assert forall|i: int| 0 <= i < s.drop_last().len() implies (is_separator(
                #[trigger] s.drop_last()[i],
            ) <==> is_separator(#[trigger] t.drop_last()[i])) by {
                assert(s.drop_last()[i] == s[i]);
                assert(t.drop_last()[i] == t[i]);
            }
            assert forall|i: int|
                0 <= i < s.drop_last().len() && !is_separator(
                    s.drop_last()[i],
                ) implies #[trigger] s.drop_last()[i] == #[trigger] t.drop_last()[i] by {
                assert(s.drop_last()[i] == s[i]);
                assert(t.drop_last()[i] == t[i]);
            }
        }
        lemma_scan_ignores_separator_choice(s.drop_last(), t.drop_last());
        assert(is_separator(s.last()) <==> is_separator(t.last())) by {
            assert(s.last() == s[s.len() - 1]);
            assert(t.last() == t[s.len() - 1]);
        }
        if !is_separator(s.last()) {
            assert(s[s.len() - 1] == t[s.len() - 1]);
        }
    }
}

/// Which of `-`, `/` and `.` separates the parts of a token makes no
/// difference to the date it resolves to, nor to the error it is refused
/// with.
pub proof fn lemma_separator_choice_is_irrelevant(s: Seq<char>, t: Seq<char>, end: bool)
    requires
        same_up_to_separators(s, t),
    ensures
        resolve_boundary(s, end) == resolve_boundary(t, end),
{
    lemma_scan_ignores_separator_choice(s, t);
}

/// The segments of `year sep month sep day`.
pub proof fn lemma_three_segments(year: Seq<char>, a: char, month: Seq<char>, b: char, day: Seq<char>)
    requires
        year.len() > 0,
        month.len() > 0,
        day.len() > 0,
        separator_free(year),
        separator_free(month),
        separator_free(day),
        is_separator(a),
        is_separator(b),
    ensures
        segments(year.push(a) + month.push(b) + day) == seq![year, month, day],
{
    let none = Seq::<char>::empty();
    let no_segments = Seq::<Seq<char>>::empty();
    assert(scan_segments(none) == (no_segments, none));
    lemma_scan_plain(none, year);
    assert(none + year == year);
    assert(scan_segments(year) == (no_segments, year));
    lemma_scan_separator(year, a);
    assert(scan_segments(year.push(a)) == (no_segments.push(year), none));
    lemma_scan_plain(year.push(a), month);
    assert(none + month == month);
    lemma_scan_separator(year.push(a) + month, b);
    assert((year.push(a) + month).push(b) == year.push(a) + month.push(b));
    assert(scan_segments(year.push(a) + month.push(b)) == (
        no_segments.push(year).push(month),
        none,
    ));
    lemma_scan_plain(year.push(a) + month.push(b), day);
    assert(none + day == day);
    assert(no_segments.push(year).push(month).push(day) == seq![year, month, day]);
}

/// The segments of `year sep month`.
pub proof fn lemma_two_segments(year: Seq<char>, a: char, month: Seq<char>)
    requires
        year.len() > 0,
        month.len() > 0,
        separator_free(year),
        separator_free(month),
        is_separator(a),
    ensures
        segments(year.push(a) + month) == seq![year, month],
{
    let none = Seq::<char>::empty();
    let no_segments = Seq::<Seq<char>>::empty();
    assert(scan_segments(none) == (no_segments, none));
    lemma_scan_plain(none, year);
    assert(none + year == year);
    lemma_scan_separator(year, a);
    assert(scan_segments(year.push(a)) == (no_segments.push(year), none));
    lemma_scan_plain(year.push(a), month);
    assert(none + month == month);
    assert(no_segments.push(year).push(month) == seq![year, month]);
}

/// A token of eight digits that name a real day resolves to exactly that
/// day, whether the start or the end of the period is asked for.
pub proof fn lemma_eight_digit_token(token: Seq<char>, end: bool)
    requires
        token.len() == 8,
        all_digits(token),
        is_valid_ymd(
            decimal_value(token.subrange(0, 4)) as int,
            decimal_value(token.subrange(4, 6)) as int,
            decimal_value(token.subrange(6, 8)) as int,
        ),
    ensures
        resolve_boundary(token, end) == Ok::<CalendarDate, ParseError>(
            date_of(
                decimal_value(token.subrange(0, 4)) as int,
                decimal_value(token.subrange(4, 6)) as int,
                decimal_value(token.subrange(6, 8)) as int,
            ),
        ),
{
    lemma_digits_separator_free(token);
    lemma_single_segment(token);
    lemma_all_digits_subrange(token, 0, 4);
    lemma_all_digits_subrange(token, 4, 6);
    lemma_all_digits_subrange(token, 6, 8);
}

/// A token of six digits whose month is 1 to 12 resolves to the first day
/// of that month as a start and to its last day as an end: the 29th of
/// February in a leap year, the 28th otherwise, the 31st of December.
pub proof fn lemma_six_digit_token(token: Seq<char>)
    requires
        token.len() == 6,
        all_digits(token),
        1 <= decimal_value(token.subrange(4, 6)) <= 12,
    ensures
        ({
            let year = decimal_value(token.subrange(0, 4)) as int;
            let month = decimal_value(token.subrange(4, 6)) as int;
            &&& resolve_boundary(token, false) == Ok::<CalendarDate, ParseError>(
                date_of(year, month, 1),
            )
            &&& resolve_boundary(token, true) == Ok::<CalendarDate, ParseError>(
                date_of(year, month, days_in_month(year, month)),
            )
            &&& month == 2 && is_leap_year(year) ==> days_in_month(year, month) == 29
            &&& month == 2 && !is_leap_year(year) ==> days_in_month(year, month) == 28
            &&& month == 12 ==> days_in_month(year, month) == 31
        }),
{
    lemma_digits_separator_free(token);
    lemma_single_segment(token);
    lemma_all_digits_subrange(token, 0, 4);
    lemma_all_digits_subrange(token, 4, 6);
}

/// A token of four digits resolves to the 1st of January of that year as a
/// start and to the 31st of December as an end.
pub proof fn lemma_four_digit_token(token: Seq<char>)
    requires
        token.len() == 4,
        all_digits(token),
    ensures
        resolve_boundary(token, false) == Ok::<CalendarDate, ParseError>(
            date_of(decimal_value(token) as int, 1, 1),
        ),
        resolve_boundary(token, true) == Ok::<CalendarDate, ParseError>(
            date_of(decimal_value(token) as int, 12, 31),
        ),
{
    lemma_digits_separator_free(token);
    lemma_single_segment(token);
}

/// A full date written with separators, its month and day two digits long,
/// resolves as the same digits written without separators do.
pub proof fn lemma_separators_may_be_left_out(
    year: Seq<char>,
    a: char,
    month: Seq<char>,
    b: char,
    day: Seq<char>,
    end: bool,
)
    requires
        year.len() == 4,
        month.len() == 2,
        day.len() == 2,
        separator_free(year),
        separator_free(month),
        separator_free(day),
        is_separator(a),
        is_separator(b),
    ensures
        resolve_boundary(year.push(a) + month.push(b) + day, end) == resolve_boundary(
            year + month + day,
            end,
        ),
{
    lemma_three_segments(year, a, month, b, day);
    let compact = year + month + day;
    assert(separator_free(compact)) by {
        assert forall|i: int| 0 <= i < compact.len() implies !is_separator(
            #[trigger] compact[i],
        ) by {
            if i < 4 {
                assert(compact[i] == year[i]);
            } else if i < 6 {
                assert(compact[i] == month[i - 4]);
            } else {
                assert(compact[i] == day[i - 6]);
            }
        }
    }
    lemma_single_segment(compact);
    assert(compact.subrange(0, 4) == year);
    assert(compact.subrange(4, 6) == month);
    assert(compact.subrange(6, 8) == day);
}

/// A year and a month written with a separator, the month two digits long,
/// resolve as the same digits written without the separator do.
pub proof fn lemma_month_separator_may_be_left_out(
    year: Seq<char>,
    a: char,
    month: Seq<char>,
    end: bool,
)
    requires
        year.len() == 4,
        month.len() == 2,
        separator_free(year),
        separator_free(month),
        is_separator(a),
    ensures
        resolve_boundary(year.push(a) + month, end) == resolve_boundary(year + month, end),
{
    lemma_two_segments(year, a, month);
    let compact = year + month;
    assert(separator_free(compact)) by {
        assert forall|i: int| 0 <= i < compact.len() implies !is_separator(
            #[trigger] compact[i],
        ) by {
            if i < 4 {
                assert(compact[i] == year[i]);
            } else {
                assert(compact[i] == month[i - 4]);
            }
        }
    }
    lemma_single_segment(compact);
    assert(compact.subrange(0, 4) == year);
    assert(compact.subrange(4, 6) == month);
}

/// What every accepted token has: a year of exactly four digits; where it
/// gives a month, one from 1 to 12; where it gives a day, one that exists in
/// that month of that year.
pub proof fn lemma_accepted_tokens(token: Seq<char>, end: bool)
    requires
        resolve_boundary(token, end) is Ok,
    ensures
        token_fields(segments(token)) matches Some((year, month, day)) && {
            &&& year.len() == 4
            &&& all_digits(year)
            &&& month.len() > 0 ==> all_digits(month) && 1 <= decimal_value(month) <= 12
            &&& day.len() > 0 ==> month.len() > 0 && all_digits(day) && is_valid_ymd(
                decimal_value(year) as int,
                decimal_value(month) as int,
                decimal_value(day) as int,
            )
        },
{
    let fields = token_fields(segments(token));
    assert(fields is Some);
    let (year, month, day) = fields->0;
    assert(resolve_boundary(token, end) == resolve_fields(year, month, day, end));
    if day.len() > 0 {
        assert(month.len() > 0) by {
            let segs = segments(token);
            if segs.len() == 3 {
                lemma_segments_are_not_empty(token, 1);
            }
        }
    }
}

/// Every date that a token resolves to is a real day.
pub proof fn lemma_resolved_dates_are_real(token: Seq<char>, end: bool)
    ensures
        resolve_boundary(token, end) matches Ok(date) ==> date.is_valid(),
{
    let fields = token_fields(segments(token));
    if fields is Some {
        let (year, month, day) = fields->0;
        if all_digits(year) && year.len() == 4 {
            lemma_decimal_value_bound(year);
        }
    }
}

/// The error for each way in which the numbers of a token can be wrong: a
/// year that is not four digits long, a month outside 1 to 12, a day that
/// the month does not have.
pub proof fn lemma_rejected_fields(year: Seq<char>, month: Seq<char>, day: Seq<char>, end: bool)
    requires
        all_digits(year),
    ensures
        year.len() != 4 ==> resolve_fields(year, month, day, end) == Err::<CalendarDate, ParseError>(
            ParseError::InvalidYearLength,
        ),
        year.len() == 4 && month.len() > 0 && all_digits(month) && !(1 <= decimal_value(month)
            <= 12) ==> resolve_fields(year, month, day, end) == Err::<CalendarDate, ParseError>(
            ParseError::InvalidMonth,
        ),
        year.len() == 4 && month.len() > 0 && all_digits(month) && 1 <= decimal_value(month) <= 12
            && day.len() > 0 && all_digits(day) && !(1 <= decimal_value(day) <= days_in_month(
            decimal_value(year) as int,
            decimal_value(month) as int,
        )) ==> resolve_fields(year, month, day, end) == Err::<CalendarDate, ParseError>(
            ParseError::InvalidDay,
        ),
{
    if year.len() == 4 {
        lemma_decimal_value_bound(year);
    }
}

/// A zero in front changes neither the digits' nature nor their number.
pub proof fn lemma_leading_zero(s: Seq<char>)
    requires
        all_digits(s),
    ensures
        all_digits(seq!['0'] + s),
        decimal_value(seq!['0'] + s) == decimal_value(s),
    decreases s.len(),
{
    let longer = seq!['0'] + s;
    assert forall|i: int| 0 <= i < longer.len() implies is_digit(#[trigger] longer[i]) by {
        if i > 0 {
            assert(longer[i] == s[i - 1]);
        }
    }
    if s.len() == 0 {
        assert(longer.drop_last().len() == 0);
        assert(decimal_value(longer.drop_last()) == 0);
        assert(longer.last() == '0');
    } else {
        assert(all_digits(s.drop_last())) by {
            assert forall|i: int| 0 <= i < s.drop_last().len() implies is_digit(
                #[trigger] s.drop_last()[i],
            ) by {
                assert(s.drop_last()[i] == s[i]);
            }
        }
        lemma_leading_zero(s.drop_last());
        assert(longer.drop_last() == seq!['0'] + s.drop_last());
        assert(longer.last() == s.last());
    }
}

/// The four digits of a number up to 9999 write that number.
pub proof fn lemma_four_digits(n: nat)
    requires
        n <= 9999,
    ensures
        four_digits(n).len() == 4,
        all_digits(four_digits(n)),
        decimal_value(four_digits(n)) == n,
{
    reveal_with_fuel(decimal_text, 4);
    lemma_decimal_text_round_trip(n);
    let text = decimal_text(n);
    if n < 1000 {
        lemma_leading_zero(text);
        if n < 100 {
            lemma_leading_zero(seq!['0'] + text);
            assert(seq!['0'] + (seq!['0'] + text) == seq!['0', '0'] + text);
            if n < 10 {
                lemma_leading_zero(seq!['0', '0'] + text);
                assert(seq!['0'] + (seq!['0', '0'] + text) == seq!['0', '0', '0'] + text);
            }
        }
    }
}

/// The two digits of a number below 100 write that number.
pub proof fn lemma_two_digits(n: nat)
    requires
        n < 100,
    ensures
        two_digits(n).len() == 2,
        all_digits(two_digits(n)),
        decimal_value(two_digits(n)) == n,
{
    let text = two_digits(n);
    lemma_decimal_text_round_trip(n / 10);
    lemma_decimal_text_round_trip(n % 10);
    assert(is_digit(digit_char(n / 10)) && is_digit(digit_char(n % 10))) by {
        assert(decimal_text(n / 10)[0] == digit_char(n / 10));
        assert(decimal_text(n % 10)[0] == digit_char(n % 10));
    }
    assert(text.drop_last() == seq![digit_char(n / 10)]);
    assert(text.drop_last() == decimal_text(n / 10));
    assert(text.last() == digit_char(n % 10));
    assert(decimal_text(n % 10).drop_last().len() == 0);
    assert(decimal_value(decimal_text(n % 10).drop_last()) == 0);
    assert(decimal_text(n % 10).last() == digit_char(n % 10));
}

/// The `YYYY-MM-DD` text of a date with a year from 0 to 9999 resolves to
/// that date, whether the start or the end of the period is asked for.
pub proof fn lemma_iso_text_resolves_to_its_date(date: CalendarDate, end: bool)
    requires
        date.is_valid(),
        0 <= date.year <= 9999,
    ensures
        resolve_boundary(date.iso_text(), end) == Ok::<CalendarDate, ParseError>(date),
{
    let year = year_text(date.year as int);
    let month = two_digits(date.month as nat);
    let day = two_digits(date.day as nat);
    lemma_four_digits(date.year as nat);
    lemma_two_digits(date.month as nat);
    lemma_two_digits(date.day as nat);
    lemma_digits_separator_free(year);
    lemma_digits_separator_free(month);
    lemma_digits_separator_free(day);
    lemma_three_segments(year, '-', month, '-', day);
    assert(date.iso_text() == year.push('-') + month.push('-') + day);
    assert(date_of(date.year as int, date.month as int, date.day as int) == date);
}

} // verus!
