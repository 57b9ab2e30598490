//! Date tokens: one token to one calendar boundary, one range token to an
//! inclusive pair of dates.

use crate::calendar::{days_in_month, is_valid_ymd, last_day_of_month, CalendarDate};
use crate::text::{all_digits, bounded_value, chars_of, copy_range, decimal_value, is_all_digits};
use crate::text::lemma_decimal_value_bound;
use vstd::prelude::*;

verus! {

/// Why a date token or a range token was refused.
#[derive(Clone, Copy, Debug, PartialEq, Eq, Structural)]
pub enum ParseError {
    /// Wrong number of segments, a lone segment that is not 4, 6 or 8
    /// characters long, or a segment with a character that is no digit.
    MalformedToken,
    /// The year segment is not exactly 4 digits long.
    InvalidYearLength,
    /// The month is not 1 to 12.
    InvalidMonth,
    /// The day does not exist in that month of that year.
    InvalidDay,
    /// More than two parts around the range separator.
    InvalidRangeShape,
}

/// The characters that may stand between the parts of a date.
pub open spec fn is_separator(c: char) -> bool {
    c == '-' || c == '/' || c == '.'
}

/// `closed` with `open` added at its end, unless `open` is empty.
pub open spec fn close_segment(closed: Seq<Seq<char>>, open: Seq<char>) -> Seq<Seq<char>> {
    if open.len() > 0 {
        closed.push(open)
    } else {
        closed
    }
}

/// Reading `s` from the left: the segments that a separator has closed, and
/// the characters read since the last separator.
pub open spec fn scan_segments(s: Seq<char>) -> (Seq<Seq<char>>, Seq<char>)
    decreases s.len(),
{
    if s.len() == 0 {
        (Seq::empty(), Seq::empty())
    } else {
        let (closed, open) = scan_segments(s.drop_last());
        if is_separator(s.last()) {
            (close_segment(closed, open), Seq::empty())
        } else {
            (closed, open.push(s.last()))
        }
    }
}

/// The non-empty runs of characters between separators, in order.
pub open spec fn segments(s: Seq<char>) -> Seq<Seq<char>> {
    let (closed, open) = scan_segments(s);
    close_segment(closed, open)
}

/// The year, month and day texts that the segments of a token hold; the
/// month and the day are empty where the token does not give them.
pub open spec fn token_fields(segs: Seq<Seq<char>>) -> Option<(Seq<char>, Seq<char>, Seq<char>)> {
    if segs.len() == 1 {
        let lone = segs[0];
        if lone.len() == 8 {
            Some((lone.subrange(0, 4), lone.subrange(4, 6), lone.subrange(6, 8)))
        } else if lone.len() == 6 {
            Some((lone.subrange(0, 4), lone.subrange(4, 6), Seq::empty()))
        } else if lone.len() == 4 {
            Some((lone, Seq::empty(), Seq::empty()))
        } else {
            None
        }
    } else if segs.len() == 2 {
        Some((segs[0], segs[1], Seq::empty()))
    } else if segs.len() == 3 {
        Some((segs[0], segs[1], segs[2]))
    } else {
        None
    }
}

/// The date for three numbers that are known to name one.
pub open spec fn date_of(year: int, month: int, day: int) -> CalendarDate {
    CalendarDate { year: year as i32, month: month as u32, day: day as u32 }
}

/// The boundary that year, month and day texts denote: the first day of the
/// period they name, or its last day when `end` is set.
pub open spec fn resolve_fields(year: Seq<char>, month: Seq<char>, day: Seq<char>, end: bool)
    -> Result<CalendarDate, ParseError> {
    let y = decimal_value(year) as int;
    let m = decimal_value(month) as int;
    let d = decimal_value(day) as int;
    if !all_digits(year) {
        Err(ParseError::MalformedToken)
    } else if year.len() != 4 {
        Err(ParseError::InvalidYearLength)
    } else if month.len() == 0 {
        Ok(if end { date_of(y, 12, 31) } else { date_of(y, 1, 1) })
    } else if !all_digits(month) {
        Err(ParseError::MalformedToken)
    } else if !(1 <= m <= 12) {
        Err(ParseError::InvalidMonth)
    } else if day.len() == 0 {
        Ok(if end { date_of(y, m, days_in_month(y, m)) } else { date_of(y, m, 1) })
    } else if !all_digits(day) {
        Err(ParseError::MalformedToken)
    } else if !is_valid_ymd(y, m, d) {
        Err(ParseError::InvalidDay)
    } else {
        Ok(date_of(y, m, d))
    }
}

/// The boundary that a date token denotes.
pub open spec fn resolve_boundary(token: Seq<char>, end: bool) -> Result<CalendarDate, ParseError> {
    match token_fields(segments(token)) {
        None => Err(ParseError::MalformedToken),
        Some((year, month, day)) => resolve_fields(year, month, day, end),
    }
}

/// What each of the given character vectors holds.
pub open spec fn views_of(parts: Seq<Vec<char>>) -> Seq<Seq<char>> {
    Seq::new(parts.len(), |i: int| parts[i]@)
}

/// Splits a token at its separators and drops the empty parts.
pub fn split_segments(token: &Vec<char>) -> (segs: Vec<Vec<char>>)
    ensures
        views_of(segs@) == segments(token@),
{
    let mut closed: Vec<Vec<char>> = Vec::new();
    let mut open: Vec<char> = Vec::new();
    let mut i: usize = 0;
    assert(token@.take(0).len() == 0);
    while i < token.len()
        invariant
            i <= token.len(),
            (views_of(closed@), open@) == scan_segments(token@.take(i as int)),
        decreases token.len() - i,
    {
        let c: char = token[i];
        proof {
            assert(token@.take(i + 1).drop_last() == token@.take(i as int));
            assert(token@.take(i + 1).last() == c);
        }
        if c == '-' || c == '/' || c == '.' {
            if open.len() > 0 {
                let ghost before = views_of(closed@);
                let ghost text = open@;
                closed.push(open);
                open = Vec::new();
                assert(views_of(closed@) == before.push(text));
            }
        } else {
            open.push(c);
        }
        i += 1;
    }
    proof {
        assert(token@.take(i as int) == token@);
    }
    if open.len() > 0 {
        let ghost before = views_of(closed@);
        let ghost text = open@;
        closed.push(open);
        assert(views_of(closed@) == before.push(text));
    }
    closed
}

/// Resolves year, month and day texts to a boundary.
pub fn resolve_date_fields(year: &Vec<char>, month: &Vec<char>, day: &Vec<char>, end: bool) -> (r:
    Result<CalendarDate, ParseError>)
    ensures
        r == resolve_fields(year@, month@, day@, end),
        r matches Ok(date) ==> date.is_valid(),
{
    if !is_all_digits(year) {
        return Err(ParseError::MalformedToken);
    }
    if year.len() != 4 {
        return Err(ParseError::InvalidYearLength);
    }
    proof {
        lemma_decimal_value_bound(year@);
    }
    let y: i32 = bounded_value(year, 9999).unwrap() as i32;
    if month.len() == 0 {
        return Ok(
            if end {
                CalendarDate { year: y, month: 12, day: 31 }
            } else {
                CalendarDate { year: y, month: 1, day: 1 }
            },
        );
    }
    if !is_all_digits(month) {
        return Err(ParseError::MalformedToken);
    }
    let m: u32 = match bounded_value(month, 12) {
        Some(v) => v,
        None => { return Err(ParseError::InvalidMonth); },
    };
    if m == 0 {
        return Err(ParseError::InvalidMonth);
    }
    if day.len() == 0 {
        let last: u32 = if end { last_day_of_month(y, m) } else { 1 };
        return Ok(CalendarDate { year: y, month: m, day: last });
    }
    if !is_all_digits(day) {
        return Err(ParseError::MalformedToken);
    }
    let d: u32 = match bounded_value(day, 31) {
        Some(v) => v,
        None => { return Err(ParseError::InvalidDay); },
    };
    match CalendarDate::from_ymd(y, m, d) {
        Some(date) => Ok(date),
        None => Err(ParseError::InvalidDay),
    }
}

/// Resolves the segments of a token to a boundary.
pub fn resolve_segments(segs: &Vec<Vec<char>>, end: bool) -> (r: Result<CalendarDate, ParseError>)
    ensures
        r == (match token_fields(views_of(segs@)) {
            None => Err(ParseError::MalformedToken),
            Some((year, month, day)) => resolve_fields(year, month, day, end),
        }),
        r matches Ok(date) ==> date.is_valid(),
{
    let none: Vec<char> = Vec::new();
    if segs.len() == 1 {
        let lone: &Vec<char> = &segs[0];
        assert(views_of(segs@)[0] == lone@);
        if lone.len() == 8 {
            let year: Vec<char> = copy_range(lone, 0, 4);
            let month: Vec<char> = copy_range(lone, 4, 6);
            let day: Vec<char> = copy_range(lone, 6, 8);
            resolve_date_fields(&year, &month, &day, end)
        } else if lone.len() == 6 {
            let year: Vec<char> = copy_range(lone, 0, 4);
            let month: Vec<char> = copy_range(lone, 4, 6);
            resolve_date_fields(&year, &month, &none, end)
        } else if lone.len() == 4 {
            resolve_date_fields(lone, &none, &none, end)
        } else {
            Err(ParseError::MalformedToken)
        }
    } else if segs.len() == 2 {
        assert(views_of(segs@)[0] == segs@[0]@);
        assert(views_of(segs@)[1] == segs@[1]@);
        resolve_date_fields(&segs[0], &segs[1], &none, end)
    } else if segs.len() == 3 {
        assert(views_of(segs@)[0] == segs@[0]@);
        assert(views_of(segs@)[1] == segs@[1]@);
        assert(views_of(segs@)[2] == segs@[2]@);
        resolve_date_fields(&segs[0], &segs[1], &segs[2], end)
    } else {
        Err(ParseError::MalformedToken)
    }
}

/// Resolves the characters of a date token to a boundary.
pub fn resolve_token(token: &Vec<char>, end: bool) -> (r: Result<CalendarDate, ParseError>)
    ensures
        r == resolve_boundary(token@, end),
        r matches Ok(date) ==> date.is_valid(),
{
    let segs: Vec<Vec<char>> = split_segments(token);
    resolve_segments(&segs, end)
}

/// Resolves a date token to one calendar date.
///
/// The token gives a year, a year and a month, or a full date, as digits
/// alone (`YYYY`, `YYYYMM`, `YYYYMMDD`) or with `-`, `/` or `.` between the
/// parts. A token that names a whole month or year resolves to the first
/// day of that period, or to its last day when `end` is set; a full date
/// resolves to itself either way.
pub fn parse_date_boundary(s: &str, end: bool) -> (r: Result<CalendarDate, ParseError>)
    ensures
        r == resolve_boundary(s@, end),
        r matches Ok(date) ==> date.is_valid(),
{
    let token: Vec<char> = chars_of(s);
    resolve_token(&token, end)
}

/// Whether the two-character range separator `..` stands at index `i`.
pub open spec fn range_separator_at(s: Seq<char>, i: int) -> bool {
    0 <= i && i + 1 < s.len() && s[i] == '.' && s[i + 1] == '.'
}

/// Whether `i` is the leftmost place of a range separator in `s`.
pub open spec fn is_first_range_separator(s: Seq<char>, i: int) -> bool {
    range_separator_at(s, i) && forall|j: int| 0 <= j < i ==> !range_separator_at(s, j)
}

/// The leftmost place of a range separator in `s`, if it has one.
pub open spec fn first_range_separator(s: Seq<char>) -> Option<int> {
    if exists|i: int| is_first_range_separator(s, i) {
        Some(choose|i: int| is_first_range_separator(s, i))
    } else {
        None
    }
}

/// Both boundaries, or the error of the first that has one.
pub open spec fn pair_of(
    start: Result<CalendarDate, ParseError>,
    end: Result<CalendarDate, ParseError>,
) -> Result<(CalendarDate, CalendarDate), ParseError> {
    match start {
        Err(e) => Err(e),
        Ok(first) => match end {
            Err(e) => Err(e),
            Ok(last) => Ok((first, last)),
        },
    }
}

/// The inclusive pair of dates that a range token denotes.
///
/// Without a range separator the one token gives both ends: its period's
/// first and last day. With one separator the left part gives the start
/// and the right part the end. The ends are not put in order.
pub open spec fn resolve_range(token: Seq<char>) -> Result<(CalendarDate, CalendarDate), ParseError> {
    match first_range_separator(token) {
        None => pair_of(resolve_boundary(token, false), resolve_boundary(token, true)),
        Some(i) => {
            let left = token.take(i);
            let right = token.skip(i + 2);
            if first_range_separator(right) is Some {
                Err(ParseError::InvalidRangeShape)
            } else {
                pair_of(resolve_boundary(left, false), resolve_boundary(right, true))
            }
        },
    }
}

/// The leftmost range separator is the only index that has one and none
/// before it.
pub proof fn lemma_first_range_separator(s: Seq<char>, i: int)
    requires
        is_first_range_separator(s, i),
    ensures
        first_range_separator(s) == Some(i),
{
    let k = choose|k: int| is_first_range_separator(s, k);
    if k < i {
        assert(!range_separator_at(s, k));
    }
    if i < k {
        assert(!range_separator_at(s, i));
    }
}

/// Without any range separator there is no leftmost one.
pub proof fn lemma_no_range_separator(s: Seq<char>)
    requires
        forall|j: int| 0 <= j ==> !range_separator_at(s, j),
    ensures
        first_range_separator(s) is None,
{
}

/// Finds the leftmost range separator.
pub fn find_range_separator(chars: &Vec<char>) -> (found: Option<usize>)
    ensures
        found matches Some(i) ==> first_range_separator(chars@) == Some(i as int),
        found is None ==> first_range_separator(chars@) is None,
{
    let mut i: usize = 0;
    while i < chars.len() && i + 1 < chars.len()
        invariant
            forall|j: int| 0 <= j < i ==> !range_separator_at(chars@, j),
        decreases chars.len() - i,
    {
        if chars[i] == '.' && chars[i + 1] == '.' {
            proof {
                lemma_first_range_separator(chars@, i as int);
            }
            return Some(i);
        }
        i += 1;
    }
    proof {
        lemma_no_range_separator(chars@);
    }
    None
}

/// Resolves the characters of a range token.
pub fn resolve_range_token(token: &Vec<char>) -> (r: Result<(CalendarDate, CalendarDate), ParseError>)
    ensures
        r == resolve_range(token@),
        r matches Ok(range) ==> range.0.is_valid() && range.1.is_valid(),
{
    match find_range_separator(token) {
        None => {
            let start: CalendarDate = match resolve_token(token, false) {
                Ok(date) => date,
                Err(e) => { return Err(e); },
            };
            let end: CalendarDate = match resolve_token(token, true) {
                Ok(date) => date,
                Err(e) => { return Err(e); },
            };
            Ok((start, end))
        },
        Some(i) => {
            let left: Vec<char> = copy_range(token, 0, i);
            let right: Vec<char> = copy_range(token, i + 2, token.len());
            if find_range_separator(&right).is_some() {
                return Err(ParseError::InvalidRangeShape);
            }
            let start: CalendarDate = match resolve_token(&left, false) {
                Ok(date) => date,
                Err(e) => { return Err(e); },
            };
            let end: CalendarDate = match resolve_token(&right, true) {
                Ok(date) => date,
                Err(e) => { return Err(e); },
            };
            Ok((start, end))
        },
    }
}

/// Resolves a range token to its inclusive `(start, end)` pair of dates.
///
/// A token without `..` names one period and yields that period's first and
/// last day. A token `left..right` yields the first day of `left` and the
/// last day of `right`. More than one `..` is refused. The result is not
/// reordered when the start lies after the end.
pub fn parse_date_range(range: &str) -> (r: Result<(CalendarDate, CalendarDate), ParseError>)
    ensures
        r == resolve_range(range@),
        r matches Ok(pair) ==> pair.0.is_valid() && pair.1.is_valid(),
{
    let token: Vec<char> = chars_of(range);
    resolve_range_token(&token)
}

} // verus!
