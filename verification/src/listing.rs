//! Which stretch of the log a listing asks the service for.

use crate::calendar::{lemma_day_number_bounds, CalendarDate};
use vstd::prelude::*;

verus! {

/// How many days a listing shows when no count is given.
pub const DEFAULT_COUNT: u32 = 32;

/// How many days a listing of everything asks for.
pub const ALL_COUNT: u32 = 10000;

/// A stretch of the log: the days from `oldest` to `latest`, either of
/// which may be left open, and at most `count` of them.
#[derive(Clone, Debug)]
pub struct ListWindow {
    pub latest: Option<String>,
    pub oldest: Option<String>,
    pub count: u32,
}

/// What a `ListWindow` holds.
pub struct ListWindowView {
    pub latest: Option<Seq<char>>,
    pub oldest: Option<Seq<char>>,
    pub count: u32,
}

/// What an optional string holds.
pub open spec fn text_of(s: Option<String>) -> Option<Seq<char>> {
    match s {
        Some(text) => Some(text@),
        None => None,
    }
}

impl View for ListWindow {
    type V = ListWindowView;

    open spec fn view(&self) -> ListWindowView {
        ListWindowView {
            latest: text_of(self.latest),
            oldest: text_of(self.oldest),
            count: self.count,
        }
    }
}

/// The number of days from one date to the other, both included,
/// whichever of the two comes first.
pub open spec fn span_days(start: CalendarDate, end: CalendarDate) -> int {
    if start.day_number() <= end.day_number() {
        end.day_number() - start.day_number() + 1
    } else {
        start.day_number() - end.day_number() + 1
    }
}

/// The window for a listing without dates: everything when `all` is set,
/// else the `count` days up to `before`, 32 where no count is given.
pub open spec fn window_for(all: bool, before: Option<Seq<char>>, count: Option<u32>)
    -> ListWindowView {
    if all {
        ListWindowView { latest: None, oldest: None, count: ALL_COUNT }
    } else {
        ListWindowView {
            latest: before,
            oldest: None,
            count: match count {
                Some(n) => n,
                None => DEFAULT_COUNT,
            },
        }
    }
}

/// The window for a listing without dates.
///
/// With `all` set it asks for the 10000 most recent days. Otherwise it asks
/// for `count` days, 32 if none is given, ending at `before` if that is
/// given.
pub fn list_window(all: bool, before: Option<String>, count: Option<u32>) -> (window: ListWindow)
    ensures
        window@ == window_for(all, text_of(before), count),
{
    if all {
        ListWindow { latest: None, oldest: None, count: ALL_COUNT }
    } else {
        let count: u32 = match count {
            Some(n) => n,
            None => DEFAULT_COUNT,
        };
        ListWindow { latest: before, oldest: None, count }
    }
}

/// The number of days from one date to the other, both included.
pub fn range_day_count(start: &CalendarDate, end: &CalendarDate) -> (count: u32)
    requires
        start.is_valid(),
        end.is_valid(),
    ensures
        count == span_days(*start, *end),
{
    proof {
        lemma_day_number_bounds(*start);
        lemma_day_number_bounds(*end);
    }
    let first: i64 = start.number();
    let last: i64 = end.number();
    if first <= last {
        (last - first + 1) as u32
    } else {
        (first - last + 1) as u32
    }
}

/// The window for the days of one range: both ends as `YYYY-MM-DD`, and as
/// many days as lie from one to the other.
pub fn range_window(start: &CalendarDate, end: &CalendarDate) -> (window: ListWindow)
    requires
        start.is_valid(),
        end.is_valid(),
    ensures
        window@ == (ListWindowView {
            latest: Some(end.iso_text()),
            oldest: Some(start.iso_text()),
            count: span_days(*start, *end) as u32,
        }),
{
    ListWindow {
        latest: Some(end.to_iso_string()),
        oldest: Some(start.to_iso_string()),
        count: range_day_count(start, end),
    }
}

} // verus!
