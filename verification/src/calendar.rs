//! Calendar dates of the proleptic Gregorian calendar.

use crate::text::{decimal_text, digit_char, digit_str, push_decimal};
use vstd::prelude::*;
use vstd::string::StringExecFns;

verus! {

/// Earliest year a date may carry: the first that chrono's `NaiveDate`
/// holds.
pub const MIN_YEAR: i32 = -262143;

/// Latest year a date may carry: the last that chrono's `NaiveDate` holds.
pub const MAX_YEAR: i32 = 262142;

/// Whether `year` has a 29th of February.
pub open spec fn is_leap_year(year: int) -> bool {
    year % 4 == 0 && (year % 100 != 0 || year % 400 == 0)
}

/// Number of days of `month` in `year`; 0 when `month` is not 1..=12.
pub open spec fn days_in_month(year: int, month: int) -> int {
    if month == 2 {
        if is_leap_year(year) {
            29
        } else {
            28
        }
    } else if month == 4 || month == 6 || month == 9 || month == 11 {
        30
    } else if 1 <= month <= 12 {
        31
    } else {
        0
    }
}

/// Whether (year, month, day) names a day of the calendar within the
/// supported years.
pub open spec fn is_valid_ymd(year: int, month: int, day: int) -> bool {
    &&& MIN_YEAR <= year <= MAX_YEAR
    &&& 1 <= month <= 12
    &&& 1 <= day <= days_in_month(year, month)
}

/// Number of days in the months of `year` that come before `month`.
pub open spec fn days_before_month(year: int, month: int) -> int
    decreases month,
{
    if month <= 1 {
        0
    } else {
        days_before_month(year, month - 1) + days_in_month(year, month - 1)
    }
}

/// Number of days before `month` in a year that is no leap year.
pub open spec fn days_before_month_common(month: int) -> int {
    if month <= 1 {
        0
    } else if month == 2 {
        31
    } else if month == 3 {
        59
    } else if month == 4 {
        90
    } else if month == 5 {
        120
    } else if month == 6 {
        151
    } else if month == 7 {
        181
    } else if month == 8 {
        212
    } else if month == 9 {
        243
    } else if month == 10 {
        273
    } else if month == 11 {
        304
    } else {
        334
    }
}

/// Number of days from the 1st of January of year 1 to the last day before
/// `year`; negative for earlier years.
pub open spec fn days_before_year(year: int) -> int {
    365 * (year - 1) + (year - 1) / 4 - (year - 1) / 100 + (year - 1) / 400
}

/// A number below 100 as two digits.
pub open spec fn two_digits(n: nat) -> Seq<char> {
    seq![digit_char((n / 10) % 10), digit_char(n % 10)]
}

/// A number as four digits or more, zeros before a short one.
pub open spec fn four_digits(n: nat) -> Seq<char> {
    if n < 10 {
        seq!['0', '0', '0'] + decimal_text(n)
    } else if n < 100 {
        seq!['0', '0'] + decimal_text(n)
    } else if n < 1000 {
        seq!['0'] + decimal_text(n)
    } else {
        decimal_text(n)
    }
}

/// A year as ISO 8601 writes it: four digits from 0 to 9999, else a sign
/// and four digits or more.
pub open spec fn year_text(year: int) -> Seq<char> {
    if 0 <= year <= 9999 {
        four_digits(year as nat)
    } else if year < 0 {
        seq!['-'] + four_digits((-year) as nat)
    } else {
        seq!['+'] + four_digits(year as nat)
    }
}

/// An exact (year, month, day) triple.
#[derive(Clone, Copy, Debug, PartialEq, Eq, Structural)]
pub struct CalendarDate {
    pub year: i32,
    pub month: u32,
    pub day: u32,
}

/// Asks chrono whether a day exists, through `NaiveDate::from_ymd_opt`.
///
/// Trusted: chrono answers `Some` exactly for the days of the proleptic
/// Gregorian calendar whose year lies between `MIN_YEAR` and `MAX_YEAR`.
#[verifier::external_body]
fn chrono_has_date(year: i32, month: u32, day: u32) -> (found: bool)
    ensures
        found == is_valid_ymd(year as int, month as int, day as int),
{
    chrono::NaiveDate::from_ymd_opt(year, month, day).is_some()
}

impl CalendarDate {
    /// Whether the triple names a real day.
    pub open spec fn is_valid(self) -> bool {
        is_valid_ymd(self.year as int, self.month as int, self.day as int)
    }

    /// Strict calendar order: `self` is an earlier day than `other`.
    pub open spec fn precedes(self, other: CalendarDate) -> bool {
        self.year < other.year || (self.year == other.year && (self.month < other.month || (
        self.month == other.month && self.day < other.day)))
    }

    /// Whether `self` is the last day that a date can name.
    pub open spec fn is_last(self) -> bool {
        self.year == MAX_YEAR && self.month == 12 && self.day == 31
    }

    /// The day after `self`.
    pub open spec fn successor(self) -> CalendarDate {
        if self.day < days_in_month(self.year as int, self.month as int) {
            CalendarDate { year: self.year, month: self.month, day: (self.day + 1) as u32 }
        } else if self.month < 12 {
            CalendarDate { year: self.year, month: (self.month + 1) as u32, day: 1 }
        } else {
            CalendarDate { year: (self.year + 1) as i32, month: 1, day: 1 }
        }
    }

    /// The number of the day, counting the 1st of January of year 1 as
    /// day 1.
    pub open spec fn day_number(self) -> int {
        days_before_year(self.year as int) + days_before_month(self.year as int, self.month as int)
            + self.day
    }

    /// The date as `YYYY-MM-DD`.
    pub open spec fn iso_text(self) -> Seq<char> {
        year_text(self.year as int) + seq!['-'] + two_digits(self.month as nat) + seq!['-']
            + two_digits(self.day as nat)
    }

    /// A number that grows with the calendar order of valid dates.
    pub open spec fn rank(self) -> int {
        (self.year * 12 + (self.month - 1)) * 31 + (self.day - 1)
    }

    /// The date for (year, month, day), when that day exists.
    pub fn from_ymd(year: i32, month: u32, day: u32) -> (date: Option<CalendarDate>)
        ensures
            date == (if is_valid_ymd(year as int, month as int, day as int) {
                Some(CalendarDate { year, month, day })
            } else {
                None
            }),
    {
        if chrono_has_date(year, month, day) {
            Some(CalendarDate { year, month, day })
        } else {
            None
        }
    }

    /// Whether `self` is an earlier day than `other`.
    pub fn is_before(&self, other: &CalendarDate) -> (before: bool)
        ensures
            before == self.precedes(*other),
    {
        self.year < other.year || (self.year == other.year && (self.month < other.month || (
        self.month == other.month && self.day < other.day)))
    }

    /// The number of the day, counting the 1st of January of year 1 as
    /// day 1.
    pub fn number(&self) -> (n: i64)
        requires
            self.is_valid(),
        ensures
            n == self.day_number(),
    {
        let shifted: u64 = (self.year as i64 + 262_400) as u64;
        let leap: bool = shifted % 4 == 0 && (shifted % 100 != 0 || shifted % 400 == 0);
        assert(leap == is_leap_year(self.year as int));
        let before: u64 = shifted - 1;
        let fours: i64 = (before / 4) as i64 - 65_600;
        let hundreds: i64 = (before / 100) as i64 - 2_624;
        let four_hundreds: i64 = (before / 400) as i64 - 656;
        assert(fours == (self.year - 1) / 4);
        assert(hundreds == (self.year - 1) / 100);
        assert(four_hundreds == (self.year - 1) / 400);
        let common: i64 = if self.month == 1 {
            0
        } else if self.month == 2 {
            31
        } else if self.month == 3 {
            59
        } else if self.month == 4 {
            90
        } else if self.month == 5 {
            120
        } else if self.month == 6 {
            151
        } else if self.month == 7 {
            181
        } else if self.month == 8 {
            212
        } else if self.month == 9 {
            243
        } else if self.month == 10 {
            273
        } else if self.month == 11 {
            304
        } else {
            334
        };
        let in_year: i64 = if self.month > 2 && leap {
            common + 1
        } else {
            common
        };
        proof {
            lemma_days_before_month(self.year as int, self.month as int);
        }
        365 * (self.year as i64 - 1) + fours - hundreds + four_hundreds + in_year + self.day as i64
    }

    /// The date as `YYYY-MM-DD`; a year outside 0 to 9999 is written with
    /// its sign.
    pub fn to_iso_string(&self) -> (text: String)
        requires
            self.is_valid(),
        ensures
            text@ == self.iso_text(),
    {
        let mut text: String = String::new();
        let wide: i64 = self.year as i64;
        let size: u64 = if wide < 0 { (-wide) as u64 } else { wide as u64 };
        proof {
            reveal_strlit("-");
            reveal_strlit("+");
            reveal_strlit("0");
        }
        if wide < 0 {
            text.append("-");
        } else if wide > 9999 {
            text.append("+");
        }
        if size < 1000 {
            text.append("0");
        }
        if size < 100 {
            text.append("0");
        }
        if size < 10 {
            text.append("0");
        }
        push_decimal(&mut text, size);
        assert(text@ =~= year_text(self.year as int));
        text.append("-");
        text.append(digit_str(((self.month / 10) % 10) as u64));
        text.append(digit_str((self.month % 10) as u64));
        text.append("-");
        text.append(digit_str(((self.day / 10) % 10) as u64));
        text.append(digit_str((self.day % 10) as u64));
        assert(text@ =~= self.iso_text());
        text
    }

    /// The day after `self`; none after the last day that a date can name.
    pub fn next_day(&self) -> (next: Option<CalendarDate>)
        requires
            self.is_valid(),
        ensures
            next == (if self.is_last() {
                None
            } else {
                Some(self.successor())
            }),
    {
        if chrono_has_date(self.year, self.month, self.day + 1) {
            Some(CalendarDate { year: self.year, month: self.month, day: self.day + 1 })
        } else if self.month < 12 {
            Some(CalendarDate { year: self.year, month: self.month + 1, day: 1 })
        } else if self.year < MAX_YEAR {
            Some(CalendarDate { year: self.year + 1, month: 1, day: 1 })
        } else {
            None
        }
    }
}

/// The day after a valid date that is not the last is a valid date, later
/// than it, and no valid date lies between the two.
pub proof fn lemma_successor_is_next(date: CalendarDate)
    requires
        date.is_valid(),
        !date.is_last(),
    ensures
        date.successor().is_valid(),
        date.precedes(date.successor()),
        date.successor().rank() > date.rank(),
        forall|other: CalendarDate|
            other.is_valid() && date.precedes(other) ==> !(#[trigger] other.precedes(
                date.successor(),
            )),
{
}

/// Days before each month: those of a common year, and one more from March
/// on in a leap year.
pub proof fn lemma_days_before_month(year: int, month: int)
    requires
        1 <= month <= 12,
    ensures
        days_before_month(year, month) == days_before_month_common(month) + (if month > 2
            && is_leap_year(year) {
            1int
        } else {
            0int
        }),
{
    reveal_with_fuel(days_before_month, 13);
}

/// The day numbers of valid dates fit in 32 bits with room to spare.
pub proof fn lemma_day_number_bounds(date: CalendarDate)
    requires
        date.is_valid(),
    ensures
        -100_000_000 < date.day_number() < 100_000_000,
{
    lemma_days_before_month(date.year as int, date.month as int);
}

/// The day after day `n` is day `n + 1`.
pub proof fn lemma_day_number_counts_days(date: CalendarDate)
    requires
        date.is_valid(),
        !date.is_last(),
    ensures
        date.successor().day_number() == date.day_number() + 1,
{
    reveal_with_fuel(days_before_month, 13);
}

/// Among valid dates the earlier one has the smaller rank.
pub proof fn lemma_rank_follows_order(a: CalendarDate, b: CalendarDate)
    requires
        a.is_valid(),
        b.is_valid(),
    ensures
        a.precedes(b) <==> a.rank() < b.rank(),
        a == b <==> a.rank() == b.rank(),
{
}

/// Last day of `month` in `year`.
pub fn last_day_of_month(year: i32, month: u32) -> (day: u32)
    requires
        MIN_YEAR <= year <= MAX_YEAR,
        1 <= month <= 12,
    ensures
        day as int == days_in_month(year as int, month as int),
{
    if chrono_has_date(year, month, 31) {
        31
    } else if chrono_has_date(year, month, 30) {
        30
    } else if chrono_has_date(year, month, 29) {
        29
    } else {
        28
    }
}

} // verus!
