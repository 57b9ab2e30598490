use wxrust::calendar::{last_day_of_month, CalendarDate};
use wxrust::utils::{parse_date_boundary, parse_date_range, ParseError};

fn ymd(year: i32, month: u32, day: u32) -> CalendarDate {
    CalendarDate { year, month, day }
}

#[test]
fn eight_digit_token_is_the_same_date_at_both_ends() {
    for token in ["20240229", "19991231", "00000101", "99991231", "20250630"] {
        let start = parse_date_boundary(token, false).unwrap();
        let end = parse_date_boundary(token, true).unwrap();
        assert_eq!(start, end);
        let year: i32 = token[0..4].parse().unwrap();
        let month: u32 = token[4..6].parse().unwrap();
        let day: u32 = token[6..8].parse().unwrap();
        assert_eq!(start, ymd(year, month, day));
    }
}

#[test]
fn six_digit_token_spans_the_month() {
    assert_eq!(parse_date_boundary("202402", false), Ok(ymd(2024, 2, 1)));
    assert_eq!(parse_date_boundary("202402", true), Ok(ymd(2024, 2, 29)));
    assert_eq!(parse_date_boundary("202502", true), Ok(ymd(2025, 2, 28)));
    assert_eq!(parse_date_boundary("190002", true), Ok(ymd(1900, 2, 28)));
    assert_eq!(parse_date_boundary("200002", true), Ok(ymd(2000, 2, 29)));
    assert_eq!(parse_date_boundary("202512", true), Ok(ymd(2025, 12, 31)));
    assert_eq!(parse_date_boundary("202504", true), Ok(ymd(2025, 4, 30)));
    assert_eq!(parse_date_boundary("202504", false), Ok(ymd(2025, 4, 1)));
}

#[test]
fn four_digit_token_spans_the_year() {
    assert_eq!(parse_date_boundary("2025", false), Ok(ymd(2025, 1, 1)));
    assert_eq!(parse_date_boundary("2025", true), Ok(ymd(2025, 12, 31)));
    assert_eq!(parse_date_boundary("0000", false), Ok(ymd(0, 1, 1)));
    assert_eq!(parse_date_boundary("9999", true), Ok(ymd(9999, 12, 31)));
}

#[test]
fn separators_do_not_change_the_date() {
    let expected = Ok(ymd(2025, 5, 27));
    for token in ["2025/05/27", "2025.05.27", "2025-05-27", "20250527", "2025-05/27", "2025.5.27"] {
        assert_eq!(parse_date_boundary(token, false), expected);
        assert_eq!(parse_date_boundary(token, true), expected);
    }
}

#[test]
fn empty_segments_are_dropped() {
    assert_eq!(parse_date_boundary("2025--05", false), Ok(ymd(2025, 5, 1)));
    assert_eq!(parse_date_boundary("-2025-05-", true), Ok(ymd(2025, 5, 31)));
    assert_eq!(parse_date_boundary("/2025/", true), Ok(ymd(2025, 12, 31)));
}

#[test]
fn malformed_tokens() {
    for token in ["", "-", "./-", "202", "20231", "2024112", "202511220", "2025-05-27-01",
        "2-0-2-5-1-1-2-2", "abcd", "20x5", "2025-ab", "2025-05-1x", "+123", "2025-+5", "２０２５"]
    {
        assert_eq!(parse_date_boundary(token, false), Err(ParseError::MalformedToken), "{}", token);
        assert_eq!(parse_date_boundary(token, true), Err(ParseError::MalformedToken), "{}", token);
    }
}

#[test]
fn year_must_have_four_digits() {
    for token in ["202-05", "20255-05-01", "31/11/2024", "1-1-1", "99999999999999999999-01"] {
        assert_eq!(parse_date_boundary(token, false), Err(ParseError::InvalidYearLength), "{}", token);
    }
}

#[test]
fn month_must_be_one_to_twelve() {
    for token in ["2025-13", "2025-00", "2025-0", "202500", "202513", "2025/31/11", "20251301",
        "2025-99999999999999999999"]
    {
        assert_eq!(parse_date_boundary(token, false), Err(ParseError::InvalidMonth), "{}", token);
        assert_eq!(parse_date_boundary(token, true), Err(ParseError::InvalidMonth), "{}", token);
    }
}

#[test]
fn day_must_exist() {
    for token in ["2025-05-32", "2025-02-29", "2025-02-30", "1900-02-29", "2025-04-31",
        "20250431", "2025-05-00", "20250500", "2025-05-99999999999999999999"]
    {
        assert_eq!(parse_date_boundary(token, false), Err(ParseError::InvalidDay), "{}", token);
        assert_eq!(parse_date_boundary(token, true), Err(ParseError::InvalidDay), "{}", token);
    }
    assert_eq!(parse_date_boundary("2024-02-29", true), Ok(ymd(2024, 2, 29)));
}

#[test]
fn the_first_fault_decides_the_error() {
    assert_eq!(parse_date_boundary("abcd-13-99", false), Err(ParseError::MalformedToken));
    assert_eq!(parse_date_boundary("202-13-99", false), Err(ParseError::InvalidYearLength));
    assert_eq!(parse_date_boundary("2025-13-99", false), Err(ParseError::InvalidMonth));
    assert_eq!(parse_date_boundary("2025-xx-99", false), Err(ParseError::MalformedToken));
    assert_eq!(parse_date_boundary("2025-12-99", false), Err(ParseError::InvalidDay));
}

#[test]
fn leading_zeros_in_month_and_day() {
    assert_eq!(parse_date_boundary("2025-005-007", false), Ok(ymd(2025, 5, 7)));
    assert_eq!(parse_date_boundary("2025-5-7", true), Ok(ymd(2025, 5, 7)));
}

#[test]
fn last_day_of_each_month() {
    let common = [31, 28, 31, 30, 31, 30, 31, 31, 30, 31, 30, 31];
    for month in 1..=12u32 {
        assert_eq!(last_day_of_month(2025, month), common[(month - 1) as usize]);
    }
    assert_eq!(last_day_of_month(2024, 2), 29);
    assert_eq!(last_day_of_month(2100, 2), 28);
    assert_eq!(last_day_of_month(2400, 2), 29);
    assert_eq!(last_day_of_month(-4, 2), 29);
}

#[test]
fn from_ymd_accepts_real_days_only() {
    assert_eq!(CalendarDate::from_ymd(2025, 5, 27), Some(ymd(2025, 5, 27)));
    assert_eq!(CalendarDate::from_ymd(2025, 2, 29), None);
    assert_eq!(CalendarDate::from_ymd(2025, 0, 1), None);
    assert_eq!(CalendarDate::from_ymd(2025, 13, 1), None);
    assert_eq!(CalendarDate::from_ymd(2025, 1, 0), None);
    assert_eq!(CalendarDate::from_ymd(262142, 12, 31), Some(ymd(262142, 12, 31)));
    assert_eq!(CalendarDate::from_ymd(262143, 1, 1), None);
    assert_eq!(CalendarDate::from_ymd(-262143, 1, 1), Some(ymd(-262143, 1, 1)));
    assert_eq!(CalendarDate::from_ymd(-262144, 12, 31), None);
}

#[test]
fn next_day_steps_over_month_and_year_ends() {
    assert_eq!(ymd(2025, 5, 27).next_day(), Some(ymd(2025, 5, 28)));
    assert_eq!(ymd(2025, 5, 31).next_day(), Some(ymd(2025, 6, 1)));
    assert_eq!(ymd(2024, 2, 28).next_day(), Some(ymd(2024, 2, 29)));
    assert_eq!(ymd(2025, 2, 28).next_day(), Some(ymd(2025, 3, 1)));
    assert_eq!(ymd(2025, 12, 31).next_day(), Some(ymd(2026, 1, 1)));
    assert_eq!(ymd(262142, 12, 31).next_day(), None);
}

#[test]
fn is_before_orders_dates() {
    assert!(ymd(2025, 5, 27).is_before(&ymd(2025, 5, 28)));
    assert!(ymd(2025, 5, 27).is_before(&ymd(2025, 6, 1)));
    assert!(ymd(2024, 12, 31).is_before(&ymd(2025, 1, 1)));
    assert!(!ymd(2025, 5, 27).is_before(&ymd(2025, 5, 27)));
    assert!(!ymd(2025, 5, 28).is_before(&ymd(2025, 5, 27)));
}

#[test]
fn range_of_one_token() {
    assert_eq!(parse_date_range("2025-05-01..2025-05-31"), Ok((ymd(2025, 5, 1), ymd(2025, 5, 31))));
    assert_eq!(parse_date_range("2025-05"), Ok((ymd(2025, 5, 1), ymd(2025, 5, 31))));
    assert_eq!(parse_date_range("2025"), Ok((ymd(2025, 1, 1), ymd(2025, 12, 31))));
    assert_eq!(parse_date_range("2024..2025-02"), Ok((ymd(2024, 1, 1), ymd(2025, 2, 28))));
}

#[test]
fn range_is_not_reordered() {
    assert_eq!(parse_date_range("2025-06..2025-05"), Ok((ymd(2025, 6, 1), ymd(2025, 5, 31))));
}

#[test]
fn range_with_dotted_dates() {
    assert_eq!(parse_date_range("2025.05.01..2025.05.31"), Ok((ymd(2025, 5, 1), ymd(2025, 5, 31))));
    assert_eq!(parse_date_range("2025...2026"), Ok((ymd(2025, 1, 1), ymd(2026, 12, 31))));
}

#[test]
fn range_errors() {
    assert_eq!(parse_date_range("2025..2026..2027"), Err(ParseError::InvalidRangeShape));
    assert_eq!(parse_date_range("2025....2026"), Err(ParseError::InvalidRangeShape));
    assert_eq!(parse_date_range("..2025.."), Err(ParseError::InvalidRangeShape));
    assert_eq!(parse_date_range(""), Err(ParseError::MalformedToken));
    assert_eq!(parse_date_range("2025.."), Err(ParseError::MalformedToken));
    assert_eq!(parse_date_range("..2025"), Err(ParseError::MalformedToken));
    assert_eq!(parse_date_range("2025-13..2025-14-01"), Err(ParseError::InvalidMonth));
    assert_eq!(parse_date_range("2025-12..2025-02-30"), Err(ParseError::InvalidDay));
    assert_eq!(parse_date_range("202..2025"), Err(ParseError::MalformedToken));
    assert_eq!(parse_date_range("202-1..2025"), Err(ParseError::InvalidYearLength));
}
