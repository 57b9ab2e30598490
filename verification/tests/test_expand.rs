use wxrust::calendar::CalendarDate;
use wxrust::expand::{days_between, expand_ranges, merge_days, reversed_days};
use wxrust::utils::ParseError;

fn day(year: i32, month: u32, day: u32) -> CalendarDate {
    CalendarDate { year, month, day }
}

fn tokens(list: &[&str]) -> Vec<String> {
    list.iter().map(|s| s.to_string()).collect()
}

#[test]
fn days_between_walks_the_calendar() {
    let days = days_between(day(2024, 2, 27), day(2024, 3, 2));
    assert_eq!(days, vec![day(2024, 2, 27), day(2024, 2, 28), day(2024, 2, 29), day(2024, 3, 1),
        day(2024, 3, 2)]);
    assert_eq!(days_between(day(2025, 5, 27), day(2025, 5, 27)), vec![day(2025, 5, 27)]);
    assert_eq!(days_between(day(2025, 5, 28), day(2025, 5, 27)), vec![]);
    assert_eq!(days_between(day(2025, 1, 1), day(2025, 12, 31)).len(), 365);
    assert_eq!(days_between(day(2024, 1, 1), day(2024, 12, 31)).len(), 366);
    assert_eq!(days_between(day(262142, 12, 30), day(262142, 12, 31)).len(), 2);
}

#[test]
fn merge_keeps_each_day_once() {
    let a = vec![day(2025, 1, 1), day(2025, 1, 3), day(2025, 1, 5)];
    let b = vec![day(2025, 1, 2), day(2025, 1, 3), day(2025, 1, 6)];
    assert_eq!(merge_days(&a, &b), vec![day(2025, 1, 1), day(2025, 1, 2), day(2025, 1, 3),
        day(2025, 1, 5), day(2025, 1, 6)]);
    assert_eq!(merge_days(&a, &vec![]), a);
    assert_eq!(merge_days(&vec![], &b), b);
}

#[test]
fn reversed_days_turns_the_list() {
    let a = vec![day(2025, 1, 1), day(2025, 1, 3), day(2025, 1, 5)];
    assert_eq!(reversed_days(&a), vec![day(2025, 1, 5), day(2025, 1, 3), day(2025, 1, 1)]);
    assert_eq!(reversed_days(&vec![]), vec![]);
}

#[test]
fn expand_sorts_and_removes_duplicates() {
    let days = expand_ranges(&tokens(&["2025-05-30..2025-06-02", "2025-05-29", "20250601..20250603"]),
        false).unwrap();
    assert_eq!(days, vec![day(2025, 5, 29), day(2025, 5, 30), day(2025, 5, 31), day(2025, 6, 1),
        day(2025, 6, 2), day(2025, 6, 3)]);
}

#[test]
fn expand_reversed() {
    let days = expand_ranges(&tokens(&["2025-05-30..2025-06-01", "2025-05-29"]), true).unwrap();
    assert_eq!(days, vec![day(2025, 6, 1), day(2025, 5, 31), day(2025, 5, 30), day(2025, 5, 29)]);
}

#[test]
fn expand_whole_periods() {
    assert_eq!(expand_ranges(&tokens(&["2025-02"]), false).unwrap().len(), 28);
    assert_eq!(expand_ranges(&tokens(&["2024"]), false).unwrap().len(), 366);
    assert_eq!(expand_ranges(&tokens(&["2024", "2024-02", "20240229"]), false).unwrap().len(), 366);
    assert_eq!(expand_ranges(&tokens(&[]), false), Ok(vec![]));
}

#[test]
fn expand_of_a_backward_range_is_empty() {
    assert_eq!(expand_ranges(&tokens(&["2025-06..2025-05"]), false), Ok(vec![]));
}

#[test]
fn expand_reports_the_first_bad_token() {
    assert_eq!(expand_ranges(&tokens(&["2025", "2025-13", "1..2..3"]), false),
        Err(ParseError::InvalidMonth));
    assert_eq!(expand_ranges(&tokens(&["1..2..3", "2025-13"]), true),
        Err(ParseError::InvalidRangeShape));
}
