use ferro_ledger::date::{parse_date_fmt, Date};
use ferro_ledger::period::parse_period;

fn date(s: &str) -> Date {
    parse_date_fmt(s, "%Y-%m-%d").unwrap()
}

#[test]
fn bare_year_spans_the_whole_calendar_year() {
    let range = parse_period("2024").unwrap();
    assert_eq!(range.since, Some(date("2024-01-01")));
    assert_eq!(range.until, Some(date("2025-01-01")));
}

#[test]
fn year_month_spans_the_whole_calendar_month() {
    let range = parse_period("2024-12").unwrap();
    assert_eq!(range.since, Some(date("2024-12-01")));
    assert_eq!(range.until, Some(date("2025-01-01")));
}

#[test]
fn full_date_spans_a_single_day() {
    let range = parse_period("2024-03-20").unwrap();
    assert_eq!(range.since, Some(date("2024-03-20")));
    assert_eq!(range.until, Some(date("2024-03-21")));
}

#[test]
fn range_spans_start_of_left_term_to_end_of_right_term() {
    let range = parse_period("2024-01 to 2024-03").unwrap();
    assert_eq!(range.since, Some(date("2024-01-01")));
    assert_eq!(range.until, Some(date("2024-04-01")));
}

#[test]
fn from_keyword_is_optional_and_case_insensitive() {
    let with_from = parse_period("From 2024-01-15 TO 2024-02-20").unwrap();
    let without_from = parse_period("2024-01-15 to 2024-02-20").unwrap();
    assert_eq!(with_from.since, without_from.since);
    assert_eq!(with_from.until, without_from.until);
    assert_eq!(with_from.since, Some(date("2024-01-15")));
    assert_eq!(with_from.until, Some(date("2024-02-21")));
}

#[test]
fn mixed_granularity_range_is_allowed() {
    let range = parse_period("2024-01 to 2024").unwrap();
    assert_eq!(range.since, Some(date("2024-01-01")));
    assert_eq!(range.until, Some(date("2025-01-01")));
}

#[test]
fn rejects_garbage_terms() {
    assert!(parse_period("not a period").is_err());
    assert!(parse_period("").is_err());
    assert!(parse_period("2024 to").is_err());
    assert!(parse_period("2024-13").is_err());
}

#[test]
fn leap_day_and_month_ends_roll_over() {
    let feb = parse_period("2024-02-29").unwrap();
    assert_eq!(feb.until, Some(date("2024-03-01")));
    let dec = parse_period("2023-12-31").unwrap();
    assert_eq!(dec.until, Some(date("2024-01-01")));
    assert!(parse_period("2023-02-29").is_err());
}

#[test]
fn slash_and_dot_separated_days_are_accepted() {
    let slash = parse_period("2024/03/20").unwrap();
    assert_eq!(slash.since, Some(date("2024-03-20")));
    let dot = parse_period("2024.03.20").unwrap();
    assert_eq!(dot.until, Some(date("2024-03-21")));
}

#[test]
fn error_messages_name_the_problem() {
    assert_eq!(parse_period("").unwrap_err(), "empty period expression");
    assert_eq!(parse_period("2024-00").unwrap_err(), "invalid month 0 in year 2024");
    assert_eq!(
        parse_period("2024 to").unwrap_err(),
        "invalid period range '2024 to': expected '<TERM> to <TERM>'"
    );
    assert_eq!(
        parse_period("24-01").unwrap_err(),
        "invalid period term '24-01': expected YYYY, YYYY-MM, or YYYY-MM-DD"
    );
}

#[test]
fn surrounding_whitespace_and_extra_spaces_are_ignored() {
    let range = parse_period("  from   2024-01   to   2024-02  ").unwrap();
    assert_eq!(range.since, Some(date("2024-01-01")));
    assert_eq!(range.until, Some(date("2024-03-01")));
}
