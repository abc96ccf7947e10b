use ferro_ledger::cli::{parse_date_flag, render_period_header, resolve_date_range, DateRangeArgs};
use ferro_ledger::date::{parse_date_fmt, Date};
use ferro_ledger::date_range::DateRange;

fn date(s: &str) -> Date {
    parse_date_fmt(s, "%Y-%m-%d").unwrap()
}

#[test]
fn absent_flags_give_an_unbounded_range() {
    let args = DateRangeArgs { since: None, until: None };
    let range = resolve_date_range(&args).unwrap();
    assert!(range.is_unbounded());
    assert_eq!(render_period_header(&range), "");
}

#[test]
fn date_flags_accept_the_three_separators() {
    assert_eq!(parse_date_flag("--since", &Some("2024-02-15".to_owned())).unwrap(), Some(date("2024-02-15")));
    assert_eq!(parse_date_flag("--since", &Some("2024/02/15".to_owned())).unwrap(), Some(date("2024-02-15")));
    assert_eq!(parse_date_flag("--until", &Some("2024.02.15".to_owned())).unwrap(), Some(date("2024-02-15")));
    assert_eq!(parse_date_flag("--until", &None).unwrap(), None);
}

#[test]
fn invalid_date_names_the_flag_and_the_formats() {
    let args = DateRangeArgs { since: Some("not-a-date".to_owned()), until: Some("also-bad".to_owned()) };
    let err = resolve_date_range(&args).unwrap_err();
    assert_eq!(
        err,
        "invalid --since date 'not-a-date': expected YYYY-MM-DD, YYYY/MM/DD, or YYYY.MM.DD"
    );
    let args = DateRangeArgs { since: None, until: Some("2024-02-30".to_owned()) };
    assert!(resolve_date_range(&args).unwrap_err().starts_with("invalid --until date '2024-02-30'"));
}

#[test]
fn period_headers_describe_each_kind_of_bound() {
    let both = DateRange::new(Some(date("2024-02-01")), Some(date("2024-03-01")));
    assert_eq!(render_period_header(&both), "Period: 2024-02-01 to 2024-03-01 (exclusive)\n");
    let since = DateRange::new(Some(date("2024-02-15")), None);
    assert_eq!(render_period_header(&since), "Period: 2024-02-15 onward\n");
    let until = DateRange::new(None, Some(date("2024-02-15")));
    assert_eq!(render_period_header(&until), "Period: up to 2024-02-15 (exclusive)\n");
}

#[test]
fn both_flags_resolve_into_one_range() {
    let args = DateRangeArgs { since: Some("2024-02-01".to_owned()), until: Some("2024-03-01".to_owned()) };
    let range = resolve_date_range(&args).unwrap();
    assert_eq!(range, DateRange::new(Some(date("2024-02-01")), Some(date("2024-03-01"))));
}
