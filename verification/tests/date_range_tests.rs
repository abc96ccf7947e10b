use ferro_ledger::date::{parse_date_fmt, Date};
use ferro_ledger::date_range::DateRange;
use ferro_ledger::ledger::Ledger;
use ferro_ledger::model::Transaction;
use ferro_ledger::parser::parse_str;
use ferro_ledger::quantity::Quantity;
use ferro_ledger::reports::trial_balance;

fn date(s: &str) -> Date {
    parse_date_fmt(s, "%Y-%m-%d").unwrap()
}

/// The three-transaction journal the date-range scenarios run on: opening balances in
/// January, consulting revenue in late February, rent in March.
fn fixture_transactions() -> Vec<Transaction> {
    let src = "2024-01-01 * Opening balances\n\
               \x20\x20\x20\x20Assets:Bank:Checking   1000.00 USD\n\
               \x20\x20\x20\x20Equity:OpeningBalance -1000.00 USD\n\
               \n\
               2024-02-20 * February consulting revenue\n\
               \x20\x20\x20\x20Assets:Bank:Checking    500.00 USD\n\
               \x20\x20\x20\x20Income:Consulting      -500.00 USD\n\
               \n\
               2024-03-10 * March rent\n\
               \x20\x20\x20\x20Expenses:Rent           200.00 USD\n\
               \x20\x20\x20\x20Assets:Bank:Checking   -200.00 USD\n";
    parse_str(src, "date_range.journal").expect("should parse").transactions
}

#[test]
fn unbounded_range_contains_everything() {
    let range = DateRange::default();
    assert!(range.is_unbounded());
    assert!(range.contains(date("2024-01-01")));
    assert!(range.contains(date("1900-01-01")));
}

#[test]
fn since_is_inclusive_and_until_is_exclusive() {
    let range = DateRange::new(Some(date("2024-02-01")), Some(date("2024-03-01")));
    assert!(!range.contains(date("2024-01-31")));
    assert!(range.contains(date("2024-02-01")));
    assert!(range.contains(date("2024-02-29")));
    assert!(!range.contains(date("2024-03-01")));
}

#[test]
fn one_sided_ranges_only_constrain_their_side() {
    let since_only = DateRange::new(Some(date("2024-02-01")), None);
    assert!(!since_only.contains(date("2024-01-01")));
    assert!(since_only.contains(date("2099-01-01")));

    let until_only = DateRange::new(None, Some(date("2024-02-01")));
    assert!(until_only.contains(date("1900-01-01")));
    assert!(!until_only.contains(date("2024-02-01")));
}

#[test]
fn unbounded_range_includes_every_transaction() {
    let transactions = fixture_transactions();
    let range = DateRange::default();
    assert_eq!(range.filter(transactions).len(), 3);
}

#[test]
fn since_excludes_earlier_transactions() {
    let transactions = fixture_transactions();
    let range = DateRange::new(Some(date("2024-02-15")), None);
    let filtered = range.filter(transactions);
    assert_eq!(filtered.len(), 2);
    assert_eq!(filtered[0].description, "February consulting revenue");
}

#[test]
fn until_is_exclusive_of_the_boundary_date() {
    let transactions = fixture_transactions();
    let range = DateRange::new(None, Some(date("2024-02-15")));
    let filtered = range.filter(transactions);
    assert_eq!(filtered.len(), 1);
    assert_eq!(filtered[0].description, "Opening balances");
}

#[test]
fn a_narrow_window_changes_the_trial_balance_totals() {
    let transactions = fixture_transactions();
    let range = DateRange::new(Some(date("2024-02-01")), Some(date("2024-03-01")));
    let filtered = range.filter(transactions);
    assert_eq!(filtered.len(), 1);

    let ledger = Ledger::from_transactions(filtered);
    let report = trial_balance::build(&ledger);
    assert!(report.is_balanced());
    let section = &report.sections[0];
    assert!(section.total_debit.equals(&Quantity::new(50000, 2)));
}

#[test]
fn filtering_keeps_source_order_of_the_kept_transactions() {
    let transactions = fixture_transactions();
    let range = DateRange::new(Some(date("2024-01-01")), Some(date("2024-03-11")));
    let filtered = range.filter(transactions);
    assert_eq!(filtered.len(), 3);
    assert_eq!(filtered[0].description, "Opening balances");
    assert_eq!(filtered[1].description, "February consulting revenue");
    assert_eq!(filtered[2].description, "March rent");
}

#[test]
fn an_empty_window_keeps_nothing() {
    let transactions = fixture_transactions();
    let range = DateRange::new(Some(date("2024-03-01")), Some(date("2024-03-01")));
    assert!(!range.is_unbounded());
    assert!(range.filter(transactions).is_empty());
}

#[test]
fn default_range_equals_new_with_no_bounds() {
    assert_eq!(DateRange::default(), DateRange::new(None, None));
    assert!(!DateRange::new(None, Some(date("2024-01-01"))).is_unbounded());
}
