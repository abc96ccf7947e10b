use ferro_ledger::ledger::Ledger;
use ferro_ledger::model::Account;
use ferro_ledger::parser::parse_str;
use ferro_ledger::quantity::Quantity;
use ferro_ledger::reports::clearing;

fn ledger_from(src: &str) -> Ledger {
    let parsed = parse_str(src, "test.journal").expect("should parse");
    Ledger::from_transactions(parsed.transactions)
}

#[test]
fn tag_matched_group_clears_when_it_nets_to_zero() {
    let ledger = ledger_from(
        "2024-01-05 * Invoice recorded\n\
         \x20\x20\x20\x20Assets:Clearing:Payments   500.00 USD  ; match:INV-1\n\
         \x20\x20\x20\x20Income:Sales              -500.00 USD\n\
         \n\
         2024-01-09 * Bank settlement\n\
         \x20\x20\x20\x20Assets:Bank:Checking        500.00 USD\n\
         \x20\x20\x20\x20Assets:Clearing:Payments  -500.00 USD  ; match:INV-1\n",
    );

    let reports = clearing::analyze(&ledger, &[Account::new("Assets:Clearing:Payments")]);
    assert_eq!(reports.len(), 1);
    let report = &reports[0];
    assert_eq!(report.cleared_count(), 1);
    assert_eq!(report.outstanding_count(), 0);
    assert!(report.groups[0].cleared);
}

#[test]
fn unmatched_posting_is_outstanding() {
    let ledger = ledger_from(
        "2024-01-12 * Invoice recorded, not yet settled\n\
         \x20\x20\x20\x20Assets:Clearing:Payments   320.00 USD  ; match:INV-2\n\
         \x20\x20\x20\x20Income:Sales              -320.00 USD\n",
    );

    let reports = clearing::analyze(&ledger, &[Account::new("Assets:Clearing:Payments")]);
    let report = &reports[0];
    assert_eq!(report.cleared_count(), 0);
    assert_eq!(report.outstanding_count(), 1);
    assert!(report.groups[0].net.equals(&Quantity::new(32000, 2)));
}

#[test]
fn fallback_matching_pairs_postings_of_equal_absolute_amount_with_no_tag() {
    let ledger = ledger_from(
        "2024-02-01 * Leg one\n\
         \x20\x20\x20\x20Assets:Clearing:Suspense   100.00 USD\n\
         \x20\x20\x20\x20Income:Misc               -100.00 USD\n\
         \n\
         2024-02-02 * Leg two\n\
         \x20\x20\x20\x20Assets:Bank:Checking        100.00 USD\n\
         \x20\x20\x20\x20Assets:Clearing:Suspense  -100.00 USD\n",
    );

    let reports = clearing::analyze(&ledger, &[Account::new("Assets:Clearing:Suspense")]);
    let report = &reports[0];
    assert_eq!(report.cleared_count(), 1);
    assert_eq!(report.groups[0].members.len(), 2);
}

#[test]
fn subtree_rollup_includes_descendant_clearing_accounts() {
    let ledger = ledger_from(
        "2024-03-01 * Sub-account leg one\n\
         \x20\x20\x20\x20Assets:Clearing:Payroll:US   400.00 USD  ; match:P1\n\
         \x20\x20\x20\x20Expenses:Payroll            -400.00 USD\n\
         \n\
         2024-03-02 * Sub-account leg two\n\
         \x20\x20\x20\x20Assets:Bank:Checking          400.00 USD\n\
         \x20\x20\x20\x20Assets:Clearing:Payroll:US  -400.00 USD  ; match:P1\n",
    );

    let reports = clearing::analyze(&ledger, &[Account::new("Assets:Clearing:Payroll")]);
    let report = &reports[0];
    assert_eq!(report.cleared_count(), 1);
}

#[test]
fn mixed_commodity_group_is_an_anomaly_never_cleared() {
    let ledger = ledger_from(
        "2024-01-01 * Leg one\n    Assets:Clearing   10.00 USD ; match:X\n    Income:Misc\n\n\
         2024-01-02 * Leg two\n    Assets:Clearing  -10.00 EUR ; match:X\n    Income:Misc\n",
    );
    let reports = clearing::analyze(&ledger, &[Account::new("Assets:Clearing")]);
    let group = &reports[0].groups[0];
    assert!(group.mixed_commodity);
    assert!(!group.cleared);
    assert_eq!(group.commodity, "EUR");
    assert!(clearing::render(&reports).contains("[ANOMALY (mixed commodities)] match:X"));
}

#[test]
fn outstanding_groups_come_before_cleared_ones_then_by_label() {
    let ledger = ledger_from(
        "2024-01-01 * A\n    Assets:Clearing   5.00 USD ; match:B\n    Income:Misc\n\n\
         2024-01-02 * B\n    Assets:Clearing  -5.00 USD ; match:B\n    Income:Misc\n\n\
         2024-01-03 * C\n    Assets:Clearing   7.00 USD ; match:Z\n    Income:Misc\n\n\
         2024-01-04 * D\n    Assets:Clearing   3.00 USD ; match:A\n    Income:Misc\n",
    );
    let reports = clearing::analyze(&ledger, &[Account::new("Assets:Clearing")]);
    let labels: Vec<&str> = reports[0].groups.iter().map(|g| g.label.as_str()).collect();
    assert_eq!(labels, vec!["match:A", "match:Z", "match:B"]);
    assert_eq!(reports[0].cleared_count() + reports[0].outstanding_count(), reports[0].groups.len());
}

#[test]
fn fallback_labels_show_commodity_and_absolute_amount() {
    let ledger = ledger_from(
        "2024-01-01 * One\n    Assets:Suspense   -12.5 USD\n    Income:Misc\n",
    );
    let reports = clearing::analyze(&ledger, &[Account::new("Assets:Suspense")]);
    assert_eq!(reports[0].groups[0].label, "amount 12.50 USD");
}

#[test]
fn empty_tag_value_is_labelled_no_value() {
    let ledger = ledger_from(
        "2024-01-01 * One\n    Assets:Suspense   1.00 USD ; match:\n    Income:Misc\n",
    );
    let reports = clearing::analyze(&ledger, &[Account::new("Assets:Suspense")]);
    assert_eq!(reports[0].groups[0].label, "match:(no value)");
}

#[test]
fn renders_counts_groups_and_members() {
    let ledger = ledger_from(
        "2024-01-12 * Invoice recorded\n    Assets:Clearing:Payments   320.00 USD  ; match:INV-2\n    Income:Sales              -320.00 USD\n",
    );
    let reports = clearing::analyze(&ledger, &[Account::new("Assets:Clearing:Payments")]);
    assert_eq!(
        clearing::render(&reports),
        "Clearing account: Assets:Clearing:Payments\n  0 cleared group(s), 1 outstanding group(s)\n  [OUTSTANDING] match:INV-2  net 320.00 USD (1 posting(s))\n      2024-01-12  Invoice recorded                                  320.00 USD  (test.journal:2)\n\n"
    );
}

#[test]
fn an_account_without_postings_renders_no_postings() {
    let ledger = ledger_from("2024-01-01 * One\n    Assets:Cash   1.00 USD\n    Income:Misc\n");
    let reports = clearing::try_analyze(&ledger, &[Account::new("Assets:Clearing")]).expect("sums fit");
    assert!(reports[0].groups.is_empty());
    assert_eq!(
        clearing::render(&reports),
        "Clearing account: Assets:Clearing\n  0 cleared group(s), 0 outstanding group(s)\n  (no postings)\n\n"
    );
}

#[test]
fn cleared_groups_report_the_value_that_passed_through() {
    let ledger = ledger_from(
        "2024-01-05 * Invoice recorded\n    Assets:Clearing:Payments   500.00 USD  ; match:INV-1\n    Income:Sales              -500.00 USD\n\n\
         2024-01-09 * Bank settlement\n    Assets:Bank:Checking        500.00 USD\n    Assets:Clearing:Payments  -500.00 USD  ; match:INV-1\n\n\
         2024-01-10 * Euro leg one\n    Assets:Clearing:Payments   20.00 EUR  ; match:E-1\n    Income:Sales\n\n\
         2024-01-11 * Euro leg two\n    Assets:Clearing:Payments  -20.00 EUR  ; match:E-1\n    Income:Sales\n\n\
         2024-01-12 * Open\n    Assets:Clearing:Payments   7.00 USD  ; match:OPEN\n    Income:Sales\n",
    );
    let reports = clearing::analyze(&ledger, &[Account::new("Assets:Clearing:Payments")]);
    let report = &reports[0];
    assert_eq!(report.cleared_count(), 2);
    assert_eq!(report.cleared_totals.len(), 2);
    assert_eq!(report.cleared_totals[0].0, "EUR");
    assert!(report.cleared_totals[0].1.equals(&Quantity::new(2000, 2)));
    assert_eq!(report.cleared_totals[1].0, "USD");
    assert!(report.cleared_totals[1].1.equals(&Quantity::new(50000, 2)));
    let text = clearing::render(&reports);
    assert!(text.starts_with(
        "Clearing account: Assets:Clearing:Payments\n  2 cleared group(s), 1 outstanding group(s)\n  cleared total: 20.00 EUR\n  cleared total: 500.00 USD\n  [OUTSTANDING] match:OPEN"
    ));
}
