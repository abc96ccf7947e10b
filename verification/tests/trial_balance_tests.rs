use ferro_ledger::ledger::Ledger;
use ferro_ledger::parser::parse_str;
use ferro_ledger::quantity::Quantity;
use ferro_ledger::reports::trial_balance;

fn ledger_from(src: &str) -> Ledger {
    let parsed = parse_str(src, "test.journal").expect("should parse");
    Ledger::from_transactions(parsed.transactions)
}

fn dec(num: i64, scale: u32) -> Quantity {
    Quantity::new(num, scale)
}

#[test]
fn trial_balance_foots_to_equal_debits_and_credits() {
    let ledger = ledger_from(
        "2024-01-01 * Opening balances\n\
         \x20\x20\x20\x20Assets:Bank:Checking   1000.00 USD\n\
         \x20\x20\x20\x20Equity:OpeningBalance -1000.00 USD\n\
         \n\
         2024-01-05 Office supplies\n\
         \x20\x20\x20\x20Expenses:Office   45.00 USD\n\
         \x20\x20\x20\x20Assets:Bank:Checking\n",
    );

    let report = trial_balance::build(&ledger);
    assert_eq!(report.sections.len(), 1);
    let section = &report.sections[0];
    assert_eq!(section.commodity, "USD");
    assert!(section.is_balanced());
    assert!(section.total_debit.equals(&dec(100000, 2)));
    assert!(section.total_credit.equals(&dec(100000, 2)));

    let checking_row = section
        .rows
        .iter()
        .find(|r| r.account.0 == "Assets:Bank:Checking")
        .expect("checking row present");
    assert!(checking_row.debit.equals(&dec(95500, 2)));
    assert!(checking_row.credit.equals(&Quantity::zero()));
}

#[test]
fn zero_balance_accounts_are_omitted() {
    let ledger = ledger_from(
        "2024-01-01 * A\n    Assets:Wash   10.00 USD\n    Equity:Wash  -10.00 USD\n\n\
         2024-01-02 * B (reverses A)\n    Assets:Wash  -10.00 USD\n    Equity:Wash   10.00 USD\n",
    );
    let report = trial_balance::build(&ledger);
    assert!(report.sections.is_empty() || report.sections.iter().all(|s| s.rows.is_empty()));
}

#[test]
fn separate_commodities_get_separate_sections() {
    let ledger = ledger_from(
        "2024-01-01 * Multi-currency\n\
         \x20\x20\x20\x20Assets:Bank:USD   100.00 USD\n\
         \x20\x20\x20\x20Equity:Opening   -100.00 USD\n\
         \n\
         2024-01-02 * Euro account\n\
         \x20\x20\x20\x20Assets:Bank:EUR    50.00 EUR\n\
         \x20\x20\x20\x20Equity:Opening    -50.00 EUR\n",
    );
    let report = trial_balance::build(&ledger);
    assert_eq!(report.sections.len(), 2);
    assert!(report.is_balanced());
    let commodities: Vec<&str> = report.sections.iter().map(|s| s.commodity.as_str()).collect();
    assert!(commodities.contains(&"USD"));
    assert!(commodities.contains(&"EUR"));
}

#[test]
fn sections_come_in_commodity_order_and_rows_in_account_order() {
    let ledger = ledger_from(
        "2024-01-01 * Multi\n    Equity:Opening   -100.00 USD\n    Assets:Bank:USD   100.00 USD\n\n\
         2024-01-02 * Euro\n    Assets:Bank:EUR    50.00 EUR\n    Equity:Opening    -50.00 EUR\n",
    );
    let report = trial_balance::build(&ledger);
    assert_eq!(report.sections[0].commodity, "EUR");
    assert_eq!(report.sections[1].commodity, "USD");
    let rows: Vec<&str> = report.sections[1].rows.iter().map(|r| r.account.0.as_str()).collect();
    assert_eq!(rows, vec!["Assets:Bank:USD", "Equity:Opening"]);
    assert!(report.sections[1].rows[1].credit.equals(&dec(100, 0)));
    assert!(report.sections[1].rows[1].debit.equals(&Quantity::zero()));
}

#[test]
fn renders_columns_rules_and_totals() {
    let ledger = ledger_from(
        "2024-01-01 * Opening\n    Assets:Cash   100.00 USD\n    Equity:Open  -100.00 USD\n",
    );
    let report = trial_balance::build(&ledger);
    assert_eq!(
        report.render(),
        "Commodity: USD\nAccount               Debit          Credit\n-------------------------------------------\nAssets:Cash          100.00                \nEquity:Open                          100.00\n-------------------------------------------\nTOTAL                100.00          100.00\n\n"
    );
}

#[test]
fn an_empty_ledger_has_an_empty_trial_balance() {
    let ledger = Ledger::from_transactions(Vec::new());
    let report = trial_balance::build(&ledger);
    assert!(report.sections.is_empty());
    assert!(report.is_balanced());
    assert_eq!(report.render(), "(no postings)\n");
}

#[test]
fn blank_cells_for_zero_and_two_decimals_otherwise() {
    assert_eq!(trial_balance::fmt_or_blank(Quantity::zero()), "");
    assert_eq!(trial_balance::fmt_or_blank(dec(5, 0)), "5.00");
    assert_eq!(trial_balance::fmt_or_blank(dec(-1234, 3)), "-1.23");
}

#[test]
fn checked_trial_balance_agrees_on_ordinary_ledgers() {
    let ledger = ledger_from(
        "2024-01-01 * Opening\n    Assets:Cash   100.00 USD\n    Equity:Open  -100.00 USD\n",
    );
    let report = trial_balance::try_build(&ledger).expect("sums fit");
    assert!(report.is_balanced());
    assert!(report.sections[0].total_credit.equals(&dec(100, 0)));
}
