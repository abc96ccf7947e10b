use ferro_ledger::ledger::Ledger;
use ferro_ledger::parser::parse_str;
use ferro_ledger::quantity::Quantity;
use ferro_ledger::reports::balance_sheet;

fn ledger_from(src: &str) -> Ledger {
    let parsed = parse_str(src, "test.journal").expect("should parse");
    Ledger::from_transactions(parsed.transactions)
}

fn dec(num: i64, scale: u32) -> Quantity {
    Quantity::new(num, scale)
}

#[test]
fn balances_with_no_income_or_expense_activity() {
    let ledger = ledger_from(
        "2024-01-01 * Opening balances\n\
         \x20\x20\x20\x20Assets:Bank:Checking   1000.00 USD\n\
         \x20\x20\x20\x20Equity:OpeningBalance -1000.00 USD\n",
    );
    let report = balance_sheet::build(&ledger);
    assert_eq!(report.sheets.len(), 1);
    let sheet = &report.sheets[0];
    assert!(sheet.is_balanced());
    assert!(sheet.assets.total.equals(&dec(100000, 2)));
    assert!(sheet.liabilities.total.equals(&Quantity::zero()));
    assert!(sheet.equity.total.equals(&dec(100000, 2)));
    assert!(report.unclassified_accounts.is_empty());
}

#[test]
fn folds_unclosed_net_income_into_equity_so_it_balances() {
    let ledger = ledger_from(
        "2024-01-01 * Opening balances\n\
         \x20\x20\x20\x20Assets:Bank:Checking   1000.00 USD\n\
         \x20\x20\x20\x20Equity:OpeningBalance -1000.00 USD\n\
         \n\
         2024-01-05 * Consulting revenue\n\
         \x20\x20\x20\x20Assets:Bank:Checking    500.00 USD\n\
         \x20\x20\x20\x20Income:Consulting      -500.00 USD\n\
         \n\
         2024-01-10 * Office rent\n\
         \x20\x20\x20\x20Expenses:Rent           200.00 USD\n\
         \x20\x20\x20\x20Assets:Bank:Checking\n",
    );
    let report = balance_sheet::build(&ledger);
    let sheet = &report.sheets[0];
    assert!(sheet.is_balanced());

    let net_income_row = sheet
        .equity
        .rows
        .iter()
        .find(|r| r.account == "Net Income (unclosed)")
        .expect("net income row present");
    assert!(net_income_row.amount.equals(&dec(30000, 2)));

    assert!(sheet.assets.total.equals(&dec(130000, 2)));
    assert!(sheet.liabilities.total.equals(&Quantity::zero()));
    assert!(sheet.equity.total.equals(&dec(130000, 2)));
}

#[test]
fn liabilities_and_equity_display_positive_for_their_normal_balance() {
    let ledger = ledger_from(
        "2024-01-01 * Opening balances\n\
         \x20\x20\x20\x20Assets:Bank:Checking       1000.00 USD\n\
         \x20\x20\x20\x20Liabilities:CreditCard      -300.00 USD\n\
         \x20\x20\x20\x20Equity:OpeningBalance       -700.00 USD\n",
    );
    let report = balance_sheet::build(&ledger);
    let sheet = &report.sheets[0];
    assert!(sheet.is_balanced());
    assert!(sheet.liabilities.rows[0].amount.equals(&dec(30000, 2)));
    assert!(sheet.equity.rows[0].amount.equals(&dec(70000, 2)));
}

#[test]
fn accounts_with_unrecognized_top_level_segment_are_excluded_and_listed() {
    let ledger = ledger_from(
        "2024-01-01 * Odd account naming\n\
         \x20\x20\x20\x20Misc:Whatever   50.00 USD\n\
         \x20\x20\x20\x20Equity:Opening  -50.00 USD\n",
    );
    let report = balance_sheet::build(&ledger);
    assert_eq!(report.unclassified_accounts.len(), 1);
    assert_eq!(report.unclassified_accounts[0].0, "Misc:Whatever");
    let sheet = &report.sheets[0];
    assert!(sheet.assets.rows.is_empty());
    assert!(sheet.equity.total.equals(&dec(5000, 2)));
}

#[test]
fn unclassified_balance_makes_the_sheet_not_balance() {
    let ledger = ledger_from(
        "2024-01-01 * Odd account naming\n\
         \x20\x20\x20\x20Misc:Whatever   50.00 USD\n\
         \x20\x20\x20\x20Equity:Opening  -50.00 USD\n",
    );
    let report = balance_sheet::build(&ledger);
    assert!(!report.is_balanced());
    let text = report.render();
    assert!(text.contains("Assets (0.00) != Liabilities + Equity (50.00)\n"));
    assert!(text.contains("WARNING: balance sheet does not balance.\n"));
    assert!(text.ends_with(
        "NOTE: 1 account(s) have an unrecognized top-level segment and are excluded from this report:\n  Misc:Whatever\n"
    ));
}

#[test]
fn every_commodity_gets_its_own_balanced_sheet() {
    let ledger = ledger_from(
        "2024-01-01 * Opening\n    Assets:Bank:USD   100.00 USD\n    Equity:Opening   -100.00 USD\n\n\
         2024-01-02 * Euro\n    Assets:Bank:EUR   50.00 EUR\n    Equity:Opening  -50.00 EUR\n\n\
         2024-01-03 * Sale\n    Assets:Bank:EUR   20.00 EUR\n    Income:Sales  -20.00 EUR\n",
    );
    let report = balance_sheet::build(&ledger);
    assert_eq!(report.sheets.len(), 2);
    assert_eq!(report.sheets[0].commodity, "EUR");
    assert_eq!(report.sheets[1].commodity, "USD");
    assert!(report.is_balanced());
    assert!(report.sheets[0].equity.total.equals(&dec(7000, 2)));
}

#[test]
fn a_net_loss_reduces_equity() {
    let ledger = ledger_from(
        "2024-01-01 * Opening\n    Assets:Cash   100.00 USD\n    Equity:Open  -100.00 USD\n\n\
         2024-01-02 * Rent\n    Expenses:Rent   30.00 USD\n    Assets:Cash\n",
    );
    let report = balance_sheet::build(&ledger);
    let sheet = &report.sheets[0];
    let row = sheet.equity.rows.iter().find(|r| r.account == "Net Income (unclosed)").unwrap();
    assert!(row.amount.equals(&dec(-3000, 2)));
    assert!(sheet.equity.total.equals(&dec(7000, 2)));
    assert!(sheet.is_balanced());
}

#[test]
fn renders_sections_and_the_accounting_equation() {
    let ledger = ledger_from(
        "2024-01-01 * Opening\n    Assets:Cash   100.00 USD\n    Equity:Open  -100.00 USD\n",
    );
    let report = balance_sheet::build(&ledger);
    assert_eq!(
        report.render(),
        "Commodity: USD\nASSETS\n  Assets:Cash           100.00\n  Total Assets          100.00\n\nLIABILITIES\n  Total Liabilities            0.00\n\nEQUITY\n  Equity:Open           100.00\n  Total Equity          100.00\n\nAssets (100.00) = Liabilities + Equity (100.00)\n\n"
    );
}

#[test]
fn an_empty_ledger_has_an_empty_balance_sheet() {
    let ledger = Ledger::from_transactions(Vec::new());
    let report = balance_sheet::build(&ledger);
    assert!(report.sheets.is_empty());
    assert!(report.is_balanced());
    assert_eq!(report.render(), "(no postings)\n");
}

#[test]
fn checked_balance_sheet_agrees_on_ordinary_ledgers() {
    let ledger = ledger_from(
        "2024-01-01 * Opening\n    Assets:Cash   100.00 USD\n    Equity:Open  -100.00 USD\n",
    );
    let report = balance_sheet::try_build(&ledger).expect("sums fit");
    assert_eq!(report.sheets.len(), 1);
    assert!(report.sheets[0].assets.total.equals(&dec(100, 0)));
}

#[test]
fn a_commodity_held_only_by_unclassified_accounts_gets_no_sheet() {
    let ledger = ledger_from("2024-01-01 x\n    Misc:A  5 EUR\n    Misc:B  -5 EUR\n");
    let report = balance_sheet::build(&ledger);
    assert!(report.sheets.is_empty());
    let names: Vec<&str> = report.unclassified_accounts.iter().map(|a| a.0.as_str()).collect();
    assert_eq!(names, vec!["Misc:A", "Misc:B"]);
}

#[test]
fn an_unclassified_account_upsets_only_its_own_commodity() {
    let ledger = ledger_from(
        "2024-01-01 * Opening\n    Assets:Cash   100.00 USD\n    Equity:Open  -100.00 USD\n\n\
         2024-01-02 * Odd\n    Misc:Whatever   5.00 EUR\n    Equity:Open  -5.00 EUR\n",
    );
    let report = balance_sheet::build(&ledger);
    assert_eq!(report.sheets.len(), 2);
    assert_eq!(report.sheets[0].commodity, "EUR");
    assert!(!report.sheets[0].is_balanced());
    assert_eq!(report.sheets[1].commodity, "USD");
    assert!(report.sheets[1].is_balanced());
}
