use ferro_ledger::ledger::Ledger;
use ferro_ledger::parser::parse_str;
use ferro_ledger::quantity::Quantity;
use ferro_ledger::reports::{balance_sheet, income_statement};

fn ledger_from(src: &str) -> Ledger {
    let parsed = parse_str(src, "test.journal").expect("should parse");
    Ledger::from_transactions(parsed.transactions)
}

fn dec(num: i64, scale: u32) -> Quantity {
    Quantity::new(num, scale)
}

#[test]
fn revenue_and_expenses_display_positive_with_correct_net_income() {
    let ledger = ledger_from(
        "2024-01-05 * Consulting revenue\n\
         \x20\x20\x20\x20Assets:Bank:Checking    500.00 USD\n\
         \x20\x20\x20\x20Income:Consulting      -500.00 USD\n\
         \n\
         2024-01-10 * Office rent\n\
         \x20\x20\x20\x20Expenses:Rent           200.00 USD\n\
         \x20\x20\x20\x20Assets:Bank:Checking   -200.00 USD\n",
    );
    let report = income_statement::build(&ledger);
    assert_eq!(report.statements.len(), 1);
    let statement = &report.statements[0];

    assert_eq!(statement.revenue.rows.len(), 1);
    assert!(statement.revenue.rows[0].amount.equals(&dec(50000, 2)));
    assert!(statement.expenses.rows[0].amount.equals(&dec(20000, 2)));
    assert!(statement.net_income().equals(&dec(30000, 2)));
    assert!(report.unclassified_accounts.is_empty());
}

#[test]
fn asset_liability_equity_accounts_are_out_of_scope_not_flagged() {
    let ledger = ledger_from(
        "2024-01-01 * Opening balances\n\
         \x20\x20\x20\x20Assets:Bank:Checking   1000.00 USD\n\
         \x20\x20\x20\x20Equity:OpeningBalance -1000.00 USD\n",
    );
    let report = income_statement::build(&ledger);
    assert!(report.statements.is_empty());
    assert!(report.unclassified_accounts.is_empty());
}

#[test]
fn unrecognized_top_level_segment_is_listed_but_not_asset_liability_equity() {
    let ledger = ledger_from(
        "2024-01-01 * Mixed\n\
         \x20\x20\x20\x20Misc:Whatever          50.00 USD\n\
         \x20\x20\x20\x20Assets:Bank:Checking  -50.00 USD\n",
    );
    let report = income_statement::build(&ledger);
    assert_eq!(report.unclassified_accounts.len(), 1);
    assert_eq!(report.unclassified_accounts[0].0, "Misc:Whatever");
    assert!(report.statements.is_empty());
}

#[test]
fn net_income_matches_balance_sheets_folded_net_income_row() {
    let ledger = ledger_from(
        "2024-01-01 * Opening balances\n\
         \x20\x20\x20\x20Assets:Bank:Checking   1000.00 USD\n\
         \x20\x20\x20\x20Equity:OpeningBalance -1000.00 USD\n\
         \n\
         2024-01-05 * Consulting revenue\n\
         \x20\x20\x20\x20Assets:Bank:Checking    500.00 USD\n\
         \x20\x20\x20\x20Income:Consulting      -500.00 USD\n\
         \n\
         2024-01-10 * Office rent\n\
         \x20\x20\x20\x20Expenses:Rent           200.00 USD\n\
         \x20\x20\x20\x20Assets:Bank:Checking   -200.00 USD\n",
    );

    let income_report = income_statement::build(&ledger);
    let net_income = income_report.statements[0].net_income();

    let bs_report = balance_sheet::build(&ledger);
    let bs_sheet = &bs_report.sheets[0];
    let folded_row = bs_sheet
        .equity
        .rows
        .iter()
        .find(|r| r.account == "Net Income (unclosed)")
        .expect("balance sheet should fold in a net income row");

    assert!(net_income.equals(&folded_row.amount));
}

#[test]
fn a_loss_is_rendered_as_net_loss() {
    let ledger = ledger_from(
        "2024-01-05 * Sale\n    Assets:Cash   50.00 USD\n    Revenue:Sales  -50.00 USD\n\n\
         2024-01-10 * Rent\n    Expenses:Rent   80.00 USD\n    Assets:Cash\n",
    );
    let report = income_statement::build(&ledger);
    let statement = &report.statements[0];
    assert!(statement.net_income().equals(&dec(-3000, 2)));
    assert!(report.render().contains("NET LOSS: -30.00\n"));
}

#[test]
fn renders_revenue_expenses_and_the_bottom_line() {
    let ledger = ledger_from(
        "2024-01-05 * Consulting revenue\n    Assets:Bank:Checking    500.00 USD\n    Income:Consulting      -500.00 USD\n\n\
         2024-01-10 * Office rent\n    Expenses:Rent           200.00 USD\n    Assets:Bank:Checking   -200.00 USD\n",
    );
    let report = income_statement::build(&ledger);
    assert_eq!(
        report.render(),
        "Commodity: USD\nREVENUE\n  Income:Consulting          500.00\n  Total Revenue              500.00\n\nEXPENSES\n  Expenses:Rent           200.00\n  Total Expenses          200.00\n\nNET INCOME: 300.00\n\n"
    );
}

#[test]
fn only_commodities_with_income_or_expense_get_a_statement() {
    let ledger = ledger_from(
        "2024-01-01 * Opening\n    Assets:Bank:EUR   50.00 EUR\n    Equity:Opening  -50.00 EUR\n\n\
         2024-01-02 * Sale\n    Assets:Bank:USD   20.00 USD\n    Income:Sales  -20.00 USD\n",
    );
    let report = income_statement::build(&ledger);
    assert_eq!(report.statements.len(), 1);
    assert_eq!(report.statements[0].commodity, "USD");
    assert!(report.statements[0].expenses.total.equals(&Quantity::zero()));
}

#[test]
fn an_empty_ledger_has_no_statements() {
    let ledger = Ledger::from_transactions(Vec::new());
    let report = income_statement::try_build(&ledger).expect("sums fit");
    assert!(report.statements.is_empty());
    assert_eq!(report.render(), "(no postings)\n");
}
