use ferro_ledger::ledger::Ledger;
use ferro_ledger::model::Account;
use ferro_ledger::parser::parse_str;
use ferro_ledger::quantity::Quantity;

fn ledger_from(src: &str) -> Ledger {
    let parsed = parse_str(src, "test.journal").expect("should parse");
    Ledger::from_transactions(parsed.transactions)
}

#[test]
fn subtree_balance_rolls_up_descendants() {
    let ledger = ledger_from(
        "2024-01-01 Opening\n    Assets:Bank:Checking   100.00 USD\n    Assets:Bank:Savings     50.00 USD\n    Equity:OpeningBalance -150.00 USD\n",
    );
    let total = ledger.subtree_balance(&Account::new("Assets"));
    assert_eq!(total.len(), 1);
    assert!(total[0].quantity.equals(&Quantity::new(15000, 2)));
}

#[test]
fn leaf_balance_does_not_roll_up() {
    let ledger = ledger_from(
        "2024-01-01 Opening\n    Assets:Bank:Checking   100.00 USD\n    Equity:OpeningBalance -100.00 USD\n",
    );
    let assets_total = ledger.leaf_balance(&Account::new("Assets"));
    assert!(assets_total.is_empty());
}

#[test]
fn transactions_are_ordered_by_date_keeping_source_order_on_ties() {
    let ledger = ledger_from(
        "2024-03-01 * Third\n    Assets:Cash  1.00 USD\n    Equity:Open\n\n\
         2024-01-01 * First\n    Assets:Cash  1.00 USD\n    Equity:Open\n\n\
         2024-03-01 * Fourth\n    Assets:Cash  1.00 USD\n    Equity:Open\n\n\
         2024-02-01 * Second\n    Assets:Cash  1.00 USD\n    Equity:Open\n",
    );
    let names: Vec<&str> = ledger.transactions.iter().map(|t| t.description.as_str()).collect();
    assert_eq!(names, vec!["First", "Second", "Third", "Fourth"]);
}

#[test]
fn accounts_are_distinct_and_sorted() {
    let ledger = ledger_from(
        "2024-01-01 * A\n    Expenses:Rent   10.00 USD\n    Assets:Cash\n\n\
         2024-01-02 * B\n    Assets:Cash   5.00 USD\n    Equity:Open\n",
    );
    let accounts: Vec<String> = ledger.accounts().into_iter().map(|a| a.0).collect();
    assert_eq!(accounts, vec!["Assets:Cash", "Equity:Open", "Expenses:Rent"]);
}

#[test]
fn leaf_balance_keeps_commodities_in_first_appearance_order() {
    let ledger = ledger_from(
        "2024-01-01 * A\n    Assets:Cash   10.00 EUR\n    Equity:Open  -10.00 EUR\n\n\
         2024-01-02 * B\n    Assets:Cash   5.00 USD\n    Equity:Open  -5.00 USD\n\n\
         2024-01-03 * C\n    Assets:Cash   2.50 EUR\n    Equity:Open  -2.50 EUR\n",
    );
    let cash = ledger.leaf_balance(&Account::new("Assets:Cash"));
    assert_eq!(cash.len(), 2);
    assert_eq!(cash[0].commodity, "EUR");
    assert!(cash[0].quantity.equals(&Quantity::new(1250, 2)));
    assert_eq!(cash[1].commodity, "USD");
    assert!(cash[1].quantity.equals(&Quantity::new(500, 2)));
}

#[test]
fn all_leaf_balances_lists_every_account_in_order() {
    let ledger = ledger_from(
        "2024-01-01 * A\n    Expenses:Rent   10.00 USD\n    Assets:Cash    -10.00 USD\n",
    );
    let all = ledger.all_leaf_balances();
    assert_eq!(all.len(), 2);
    assert_eq!(all[0].0 .0, "Assets:Cash");
    assert!(all[0].1[0].quantity.equals(&Quantity::new(-1000, 2)));
    assert_eq!(all[1].0 .0, "Expenses:Rent");
    assert!(all[1].1[0].quantity.equals(&Quantity::new(1000, 2)));
}

#[test]
fn postings_in_includes_descendants_only() {
    let ledger = ledger_from(
        "2024-01-01 * A\n    Assets:Clearing:One   10.00 USD\n    Assets:ClearingX   -10.00 USD\n\n\
         2024-01-02 * B\n    Assets:Clearing   3.00 USD\n    Equity:Open\n",
    );
    let under = ledger.postings_in(&Account::new("Assets:Clearing"));
    assert_eq!(under.len(), 2);
    assert_eq!(under[0].posting.account.0, "Assets:Clearing:One");
    assert_eq!(under[1].posting.account.0, "Assets:Clearing");
    assert_eq!(ledger.postings().len(), 4);
}

#[test]
fn transactions_with_equal_date_and_line_keep_their_input_order() {
    let mut ts = parse_str("2024-01-01 * From b\n    Assets:Cash  1.00 USD\n    Equity:Open\n", "b.journal")
        .expect("should parse")
        .transactions;
    ts.extend(
        parse_str("2024-01-01 * From a\n    Assets:Cash  2.00 USD\n    Equity:Open\n", "a.journal")
            .expect("should parse")
            .transactions,
    );
    let ledger = Ledger::from_transactions(ts);
    assert_eq!(ledger.transactions[0].description, "From b");
    assert_eq!(ledger.transactions[1].description, "From a");
}

#[test]
fn a_subtree_balance_is_the_sum_of_its_leaf_balances() {
    let ledger = ledger_from(
        "2024-01-01 Opening\n    Assets:Bank:Checking   100.00 USD\n    Assets:Bank   20.00 USD\n    Assets:Bank:Savings     50.00 USD\n    Assets:Cash   7.00 USD\n    Equity:OpeningBalance\n",
    );
    let total = ledger.subtree_balance(&Account::new("Assets:Bank"));
    let mut sum = Quantity::zero();
    for a in ["Assets:Bank", "Assets:Bank:Checking", "Assets:Bank:Savings"] {
        sum = sum.checked_add(&ledger.leaf_balance(&Account::new(a))[0].quantity).unwrap();
    }
    assert!(total[0].quantity.equals(&sum));
    assert!(sum.equals(&Quantity::new(17000, 2)));
}
