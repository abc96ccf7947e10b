use ferro_ledger::account_types::{classify, AccountType};
use ferro_ledger::model::Account;

#[test]
fn classifies_recognized_top_level_segments_case_insensitively() {
    assert_eq!(classify(&Account::new("Assets:Bank:Checking")), Some(AccountType::Asset));
    assert_eq!(classify(&Account::new("LIABILITIES:Loans")), Some(AccountType::Liability));
    assert_eq!(classify(&Account::new("equity:Opening")), Some(AccountType::Equity));
    assert_eq!(classify(&Account::new("Revenue:Sales")), Some(AccountType::Revenue));
    assert_eq!(classify(&Account::new("expenses:Rent")), Some(AccountType::Expense));
}

#[test]
fn unrecognized_top_level_segment_is_unclassified() {
    assert_eq!(classify(&Account::new("Misc:Whatever")), None);
}

#[test]
fn income_and_expense_synonyms_are_recognized() {
    assert_eq!(classify(&Account::new("Income:Consulting")), Some(AccountType::Revenue));
    assert_eq!(classify(&Account::new("Expense:Rent")), Some(AccountType::Expense));
    assert_eq!(classify(&Account::new("Asset:Cash")), Some(AccountType::Asset));
    assert_eq!(classify(&Account::new("Liability:Card")), Some(AccountType::Liability));
}

#[test]
fn only_the_top_level_segment_decides_the_class() {
    assert_eq!(classify(&Account::new("Misc:Assets")), None);
    assert_eq!(classify(&Account::new("Assets")), Some(AccountType::Asset));
    assert_eq!(classify(&Account::new("AssetsX:Cash")), None);
}
