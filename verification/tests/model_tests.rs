use ferro_ledger::date::Date;
use ferro_ledger::model::{Account, Amount, SourcePos, Tag};
use ferro_ledger::quantity::Quantity;

#[test]
fn account_segments_depth_and_ancestors() {
    let a = Account::new("Assets:Bank:Checking");
    assert_eq!(a.segments(), vec!["Assets", "Bank", "Checking"]);
    assert_eq!(a.depth(), 3);
    let ancestors: Vec<String> = a.ancestors_inclusive().into_iter().map(|x| x.0).collect();
    assert_eq!(ancestors, vec!["Assets", "Assets:Bank", "Assets:Bank:Checking"]);
    assert_eq!(Account::new("Equity").depth(), 1);
}

#[test]
fn is_under_means_self_or_a_descendant() {
    let parent = Account::new("Assets:Bank");
    assert!(Account::new("Assets:Bank").is_under(&parent));
    assert!(Account::new("Assets:Bank:Checking").is_under(&parent));
    assert!(!Account::new("Assets:BankX").is_under(&parent));
    assert!(!Account::new("Assets").is_under(&parent));
}

#[test]
fn amounts_add_only_within_one_commodity() {
    let a = Amount::new(Quantity::new(150, 2), "USD");
    let b = Amount::new(Quantity::new(25, 1), "USD");
    let sum = a.checked_add(&b).unwrap();
    assert_eq!(sum.commodity, "USD");
    assert!(sum.quantity.equals(&Quantity::new(400, 2)));
    assert!(a.checked_add(&Amount::new(Quantity::new(1, 0), "EUR")).is_none());
    assert!(a.negate().quantity.equals(&Quantity::new(-150, 2)));
    assert!(Amount::zero("USD").is_zero());
}

#[test]
fn amounts_and_positions_read_as_text() {
    assert_eq!(Amount::new(Quantity::new(-1234, 2), "USD").to_text(), "-12.34 USD");
    assert_eq!(Amount::new(Quantity::new(5, 0), "").to_text(), "5");
    let pos = SourcePos { file: "books.journal".to_owned(), line: 12 };
    assert_eq!(pos.to_text(), "books.journal:12");
}

#[test]
fn tags_keep_key_and_value() {
    let t = Tag::new("match", Some("INV-1".to_owned()));
    assert_eq!(t.key, "match");
    assert_eq!(t.value.as_deref(), Some("INV-1"));
}

#[test]
fn dates_print_iso_and_step_to_the_next_day() {
    let d = Date::from_ymd_opt(2024, 2, 29).unwrap();
    assert_eq!(d.to_text(), "2024-02-29");
    assert_eq!(d.succ_opt().unwrap().to_text(), "2024-03-01");
    assert!(Date::from_ymd_opt(2023, 2, 29).is_none());
    assert!(d.is_before(&Date::from_ymd_opt(2024, 3, 1).unwrap()));
    assert_eq!((d.year(), d.month(), d.day()), (2024, 2, 29));
}
