use ferro_ledger::model::Status;
use ferro_ledger::parser::{parse_amount, parse_journal, parse_str};
use ferro_ledger::quantity::{parse_quantity, Quantity};

#[test]
fn parses_simple_balanced_transaction() {
    let src = "2024-01-15 * Payment received\n    Assets:Bank:Checking   100.00 USD\n    Income:Sales           -100.00 USD\n";
    let parsed = parse_str(src, "test.journal").expect("should parse");
    assert_eq!(parsed.transactions.len(), 1);
    let txn = &parsed.transactions[0];
    assert_eq!(txn.status, Status::Cleared);
    assert_eq!(txn.description, "Payment received");
    assert_eq!(txn.postings.len(), 2);
    assert!(txn.postings[0].amount.as_ref().unwrap().quantity.equals(&parse_quantity("100.00").unwrap()));
}

#[test]
fn infers_elided_amount() {
    let src = "2024-01-16 Grocery shopping\n    Expenses:Groceries   45.00 USD\n    Assets:Bank:Checking\n";
    let parsed = parse_str(src, "test.journal").expect("should parse");
    let txn = &parsed.transactions[0];
    let elided = &txn.postings[1];
    assert!(elided.was_elided);
    assert!(elided.amount.as_ref().unwrap().quantity.equals(&parse_quantity("-45.00").unwrap()));
}

#[test]
fn rejects_unbalanced_transaction() {
    let src = "2024-01-16 Bad entry\n    Expenses:Groceries   45.00 USD\n    Assets:Bank:Checking  -40.00 USD\n";
    let err = parse_str(src, "test.journal").unwrap_err();
    assert!(err.message.contains("does not balance"));
}

#[test]
fn parses_tags_from_comment() {
    let src = "2024-03-01 * Customer payment\n    Assets:Clearing:Payments   500.00 USD  ; match:INV-2044\n    Income:Sales              -500.00 USD\n";
    let parsed = parse_str(src, "test.journal").expect("should parse");
    let posting = &parsed.transactions[0].postings[0];
    assert_eq!(posting.tag("match").unwrap().value.as_deref(), Some("INV-2044"));
}

#[test]
fn parses_dollar_prefixed_amount() {
    let amt = parse_amount("-$1,234.56").unwrap();
    assert_eq!(amt.commodity, "$");
    assert!(amt.quantity.equals(&parse_quantity("-1234.56").unwrap()));
}

#[test]
fn parses_include_directive() {
    let src = "include other.journal\n";
    let parsed = parse_str(src, "test.journal").expect("should parse");
    assert_eq!(parsed.includes.len(), 1);
    assert_eq!(parsed.includes[0].path, "other.journal");
}

#[test]
fn rejects_unrecognized_directive() {
    let src = "~ monthly rent\n";
    let err = parse_str(src, "test.journal").unwrap_err();
    assert!(err.message.contains("unrecognized"));
}

#[test]
fn header_fields_are_all_read() {
    let src = "2024-05-02=2024-05-04 ! (INV-7) Supplier bill ; vendor:Acme\n    Expenses:Supplies   12.50 EUR\n    Liabilities:Payable\n";
    let parsed = parse_str(src, "bills.journal").expect("should parse");
    let txn = &parsed.transactions[0];
    assert_eq!(txn.date.to_text(), "2024-05-02");
    assert_eq!(txn.secondary_date.unwrap().to_text(), "2024-05-04");
    assert_eq!(txn.status, Status::Pending);
    assert_eq!(txn.code.as_deref(), Some("INV-7"));
    assert_eq!(txn.description, "Supplier bill");
    assert_eq!(txn.tag("vendor").unwrap().value.as_deref(), Some("Acme"));
    assert_eq!(txn.source.file, "bills.journal");
    assert_eq!(txn.source.line, 1);
    assert_eq!(txn.postings[1].source.line, 3);
}

#[test]
fn indented_comment_lines_add_transaction_tags() {
    let src = "2024-05-02 Lunch\n    ; project:alpha\n    Expenses:Food   9.00 USD\n    Assets:Cash\n";
    let parsed = parse_str(src, "test.journal").expect("should parse");
    let txn = &parsed.transactions[0];
    assert_eq!(txn.tag("project").unwrap().value.as_deref(), Some("alpha"));
    assert_eq!(txn.postings.len(), 2);
}

#[test]
fn posting_tag_overrides_transaction_tag() {
    let src = "2024-05-02 Split ; match:T1\n    Assets:Clearing   9.00 USD ; match:P1\n    Assets:Cash  -9.00 USD\n";
    let parsed = parse_str(src, "test.journal").expect("should parse");
    let txn = &parsed.transactions[0];
    assert_eq!(txn.effective_tag(&txn.postings[0], "match").unwrap().value.as_deref(), Some("P1"));
    assert_eq!(txn.effective_tag(&txn.postings[1], "match").unwrap().value.as_deref(), Some("T1"));
    assert!(txn.effective_tag(&txn.postings[1], "other").is_none());
}

#[test]
fn indented_line_without_header_is_an_error() {
    let src = "    Assets:Cash  1.00 USD\n";
    let err = parse_str(src, "test.journal").unwrap_err();
    assert_eq!(err.line, 1);
    assert_eq!(err.message, "indented line with no preceding transaction header");
    assert_eq!(err.to_text(), "test.journal:1: indented line with no preceding transaction header");
}

#[test]
fn two_elided_postings_in_one_commodity_are_an_error() {
    let src = "2024-01-01 X\n    Assets:Cash\n    Equity:Open\n    Expenses:Misc  1.00 USD\n";
    let err = parse_str(src, "test.journal").unwrap_err();
    assert_eq!(err.line, 1);
    assert!(err.message.contains("only one posting per transaction may elide"));
}

#[test]
fn directives_without_effect_and_comments_are_skipped() {
    let src = "; a comment\n# another\naccount Assets:Cash\ncommodity USD\nyear 2024\n\n2024-01-01 X\n    Assets:Cash  1.00 USD\n    Equity:Open\n";
    let parsed = parse_str(src, "test.journal").expect("should parse");
    assert_eq!(parsed.transactions.len(), 1);
    assert!(parsed.includes.is_empty());
}

#[test]
fn bad_amount_is_reported_with_its_line() {
    let src = "2024-01-01 X\n    Assets:Cash  abc\n    Equity:Open\n";
    let err = parse_str(src, "test.journal").unwrap_err();
    assert_eq!(err.line, 2);
}

#[test]
fn suffix_commodity_and_plain_number_amounts() {
    let a = parse_amount("12.5 EUR").unwrap();
    assert_eq!(a.commodity, "EUR");
    assert!(a.quantity.equals(&Quantity::new(125, 1)));
    let b = parse_amount("7").unwrap();
    assert_eq!(b.commodity, "");
    assert!(b.quantity.equals(&Quantity::new(7, 0)));
    assert!(parse_amount("").is_err());
    assert!(parse_amount("USD").is_err());
}

#[test]
fn checked_parse_agrees_with_parse_str_on_ordinary_input() {
    let src = "2024-01-15 * Payment received\n    Assets:Bank:Checking   100.00 USD\n    Income:Sales\n";
    let checked = parse_journal(src, "test.journal").expect("sums fit").expect("should parse");
    let plain = parse_str(src, "test.journal").expect("should parse");
    assert_eq!(checked.transactions.len(), plain.transactions.len());
    assert!(checked.transactions[0].postings[1]
        .amount
        .as_ref()
        .unwrap()
        .quantity
        .equals(&Quantity::new(-10000, 2)));
}

fn parse_error(src: &str) -> (usize, String) {
    let err = parse_str(src, "test.journal").unwrap_err();
    (err.line, err.message)
}

#[test]
fn a_header_without_postings_is_an_error() {
    assert_eq!(parse_error("2024-01-01 Nothing\n"), (1, "transaction has no postings".to_owned()));
}

#[test]
fn an_elided_amount_needs_exactly_one_other_commodity() {
    assert_eq!(
        parse_error("2024-01-01 X\n    Assets:Cash\n"),
        (1, "cannot infer elided posting amount: no other postings to balance against".to_owned())
    );
    assert_eq!(
        parse_error("2024-01-01 X\n    Assets:Cash  1.00 USD\n    Assets:Bank  1.00 EUR\n    Equity:Open\n"),
        (1, "cannot infer elided posting amount: postings span multiple commodities".to_owned())
    );
}

#[test]
fn an_unterminated_code_is_an_error() {
    assert_eq!(
        parse_error("2024-01-01 (ABC Payment\n    Assets:Cash  1.00 USD\n    Equity:Open\n"),
        (1, "unterminated '(' code in transaction header".to_owned())
    );
}

#[test]
fn a_bad_secondary_date_is_an_error() {
    assert_eq!(
        parse_error("2024-01-01=2024-13-01 X\n    Assets:Cash  1.00 USD\n    Equity:Open\n"),
        (1, "invalid secondary date '2024-13-01'".to_owned())
    );
}

#[test]
fn the_unbalanced_message_names_the_description_commodity_and_sum() {
    assert_eq!(
        parse_error("2024-01-16 Bad entry\n    Expenses:Groceries   45.00 USD\n    Assets:Bank:Checking  -40.00 USD\n"),
        (1, "transaction does not balance: Bad entry 'USD' postings sum to 5.00 instead of 0".to_owned())
    );
}

#[test]
fn an_unparsable_amount_names_the_amount() {
    assert_eq!(
        parse_error("2024-01-01 X\n    Assets:Cash  USD\n    Equity:Open\n"),
        (2, "no numeric value found in amount 'USD'".to_owned())
    );
}

#[test]
fn a_posting_marker_and_a_pending_header_are_read() {
    let src = "2024-01-01 ! Pending\n    * Assets:Cash  1.00 USD\n    Equity:Open\n";
    let parsed = parse_str(src, "test.journal").expect("should parse");
    let txn = &parsed.transactions[0];
    assert_eq!(txn.status, Status::Pending);
    assert_eq!(txn.postings[0].status, Some(Status::Cleared));
    assert_eq!(txn.postings[0].account.0, "Assets:Cash");
    assert_eq!(txn.postings[1].status, None);
}

#[test]
fn an_unknown_line_is_reported_verbatim() {
    assert_eq!(
        parse_error("hello world\n"),
        (1, "unrecognized directive or transaction line: 'hello world'".to_owned())
    );
}

#[test]
fn a_transaction_ends_at_the_first_line_that_does_not_continue_it() {
    let src = "2024-01-01 X\n    ; note: yes\n    Assets:Cash  1.00 USD\n    # another comment\n    Equity:Open\n2024-01-02 Y\n    Assets:Cash  2.00 USD\n    Equity:Open\n";
    let parsed = parse_str(src, "test.journal").expect("should parse");
    assert_eq!(parsed.transactions.len(), 2);
    assert_eq!(parsed.transactions[0].postings.len(), 2);
    assert_eq!(parsed.transactions[0].tag("note").unwrap().value.as_deref(), Some("yes"));
    assert_eq!(parsed.transactions[1].source.line, 6);
    assert_eq!(parsed.transactions[1].postings[0].source.line, 7);
}
