use ferro_ledger::journal::{take_file, IncludeStack, JournalError};
use ferro_ledger::parser::{parse_str, ParseError};

#[test]
fn entering_a_file_already_being_loaded_is_a_cycle() {
    let mut stack = IncludeStack::new();
    assert!(stack.enter("/books/a.journal", "a.journal").is_ok());
    assert!(stack.enter("/books/b.journal", "b.journal").is_ok());
    match stack.enter("/books/a.journal", "./a.journal") {
        Err(JournalError::CircularInclude { path }) => assert_eq!(path, "./a.journal"),
        other => panic!("expected CircularInclude, got {other:?}"),
    }
}

#[test]
fn a_file_may_be_loaded_again_once_it_is_left() {
    let mut stack = IncludeStack::new();
    assert!(stack.enter("/books/common.journal", "common.journal").is_ok());
    stack.leave("/books/common.journal");
    assert!(stack.enter("/books/common.journal", "common.journal").is_ok());
}

#[test]
fn load_errors_read_as_their_messages() {
    let io = JournalError::Io { path: "missing.journal".to_owned(), message: "No such file".to_owned() };
    assert_eq!(io.to_text(), "failed to read 'missing.journal': No such file");
    let cycle = JournalError::CircularInclude { path: "a.journal".to_owned() };
    assert_eq!(cycle.to_text(), "circular include detected at 'a.journal'");
    let parse = JournalError::Parse(ParseError::new("x.journal", 3, "bad".to_owned()));
    assert_eq!(parse.to_text(), "x.journal:3: bad");
}

#[test]
fn a_file_contributes_its_transactions_before_its_includes() {
    let mut out = parse_str("2024-01-01 Earlier\n    Assets:Cash  1.00 USD\n    Equity:Open\n", "a.journal")
        .expect("should parse")
        .transactions;
    let parsed = parse_str(
        "include one.journal\n2024-01-02 Own\n    Assets:Cash  1.00 USD\n    Equity:Open\ninclude sub/two.journal\n",
        "b.journal",
    )
    .expect("should parse");
    let includes = take_file(&mut out, parsed);
    let names: Vec<&str> = out.iter().map(|t| t.description.as_str()).collect();
    assert_eq!(names, vec!["Earlier", "Own"]);
    assert_eq!(includes, vec!["one.journal", "sub/two.journal"]);
}
