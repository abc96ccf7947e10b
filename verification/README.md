# ferro_ledger

A plain-text, hledger-compatible double-entry ledger: it parses journal files and prints a
trial balance, a balance sheet, an income statement, or a clearing-account analysis. The
library under `src/` is written in Verus: its functions carry `requires`/`ensures`
contracts that Verus proves, and the properties the reports promise are stated and proved as
proof functions.

## Layout

- `src/quantity.rs`, `src/date.rs`: exact decimal quantities and calendar dates, computed
  by `rust_decimal` and `chrono` behind small trusted wrappers.
- `src/model.rs`, `src/parser.rs`, `src/balance.rs`: the journal's data model, the parser
  (one file's text to transactions and `include` directives), and the proof that every
  parsed transaction balances per commodity.
- `src/ledger.rs`, `src/date_range.rs`, `src/period.rs`: the ledger (transactions in date
  order, balance queries), `--since`/`--until` windows and the `--period` shorthand.
- `src/journal.rs`, `src/cli.rs`: load errors and the `include` cycle check; the command
  line as data, the date flags and the period header.
- `src/reports/`: trial balance, balance sheet, income statement and clearing analysis,
  each as a data structure with its specification and its rendering; `footing.rs` proves
  that a trial balance foots, that each commodity's balance sheet balances when every
  account with a balance in that commodity is classified, and that the income statement's
  net income is the balance sheet's unclosed net income.
- `app/main.rs`: the program: argument parsing (`clap`), file reading, printing.
- `tests/`: tests of the library on concrete journals.
