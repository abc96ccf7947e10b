//! ferro_ledger: a plain-text, hledger-compatible general ledger.
pub mod text;
pub mod quantity;
pub mod date;
pub mod model;
pub mod parser;
pub mod ledger;
pub mod balance;
pub mod date_range;
pub mod period;
pub mod journal;
pub mod cli;
pub mod account_types;
pub mod layout;
pub mod reports;
