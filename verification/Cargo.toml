[package]
name = "ferro_ledger"
version = "0.1.0"
edition = "2021"
publish = false

[dependencies]
chrono = "0.4"
rust_decimal = "1"
clap = { version = "4", features = ["derive"] }
thiserror = "2"
