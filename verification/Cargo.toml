[package]
name = "ledger_equiv"
version = "0.1.0"
edition = "2021"
publish = false

[dependencies]
reqwest = { version = "0.11", default-features = false }
tempfile = "3"
thiserror = "1"
