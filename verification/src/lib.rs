//! Ledger snapshots and their field-by-field equivalence.
//!
//! A ledger maps the address of each account to its entry: two balances, the
//! bytecode and a datastore. This crate builds such a ledger from its
//! initial entries ([`bootstrap::create_final_ledger`]) and tells whether two
//! ledgers hold the same state, naming the first difference where they do not
//! ([`bootstrap::assert_eq_ledger`], [`entry::assert_eq_ledger_entry`]).
//!
//! Ledgers are read through [`controller::LedgerController`]. What the
//! comparisons return is stated over the maps that the ledgers stand for:
//! see [`bootstrap::ledger_mismatch`] and [`entry::entry_mismatch`].

pub mod address;
pub mod amount;
pub mod assoc;
pub mod bootstrap;
pub mod bytes;
pub mod config;
pub mod controller;
pub mod datastore;
pub mod entry;
pub mod final_ledger;
pub mod ledger_db;
