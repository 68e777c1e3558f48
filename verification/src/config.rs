//! The parameters of a ledger.

use vstd::prelude::*;

verus! {

/// The static parameters that a ledger is built with.
#[derive(Debug, Clone, Copy, PartialEq, Eq, Structural)]
pub struct LedgerConfig {
    /// The number of threads, and so of shards, that addresses are spread over.
    pub thread_count: u8,
    /// The greatest length, in bytes, that a datastore key may have.
    pub max_datastore_key_length: u8,
    /// The greatest size, in bytes, of one part of the ledger sent to a peer.
    pub max_ledger_part_size: u64,
}

} // verus!
