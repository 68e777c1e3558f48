//! A ledger as it stands after the final blocks: a store and its parameters.

use vstd::prelude::*;
use crate::address::Address;
use crate::amount::Amount;
use crate::config::LedgerConfig;
use crate::controller::LedgerController;
use crate::datastore::Datastore;
use crate::entry::LedgerEntryView;
use crate::ledger_db::LedgerDB;

verus! {

/// A view of the whole ledger: the store that holds the entries, and the
/// parameters that the ledger was built with.
#[derive(Debug)]
pub struct FinalLedger {
    config: LedgerConfig,
    sorted_ledger: LedgerDB,
}

impl FinalLedger {
    /// The parameters of the ledger.
    pub closed spec fn spec_config(&self) -> LedgerConfig {
        self.config
    }

    /// The store of the ledger.
    pub closed spec fn spec_sorted_ledger(&self) -> &LedgerDB {
        &self.sorted_ledger
    }

    /// The ledger over the store `sorted_ledger`.
    pub fn new(config: LedgerConfig, sorted_ledger: LedgerDB) -> (ledger: FinalLedger)
        ensures
            ledger.spec_config() == config,
            *ledger.spec_sorted_ledger() == sorted_ledger,
    {
        FinalLedger { config, sorted_ledger }
    }

    /// The parameters of the ledger.
    #[verifier::when_used_as_spec(spec_config)]
    pub fn config(&self) -> (config: LedgerConfig)
        ensures
            config == self.spec_config(),
    {
        self.config
    }

    /// The store of the ledger.
    #[verifier::when_used_as_spec(spec_sorted_ledger)]
    pub fn sorted_ledger(&self) -> (store: &LedgerDB)
        ensures
            store == self.spec_sorted_ledger(),
    {
        &self.sorted_ledger
    }
}

impl LedgerController for FinalLedger {
    open spec fn ledger(&self) -> Map<Address, LedgerEntryView> {
        self.spec_sorted_ledger()@
    }

    fn get_every_address(&self) -> (listed: Vec<(Address, Amount)>) {
        self.sorted_ledger.get_every_address()
    }

    fn get_parallel_balance(&self, addr: &Address) -> (balance: Option<Amount>)
        ensures
            balance is Some <==> self.ledger().contains_key(*addr),
    {
        self.sorted_ledger.get_parallel_balance(addr)
    }

    fn get_bytecode(&self, addr: &Address) -> (bytecode: Option<Vec<u8>>)
        ensures
            bytecode is Some <==> self.ledger().contains_key(*addr),
    {
        self.sorted_ledger.get_bytecode(addr)
    }

    fn get_entire_datastore(&self, addr: &Address) -> (datastore: Datastore) {
        self.sorted_ledger.get_entire_datastore(addr)
    }
}

} // verus!
