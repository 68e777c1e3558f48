//! What a ledger must offer to be read.

use vstd::prelude::*;
use crate::address::{addresses_increase, Address};
use crate::amount::Amount;
use crate::assoc::{has_key, keys_of};
use crate::datastore::Datastore;
use crate::entry::LedgerEntryView;

verus! {

/// `listed` names each address of `ledger` once, in increasing order, with
/// its sequential balance.
pub open spec fn enumerates(
    listed: Seq<(Address, Amount)>,
    ledger: Map<Address, LedgerEntryView>,
) -> bool {
    &&& addresses_increase(listed)
    &&& forall|i: int|
        0 <= i < listed.len() ==> ledger.contains_key(#[trigger] listed[i].0)
            && ledger[listed[i].0].sequential_balance == listed[i].1@
    &&& forall|address: Address| #[trigger] ledger.contains_key(address) ==> has_key(listed, address)
}

/// A ledger that can be read: logically a mapping from addresses to entries,
/// whatever holds it.
///
/// The readers are independent of each other. What they return fits together
/// as long as nothing writes to the ledger between the calls.
pub trait LedgerController {
    /// The entries of the ledger, by address. An implementation says what
    /// they are; one that does not is held to the ledger without entries.
    open spec fn ledger(&self) -> Map<Address, LedgerEntryView> {
        Map::empty()
    }

    /// Every address of the ledger, in increasing order, each with its
    /// sequential balance.
    fn get_every_address(&self) -> (listed: Vec<(Address, Amount)>)
        ensures
            enumerates(listed@, self.ledger()),
    ;

    /// The parallel balance of `addr`. A ledger may answer `None` for an
    /// address that it does not know, or whose parallel balance is zero.
    fn get_parallel_balance(&self, addr: &Address) -> (balance: Option<Amount>)
        ensures
            match balance {
                Some(amount) => self.ledger().contains_key(*addr) && amount@
                    == self.ledger()[*addr].parallel_balance,
                None => self.ledger().contains_key(*addr) ==> self.ledger()[*addr].parallel_balance
                    == 0,
            },
    ;

    /// The bytecode of `addr`. A ledger may answer `None` for an address that
    /// it does not know, or that has no code.
    fn get_bytecode(&self, addr: &Address) -> (bytecode: Option<Vec<u8>>)
        ensures
            match bytecode {
                Some(code) => self.ledger().contains_key(*addr) && code@
                    == self.ledger()[*addr].bytecode,
                None => self.ledger().contains_key(*addr) ==> self.ledger()[*addr].bytecode.len()
                    == 0,
            },
    ;

    /// The whole datastore of `addr`; the empty one for an address that the
    /// ledger does not know.
    fn get_entire_datastore(&self, addr: &Address) -> (datastore: Datastore)
        ensures
            datastore@ == if self.ledger().contains_key(*addr) {
                self.ledger()[*addr].datastore
            } else {
                Map::empty()
            },
    ;
}

/// A ledger has as many addresses as its enumeration has pairs.
pub proof fn lemma_enumerates_len(
    listed: Seq<(Address, Amount)>,
    ledger: Map<Address, LedgerEntryView>,
)
    requires
        enumerates(listed, ledger),
    ensures
        ledger.dom().finite(),
        ledger.dom().len() == listed.len(),
{
    crate::address::lemma_addresses_distinct(listed);
    let addresses = keys_of(listed);
    assert(addresses.to_set() =~= ledger.dom()) by {
        assert forall|address: Address| ledger.dom().contains(address) implies addresses.to_set().contains(
            address,
        ) by {
            let i = choose|i: int| 0 <= i < listed.len() && #[trigger] listed[i].0 == address;
            assert(addresses[i] == address);
        }
    }
    addresses.unique_seq_to_set();
    vstd::seq_lib::seq_to_set_is_finite(addresses);
}

} // verus!
