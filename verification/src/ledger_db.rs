//! The store that holds the entries of a ledger.

use vstd::prelude::*;
use crate::address::{
    address_lt, address_ranks, addresses_increase, find_address, lemma_addresses_distinct, Address,
};
use crate::amount::Amount;
use crate::assoc::{
    assoc_map, has_key, keys_of, lemma_assoc_distinct, lemma_assoc_dom, lemma_assoc_insert,
    lemma_assoc_update, lemma_increasing_insert,
};
use crate::controller::enumerates;
use crate::datastore::{keys_bounded, Datastore};
use crate::entry::{LedgerEntry, LedgerEntryView};

verus! {

/// Why a store could not be opened.
#[derive(Debug, Clone, Copy, PartialEq, Eq, Structural)]
pub enum StorageInitError {
    /// The location given for the store cannot be used.
    UnusablePath,
}

/// A store can be opened at any location but the empty one.
pub open spec fn usable_path(path: Seq<char>) -> bool {
    path.len() > 0
}

/// What a vector of stored entries holds, as mathematical values.
pub open spec fn entry_views(entries: Seq<(Address, LedgerEntry)>) -> Seq<
    (Address, LedgerEntryView),
> {
    Seq::new(entries.len(), |i: int| (entries[i].0, entries[i].1@))
}

/// No datastore among `entries` has a key longer than `max_key_length` bytes.
pub open spec fn entries_bounded(
    entries: Seq<(Address, LedgerEntryView)>,
    max_key_length: nat,
) -> bool {
    forall|i: int|
        0 <= i < entries.len() ==> keys_bounded((#[trigger] entries[i]).1.datastore, max_key_length)
}

/// Loading the same entries a second time changes nothing.
pub proof fn lemma_load_idempotent(
    before: Map<Address, LedgerEntryView>,
    loaded: Map<Address, LedgerEntryView>,
)
    ensures
        before.union_prefer_right(loaded).union_prefer_right(loaded) == before.union_prefer_right(
            loaded,
        ),
{
    assert(before.union_prefer_right(loaded).union_prefer_right(loaded)
        =~= before.union_prefer_right(loaded));
}

/// Whether no datastore among `entries` has a key longer than
/// `max_key_length` bytes.
pub fn entries_within(entries: &Vec<(Address, LedgerEntry)>, max_key_length: u8) -> (within: bool)
    ensures
        within == entries_bounded(entry_views(entries@), max_key_length as nat),
{
    let mut i: usize = 0;
    while i < entries.len()
        invariant
            i <= entries.len(),
            forall|j: int|
                0 <= j < i ==> keys_bounded(
                    (#[trigger] entry_views(entries@)[j]).1.datastore,
                    max_key_length as nat,
                ),
        decreases entries.len() - i,
    {
        if !entries[i].1.datastore.keys_within(max_key_length as usize) {
            assert(!keys_bounded(entry_views(entries@)[i as int].1.datastore, max_key_length as nat));
            return false;
        }
        assert(keys_bounded(entry_views(entries@)[i as int].1.datastore, max_key_length as nat));
        i += 1;
    }
    true
}

/// The entries of a ledger, kept in the order of their addresses, together
/// with the parameters that the store was opened with.
#[derive(Debug)]
pub struct LedgerDB {
    path: String,
    thread_count: u8,
    max_datastore_key_length: u8,
    max_ledger_part_size: u64,
    entries: Vec<(Address, LedgerEntry)>,
}

impl View for LedgerDB {
    type V = Map<Address, LedgerEntryView>;

    closed spec fn view(&self) -> Map<Address, LedgerEntryView> {
        assoc_map(entry_views(self.entries@))
    }
}

impl LedgerDB {
    /// The location is usable, the entries are ordered by address, and no
    /// datastore key is longer than the store allows.
    #[verifier::type_invariant]
    spec fn well_formed(self) -> bool {
        &&& usable_path(self.path@)
        &&& addresses_increase(entry_views(self.entries@))
        &&& entries_bounded(entry_views(self.entries@), self.max_datastore_key_length as nat)
    }

    /// The location that the store was opened at.
    pub closed spec fn spec_path(&self) -> Seq<char> {
        self.path@
    }

    /// The location that the store was opened at.
    pub fn path(&self) -> (path: &str)
        ensures
            path@ == self.spec_path(),
    {
        self.path.as_str()
    }

    /// The number of shards that the store was opened with.
    pub closed spec fn spec_thread_count(&self) -> u8 {
        self.thread_count
    }

    /// The number of shards that the store was opened with.
    #[verifier::when_used_as_spec(spec_thread_count)]
    pub fn thread_count(&self) -> (count: u8)
        ensures
            count == self.spec_thread_count(),
    {
        self.thread_count
    }

    /// The greatest length of a datastore key that the store allows.
    pub closed spec fn spec_max_datastore_key_length(&self) -> u8 {
        self.max_datastore_key_length
    }

    /// The greatest length of a datastore key that the store allows.
    #[verifier::when_used_as_spec(spec_max_datastore_key_length)]
    pub fn max_datastore_key_length(&self) -> (length: u8)
        ensures
            length == self.spec_max_datastore_key_length(),
    {
        self.max_datastore_key_length
    }

    /// The greatest size of a ledger part that the store was opened with.
    pub closed spec fn spec_max_ledger_part_size(&self) -> u64 {
        self.max_ledger_part_size
    }

    /// The greatest size of a ledger part that the store was opened with.
    #[verifier::when_used_as_spec(spec_max_ledger_part_size)]
    pub fn max_ledger_part_size(&self) -> (size: u64)
        ensures
            size == self.spec_max_ledger_part_size(),
    {
        self.max_ledger_part_size
    }

    /// What follows from the order of the entries.
    proof fn lemma_well_formed(&self)
        requires
            self.well_formed(),
        ensures
            addresses_increase(self.entries@),
            self@.dom().finite(),
            self@.dom().len() == self.entries.len(),
            forall|i: int|
                0 <= i < self.entries.len() ==> self@.contains_key((#[trigger] self.entries[i]).0)
                    && self@[self.entries[i].0] == self.entries[i].1@,
            forall|address: Address| #[trigger]
                self@.contains_key(address) <==> has_key(self.entries@, address),
            forall|address: Address| #[trigger]
                self@.contains_key(address) ==> keys_bounded(
                    self@[address].datastore,
                    self.max_datastore_key_length as nat,
                ),
    {
        let pairs = entry_views(self.entries@);
        assert(address_ranks(keys_of(self.entries@)) =~= address_ranks(keys_of(pairs)));
        lemma_addresses_distinct(pairs);
        lemma_assoc_dom(pairs);
        lemma_assoc_distinct(pairs);
        assert forall|i: int| 0 <= i < self.entries.len() implies self@.contains_key(
            (#[trigger] self.entries[i]).0,
        ) && self@[self.entries[i].0] == self.entries[i].1@ by {
            assert(pairs[i].0 == self.entries[i].0);
        }
        assert forall|address: Address| #[trigger]
            self@.contains_key(address) <==> has_key(self.entries@, address) by {
            if has_key(pairs, address) {
                let i = choose|i: int| 0 <= i < pairs.len() && #[trigger] pairs[i].0 == address;
                assert(self.entries[i].0 == address);
            }
            if has_key(self.entries@, address) {
                let i = choose|i: int|
                    0 <= i < self.entries.len() && #[trigger] self.entries[i].0 == address;
                assert(pairs[i].0 == address);
            }
        }
        assert forall|address: Address| #[trigger] self@.contains_key(address) implies keys_bounded(
            self@[address].datastore,
            self.max_datastore_key_length as nat,
        ) by {
            let i = choose|i: int| 0 <= i < pairs.len() && #[trigger] pairs[i].0 == address;
            assert(self@[pairs[i].0] == pairs[i].1);
        }
    }

    /// Opens an empty store at `path`. This fails on a location that cannot
    /// be used, and on no other.
    pub fn new(
        path: String,
        thread_count: u8,
        max_datastore_key_length: u8,
        max_ledger_part_size: u64,
    ) -> (res: Result<LedgerDB, StorageInitError>)
        ensures
            match res {
                Ok(db) => {
                    &&& usable_path(path@)
                    &&& db@ == Map::<Address, LedgerEntryView>::empty()
                    &&& db.spec_path() == path@
                    &&& db.thread_count() == thread_count
                    &&& db.max_datastore_key_length() == max_datastore_key_length
                    &&& db.max_ledger_part_size() == max_ledger_part_size
                },
                Err(error) => error == StorageInitError::UnusablePath && !usable_path(path@),
            },
    {
        if path.as_str().is_empty() {
            return Err(StorageInitError::UnusablePath);
        }
        Ok(
            LedgerDB {
                path,
                thread_count,
                max_datastore_key_length,
                max_ledger_part_size,
                entries: Vec::new(),
            },
        )
    }

    /// Stores `entry` under `addr`, in place of the entry that `addr` had, if
    /// it had one. No key of the entry's datastore may be longer than the
    /// store allows.
    pub fn put_entry(&mut self, addr: Address, entry: LedgerEntry)
        requires
            keys_bounded(entry@.datastore, old(self).max_datastore_key_length() as nat),
        ensures
            final(self)@ == old(self)@.insert(addr, entry@),
            final(self).spec_path() == old(self).spec_path(),
            final(self).thread_count() == old(self).thread_count(),
            final(self).max_datastore_key_length() == old(self).max_datastore_key_length(),
            final(self).max_ledger_part_size() == old(self).max_ledger_part_size(),
    {
        proof {
            use_type_invariant(&*self);
            self.lemma_well_formed();
            lemma_addresses_distinct(entry_views(self.entries@));
        }
        let (at, found) = find_address(&self.entries, &addr);
        let mut entries: Vec<(Address, LedgerEntry)> = Vec::new();
        core::mem::swap(&mut entries, &mut self.entries);
        let ghost before = entry_views(entries@);
        let ghost stored = entry@;
        if found {
            let mut pair = (addr, entry);
            core::mem::swap(&mut entries[at], &mut pair);
            proof {
                assert(before[at as int].0 == addr);
                assert(entry_views(entries@) =~= before.update(at as int, (addr, stored)));
                lemma_assoc_update(before, at as int, stored);
                assert(address_ranks(keys_of(entry_views(entries@))) =~= address_ranks(
                    keys_of(before),
                ));
            }
        } else {
            entries.insert(at, (addr, entry));
            proof {
                assert(entry_views(entries@) =~= before.insert(at as int, (addr, stored)));
                assert(!has_key(before, addr)) by {
                    if has_key(before, addr) {
                        let i = choose|i: int|
                            0 <= i < before.len() && #[trigger] before[i].0 == addr;
                        assert(old(self).entries[i].0 == addr);
                    }
                }
                lemma_assoc_insert(before, at as int, addr, stored);
                let ranks = address_ranks(keys_of(before));
                assert forall|i: int| 0 <= i < at implies crate::bytes::lex_lt(
                    #[trigger] ranks[i],
                    addr.rank(),
                ) by {
                    assert(address_lt(old(self).entries[i].0, addr));
                }
                if at < ranks.len() {
                    assert(address_lt(addr, old(self).entries[at as int].0));
                }
                lemma_increasing_insert(ranks, at as int, addr.rank());
                assert(address_ranks(keys_of(entry_views(entries@))) =~= ranks.insert(
                    at as int,
                    addr.rank(),
                ));
            }
        }
        self.entries = entries;
    }

    /// Stores every entry of `initial_ledger` under its address, in the order
    /// given: where an address comes twice, its last entry stays. No
    /// datastore key of the entries may be longer than the store allows.
    pub fn load_initial_ledger(&mut self, initial_ledger: Vec<(Address, LedgerEntry)>)
        requires
            entries_bounded(
                entry_views(initial_ledger@),
                old(self).max_datastore_key_length() as nat,
            ),
        ensures
            final(self)@ == old(self)@.union_prefer_right(assoc_map(entry_views(initial_ledger@))),
            final(self).spec_path() == old(self).spec_path(),
            final(self).thread_count() == old(self).thread_count(),
            final(self).max_datastore_key_length() == old(self).max_datastore_key_length(),
            final(self).max_ledger_part_size() == old(self).max_ledger_part_size(),
    {
        let ghost loaded = entry_views(initial_ledger@);
        let mut i: usize = 0;
        proof {
            assert(self@ =~= old(self)@.union_prefer_right(assoc_map(loaded.take(0))));
        }
        while i < initial_ledger.len()
            invariant
                i <= initial_ledger.len(),
                loaded == entry_views(initial_ledger@),
                entries_bounded(loaded, self.max_datastore_key_length() as nat),
                self@ == old(self)@.union_prefer_right(assoc_map(loaded.take(i as int))),
                self.spec_path() == old(self).spec_path(),
                self.thread_count() == old(self).thread_count(),
                self.max_datastore_key_length() == old(self).max_datastore_key_length(),
                self.max_ledger_part_size() == old(self).max_ledger_part_size(),
            decreases initial_ledger.len() - i,
        {
            let addr = initial_ledger[i].0;
            let entry = initial_ledger[i].1.clone();
            proof {
                assert(loaded[i as int].1 == entry@);
                let next = loaded.take(i + 1);
                assert(next.drop_last() =~= loaded.take(i as int));
                assert(next.last() == (addr, entry@));
                assert(old(self)@.union_prefer_right(assoc_map(next)) =~= old(
                    self,
                )@.union_prefer_right(assoc_map(loaded.take(i as int))).insert(addr, entry@));
            }
            self.put_entry(addr, entry);
            i += 1;
        }
        proof {
            assert(loaded.take(i as int) =~= loaded);
        }
    }

    /// Every address of the store, in increasing order, each with its
    /// sequential balance.
    pub fn get_every_address(&self) -> (listed: Vec<(Address, Amount)>)
        ensures
            enumerates(listed@, self@),
    {
        proof {
            use_type_invariant(&*self);
            self.lemma_well_formed();
        }
        let mut listed: Vec<(Address, Amount)> = Vec::new();
        let mut i: usize = 0;
        while i < self.entries.len()
            invariant
                i <= self.entries.len(),
                listed.len() == i,
                forall|j: int|
                    0 <= j < i ==> (#[trigger] listed[j]).0 == self.entries[j].0 && listed[j].1
                        == self.entries[j].1.sequential_balance,
            decreases self.entries.len() - i,
        {
            listed.push((self.entries[i].0, self.entries[i].1.sequential_balance));
            i += 1;
        }
        proof {
            assert(address_ranks(keys_of(listed@)) =~= address_ranks(
                keys_of(entry_views(self.entries@)),
            ));
            assert forall|address: Address| #[trigger] self@.contains_key(address) implies has_key(
                listed@,
                address,
            ) by {
                let j = choose|j: int|
                    0 <= j < self.entries.len() && #[trigger] self.entries[j].0 == address;
                assert(listed[j].0 == address);
            }
        }
        listed
    }

    /// The entry stored under `addr`, if there is one.
    fn get_entry(&self, addr: &Address) -> (entry: Option<&LedgerEntry>)
        ensures
            match entry {
                Some(stored) => self@.contains_key(*addr) && stored@ == self@[*addr],
                None => !self@.contains_key(*addr),
            },
    {
        proof {
            use_type_invariant(&*self);
            self.lemma_well_formed();
        }
        let (at, found) = find_address(&self.entries, addr);
        if found {
            Some(&self.entries[at].1)
        } else {
            None
        }
    }

    /// The parallel balance of `addr`; `None` where the store does not know
    /// the address.
    pub fn get_parallel_balance(&self, addr: &Address) -> (balance: Option<Amount>)
        ensures
            match balance {
                Some(amount) => self@.contains_key(*addr) && amount@
                    == self@[*addr].parallel_balance,
                None => !self@.contains_key(*addr),
            },
    {
        match self.get_entry(addr) {
            Some(entry) => Some(entry.parallel_balance),
            None => None,
        }
    }

    /// The bytecode of `addr`; `None` where the store does not know the
    /// address.
    pub fn get_bytecode(&self, addr: &Address) -> (bytecode: Option<Vec<u8>>)
        ensures
            match bytecode {
                Some(code) => self@.contains_key(*addr) && code@ == self@[*addr].bytecode,
                None => !self@.contains_key(*addr),
            },
    {
        match self.get_entry(addr) {
            Some(entry) => Some(vstd::slice::slice_to_vec(entry.bytecode.as_slice())),
            None => None,
        }
    }

    /// The whole datastore of `addr`; the empty one where the store does not
    /// know the address. No key of it is longer than the store allows.
    pub fn get_entire_datastore(&self, addr: &Address) -> (datastore: Datastore)
        ensures
            datastore@ == if self@.contains_key(*addr) {
                self@[*addr].datastore
            } else {
                Map::empty()
            },
            keys_bounded(datastore@, self.max_datastore_key_length() as nat),
    {
        proof {
            use_type_invariant(&*self);
            self.lemma_well_formed();
        }
        match self.get_entry(addr) {
            Some(entry) => entry.datastore.clone(),
            None => Datastore::new(),
        }
    }
}

} // verus!
