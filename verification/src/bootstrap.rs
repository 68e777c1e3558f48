//! Building a ledger from its initial entries, and comparing two ledgers
//! address by address.

use vstd::prelude::*;
use crate::address::{address_lt, address_ranks, addresses_increase, find_address, Address};
use crate::amount::Amount;
use crate::assoc::{assoc_map, keys_of};
use crate::bytes::{lex_lt, lemma_lex_lt_asymmetric, lemma_lex_lt_irreflexive};
use crate::config::LedgerConfig;
use crate::controller::{enumerates, lemma_enumerates_len, LedgerController};
use crate::entry::{
    assert_eq_ledger_entry, entry_mismatch, lemma_entry_match_iff, same_but_sequential,
    EntryMismatch, EntryMismatchView, LedgerEntry, LedgerEntryView,
};
use crate::final_ledger::FinalLedger;
use crate::ledger_db::{entries_bounded, entry_views, usable_path, LedgerDB, StorageInitError};

verus! {

/// The entries that a ledger is built from: those given, or none.
pub open spec fn initial_entries(initial_ledger: Option<Vec<(Address, LedgerEntry)>>) -> Seq<
    (Address, LedgerEntryView),
> {
    match initial_ledger {
        Some(entries) => entry_views(entries@),
        None => Seq::empty(),
    }
}

/// Builds a ledger that holds the entries of `initial_ledger`, or none where
/// that is `None`, in a fresh store opened at `path` with the parameters of
/// `config`. Where an address comes twice in `initial_ledger`, its last entry
/// stays. No datastore key of `initial_ledger` may be longer than `config`
/// allows; a key of exactly that length is in order.
///
/// This fails where no store can be opened at `path`, and only there.
pub fn create_final_ledger(
    initial_ledger: Option<Vec<(Address, LedgerEntry)>>,
    config: LedgerConfig,
    path: String,
) -> (res: Result<FinalLedger, StorageInitError>)
    requires
        entries_bounded(initial_entries(initial_ledger), config.max_datastore_key_length as nat),
    ensures
        match res {
            Ok(ledger) => {
                &&& usable_path(path@)
                &&& ledger.ledger() == assoc_map(initial_entries(initial_ledger))
                &&& ledger.config() == config
                &&& ledger.sorted_ledger().spec_path() == path@
                &&& ledger.sorted_ledger().thread_count() == config.thread_count
                &&& ledger.sorted_ledger().max_datastore_key_length()
                    == config.max_datastore_key_length
                &&& ledger.sorted_ledger().max_ledger_part_size() == config.max_ledger_part_size
            },
            Err(error) => error == StorageInitError::UnusablePath && !usable_path(path@),
        },
{
    let mut db = match LedgerDB::new(
        path,
        config.thread_count,
        config.max_datastore_key_length,
        config.max_ledger_part_size,
    ) {
        Ok(db) => db,
        Err(error) => {
            return Err(error);
        },
    };
    match initial_ledger {
        Some(entries) => {
            db.load_initial_ledger(entries);
        },
        None => {},
    }
    proof {
        let loaded = assoc_map(initial_entries(initial_ledger));
        assert(Map::<Address, LedgerEntryView>::empty().union_prefer_right(loaded) =~= loaded);
    }
    Ok(FinalLedger::new(config, db))
}

/// The first way in which one ledger was found to differ from another.
#[derive(Debug, PartialEq, Eq)]
pub enum LedgerMismatch {
    /// The ledgers hold this many addresses, the first and the second.
    LedgerSizeMismatch(usize, usize),
    /// The second ledger lacks this address of the first.
    LedgerKeyMissing(Address),
    /// The entries of this address differ, in this way.
    Entry(Address, EntryMismatch),
}

/// A [`LedgerMismatch`] as a mathematical value.
pub enum LedgerMismatchView {
    /// The ledgers hold this many addresses, the first and the second.
    LedgerSizeMismatch(nat, nat),
    /// The second ledger lacks this address of the first.
    LedgerKeyMissing(Address),
    /// The entries of this address differ, in this way.
    Entry(Address, EntryMismatchView),
}

impl View for LedgerMismatch {
    type V = LedgerMismatchView;

    open spec fn view(&self) -> LedgerMismatchView {
        match self {
            LedgerMismatch::LedgerSizeMismatch(first, second) => LedgerMismatchView::LedgerSizeMismatch(
                *first as nat,
                *second as nat,
            ),
            LedgerMismatch::LedgerKeyMissing(address) => LedgerMismatchView::LedgerKeyMissing(
                *address,
            ),
            LedgerMismatch::Entry(address, mismatch) => LedgerMismatchView::Entry(
                *address,
                mismatch@,
            ),
        }
    }
}

/// `address` is an address of `a` that `b` lacks.
pub open spec fn address_missing(
    a: Map<Address, LedgerEntryView>,
    b: Map<Address, LedgerEntryView>,
    address: Address,
) -> bool {
    a.contains_key(address) && !b.contains_key(address)
}

/// `b` lacks the address `address` of `a`, and none that comes before it.
pub open spec fn is_first_missing_address(
    a: Map<Address, LedgerEntryView>,
    b: Map<Address, LedgerEntryView>,
    address: Address,
) -> bool {
    &&& address_missing(a, b, address)
    &&& forall|other: Address| #[trigger] address_missing(a, b, other) ==> !address_lt(other, address)
}

/// The least address of `a` that `b` lacks.
pub open spec fn first_missing_address(
    a: Map<Address, LedgerEntryView>,
    b: Map<Address, LedgerEntryView>,
) -> Address {
    choose|address: Address| is_first_missing_address(a, b, address)
}

/// `address` is in both ledgers, with entries that do not compare as equal.
pub open spec fn entries_differ(
    a: Map<Address, LedgerEntryView>,
    b: Map<Address, LedgerEntryView>,
    address: Address,
) -> bool {
    &&& a.contains_key(address)
    &&& b.contains_key(address)
    &&& entry_mismatch(a[address], b[address]) is Some
}

/// The entries of `address` differ, and those of no address before it do.
pub open spec fn is_first_differing_address(
    a: Map<Address, LedgerEntryView>,
    b: Map<Address, LedgerEntryView>,
    address: Address,
) -> bool {
    &&& entries_differ(a, b, address)
    &&& forall|other: Address| #[trigger] entries_differ(a, b, other) ==> !address_lt(other, address)
}

/// The least address whose entries differ.
pub open spec fn first_differing_address(
    a: Map<Address, LedgerEntryView>,
    b: Map<Address, LedgerEntryView>,
) -> Address {
    choose|address: Address| is_first_differing_address(a, b, address)
}

/// What the comparison of two ledgers reports: a difference in the number of
/// addresses first; then the least address of `a` that `b` lacks; then, at the
/// least address whose entries differ, what the comparison of those entries
/// reports.
pub open spec fn ledger_mismatch(
    a: Map<Address, LedgerEntryView>,
    b: Map<Address, LedgerEntryView>,
) -> Option<LedgerMismatchView> {
    if a.dom().len() != b.dom().len() {
        Some(LedgerMismatchView::LedgerSizeMismatch(a.dom().len(), b.dom().len()))
    } else if exists|address: Address| address_missing(a, b, address) {
        Some(LedgerMismatchView::LedgerKeyMissing(first_missing_address(a, b)))
    } else if exists|address: Address| entries_differ(a, b, address) {
        let address = first_differing_address(a, b);
        Some(LedgerMismatchView::Entry(address, entry_mismatch(a[address], b[address])->0))
    } else {
        None
    }
}

/// The mismatch that a result of [`assert_eq_ledger`] carries, if any.
pub open spec fn ledger_outcome(res: Result<(), LedgerMismatch>) -> Option<LedgerMismatchView> {
    match res {
        Ok(_) => None,
        Err(mismatch) => Some(mismatch@),
    }
}

/// There is only one first missing address.
pub proof fn lemma_first_missing_address(
    a: Map<Address, LedgerEntryView>,
    b: Map<Address, LedgerEntryView>,
    address: Address,
)
    requires
        is_first_missing_address(a, b, address),
    ensures
        first_missing_address(a, b) == address,
{
    let chosen = first_missing_address(a, b);
    assert(is_first_missing_address(a, b, chosen));
    Address::lemma_order_total(chosen, address);
}

/// There is only one first differing address.
pub proof fn lemma_first_differing_address(
    a: Map<Address, LedgerEntryView>,
    b: Map<Address, LedgerEntryView>,
    address: Address,
)
    requires
        is_first_differing_address(a, b, address),
    ensures
        first_differing_address(a, b) == address,
{
    let chosen = first_differing_address(a, b);
    assert(is_first_differing_address(a, b, chosen));
    Address::lemma_order_total(chosen, address);
}

/// A ledger compares as equal to itself. So do two ledgers built from the
/// same initial entries, which hold the same map.
pub proof fn lemma_ledger_reflexive(a: Map<Address, LedgerEntryView>)
    ensures
        ledger_mismatch(a, a) is None,
{
}

/// Two ledgers without any address compare as equal.
pub proof fn lemma_empty_ledgers()
    ensures
        ledger_mismatch(
            Map::<Address, LedgerEntryView>::empty(),
            Map::<Address, LedgerEntryView>::empty(),
        ) is None,
{
}

/// Two ledgers that hold different numbers of addresses are reported as a
/// size mismatch, with both numbers.
pub proof fn lemma_size_mismatch(
    a: Map<Address, LedgerEntryView>,
    b: Map<Address, LedgerEntryView>,
)
    requires
        a.dom().len() != b.dom().len(),
    ensures
        ledger_mismatch(a, b) == Some(
            LedgerMismatchView::LedgerSizeMismatch(a.dom().len(), b.dom().len()),
        ),
{
}

/// Where two ledgers hold as many addresses, the least address of the first
/// that the second lacks is reported as missing.
pub proof fn lemma_missing_address(
    a: Map<Address, LedgerEntryView>,
    b: Map<Address, LedgerEntryView>,
    address: Address,
)
    requires
        a.dom().len() == b.dom().len(),
        is_first_missing_address(a, b, address),
    ensures
        ledger_mismatch(a, b) == Some(LedgerMismatchView::LedgerKeyMissing(address)),
{
    lemma_first_missing_address(a, b, address);
}

/// Where two ledgers hold the same addresses, the least address whose
/// entries differ is reported, with what the comparison of its entries
/// reports.
pub proof fn lemma_entry_mismatch_reported(
    a: Map<Address, LedgerEntryView>,
    b: Map<Address, LedgerEntryView>,
    address: Address,
)
    requires
        a.dom() == b.dom(),
        is_first_differing_address(a, b, address),
    ensures
        ledger_mismatch(a, b) == Some(
            LedgerMismatchView::Entry(address, entry_mismatch(a[address], b[address])->0),
        ),
{
    lemma_first_differing_address(a, b, address);
}

/// The comparison of two ledgers finds no difference exactly when they hold
/// the same addresses and, under each, entries with the same parallel
/// balance, bytecode and datastore.
pub proof fn lemma_ledger_match_iff(
    a: Map<Address, LedgerEntryView>,
    b: Map<Address, LedgerEntryView>,
)
    requires
        a.dom().finite(),
        b.dom().finite(),
        forall|address: Address| #[trigger]
            a.contains_key(address) ==> a[address].datastore.dom().finite(),
        forall|address: Address| #[trigger]
            b.contains_key(address) ==> b[address].datastore.dom().finite(),
    ensures
        ledger_mismatch(a, b) is None <==> {
            &&& a.dom() == b.dom()
            &&& forall|address: Address| #[trigger]
                a.contains_key(address) ==> same_but_sequential(a[address], b[address])
        },
{
    if ledger_mismatch(a, b) is None {
        assert forall|address: Address| a.dom().contains(address) implies b.dom().contains(
            address,
        ) by {
            assert(!address_missing(a, b, address));
        }
        vstd::set_lib::lemma_subset_equality(a.dom(), b.dom());
        assert forall|address: Address| #[trigger]
            a.contains_key(address) implies same_but_sequential(a[address], b[address]) by {
            assert(!entries_differ(a, b, address));
            lemma_entry_match_iff(a[address], b[address]);
        }
    }
    if a.dom() == b.dom() && (forall|address: Address| #[trigger]
        a.contains_key(address) ==> same_but_sequential(a[address], b[address])) {
        assert forall|address: Address| !entries_differ(a, b, address) by {
            if a.contains_key(address) {
                lemma_entry_match_iff(a[address], b[address]);
            }
        }
    }
}

/// In an increasing enumeration, no address from index `from` on comes
/// before the address at `from`.
proof fn lemma_not_before(listed: Seq<(Address, Amount)>, from: int, at: int)
    requires
        addresses_increase(listed),
        0 <= from <= at < listed.len(),
    ensures
        !address_lt(listed[at].0, listed[from].0),
{
    let ranks = address_ranks(keys_of(listed));
    if from == at {
        lemma_lex_lt_irreflexive(ranks[at]);
    } else {
        assert(lex_lt(ranks[from], ranks[at]));
        lemma_lex_lt_asymmetric(ranks[from], ranks[at]);
    }
}

/// Reads the entry of `addr` out of `ledger`, field by field. The sequential
/// balance is the one that the enumeration of the ledger gave.
fn read_entry(ledger: &Box<dyn LedgerController>, addr: &Address, sequential_balance: Amount) -> (entry:
    LedgerEntry)
    requires
        ledger.ledger().contains_key(*addr),
        ledger.ledger()[*addr].sequential_balance == sequential_balance@,
    ensures
        entry@ == ledger.ledger()[*addr],
{
    let parallel_balance = match ledger.get_parallel_balance(addr) {
        Some(amount) => amount,
        None => Amount::zero(),
    };
    let bytecode = match ledger.get_bytecode(addr) {
        Some(code) => code,
        None => Vec::new(),
    };
    let datastore = ledger.get_entire_datastore(addr);
    let entry = LedgerEntry { sequential_balance, parallel_balance, bytecode, datastore };
    proof {
        assert(entry@.bytecode =~= ledger.ledger()[*addr].bytecode);
    }
    entry
}

/// Compares two ledgers and reports the first difference.
///
/// The addresses of both are enumerated. Where their numbers differ, that is
/// reported. Else each address of `v1` is looked up in `v2`, in increasing
/// order, and the first that `v2` lacks is reported. Else the entries of each
/// address are read from both ledgers and compared, in increasing order of
/// the addresses, and the first difference is reported with its address.
///
/// Each entry is read by several calls. The result is that of the ledgers as
/// they stand only if nothing writes to them during the comparison.
pub fn assert_eq_ledger(v1: &Box<dyn LedgerController>, v2: &Box<dyn LedgerController>) -> (res:
    Result<(), LedgerMismatch>)
    ensures
        ledger_outcome(res) == ledger_mismatch(v1.ledger(), v2.ledger()),
{
    let ghost a = v1.ledger();
    let ghost b = v2.ledger();
    let listed1 = v1.get_every_address();
    let listed2 = v2.get_every_address();
    proof {
        lemma_enumerates_len(listed1@, a);
        lemma_enumerates_len(listed2@, b);
    }
    if listed1.len() != listed2.len() {
        return Err(LedgerMismatch::LedgerSizeMismatch(listed1.len(), listed2.len()));
    }
    let mut positions: Vec<usize> = Vec::new();
    let mut i: usize = 0;
    while i < listed1.len()
        invariant
            i <= listed1.len(),
            positions.len() == i,
            a == v1.ledger(),
            b == v2.ledger(),
            enumerates(listed1@, a),
            enumerates(listed2@, b),
            a.dom().len() == b.dom().len(),
            forall|j: int|
                0 <= j < i ==> (#[trigger] positions[j]) < listed2.len() && listed2[positions[j] as int].0
                    == listed1[j].0,
        decreases listed1.len() - i,
    {
        let (at, found) = find_address(&listed2, &listed1[i].0);
        if !found {
            let address = listed1[i].0;
            proof {
                assert(address_missing(a, b, address));
                assert forall|other: Address| #[trigger]
                    address_missing(a, b, other) implies !address_lt(other, address) by {
                    let j = choose|j: int| 0 <= j < listed1.len() && #[trigger] listed1[j].0 == other;
                    if j < i {
                        assert(b.contains_key(listed2[positions[j] as int].0));
                    } else {
                        lemma_not_before(listed1@, i as int, j);
                    }
                }
                lemma_first_missing_address(a, b, address);
            }
            return Err(LedgerMismatch::LedgerKeyMissing(address));
        }
        positions.push(at);
        i += 1;
    }
    proof {
        assert forall|address: Address| !address_missing(a, b, address) by {
            if a.contains_key(address) {
                let j = choose|j: int| 0 <= j < listed1.len() && #[trigger] listed1[j].0 == address;
                assert(b.contains_key(listed2[positions[j] as int].0));
            }
        }
    }
    let mut i: usize = 0;
    while i < listed1.len()
        invariant
            i <= listed1.len(),
            positions.len() == listed1.len(),
            a == v1.ledger(),
            b == v2.ledger(),
            enumerates(listed1@, a),
            enumerates(listed2@, b),
            a.dom().len() == b.dom().len(),
            forall|address: Address| !address_missing(a, b, address),
            forall|j: int|
                0 <= j < listed1.len() ==> (#[trigger] positions[j]) < listed2.len()
                    && listed2[positions[j] as int].0 == listed1[j].0,
            forall|j: int| 0 <= j < i ==> !entries_differ(a, b, (#[trigger] listed1[j]).0),
        decreases listed1.len() - i,
    {
        let address = listed1[i].0;
        let at = positions[i];
        assert(b.contains_key(listed2[at as int].0));
        let entry1 = read_entry(v1, &address, listed1[i].1);
        let entry2 = read_entry(v2, &address, listed2[at].1);
        match assert_eq_ledger_entry(&entry1, &entry2) {
            Ok(_) => {},
            Err(mismatch) => {
                proof {
                    assert(entries_differ(a, b, address));
                    assert forall|other: Address| #[trigger]
                        entries_differ(a, b, other) implies !address_lt(other, address) by {
                        let j = choose|j: int|
                            0 <= j < listed1.len() && #[trigger] listed1[j].0 == other;
                        if j >= i {
                            lemma_not_before(listed1@, i as int, j);
                        }
                    }
                    lemma_first_differing_address(a, b, address);
                }
                return Err(LedgerMismatch::Entry(address, mismatch));
            },
        }
        i += 1;
    }
    proof {
        assert forall|address: Address| !entries_differ(a, b, address) by {
            if a.contains_key(address) {
                let j = choose|j: int| 0 <= j < listed1.len() && #[trigger] listed1[j].0 == address;
                assert(!entries_differ(a, b, listed1[j].0));
            }
        }
    }
    Ok(())
}

} // verus!
