//! Ledger entries and their field-by-field comparison.

use vstd::prelude::*;
use crate::amount::Amount;
use crate::assoc::increasing;
use crate::bytes::{
    bytes_order, lex_lt, lemma_lex_lt_asymmetric, lemma_lex_lt_irreflexive, lemma_lex_lt_total,
    ByteOrder,
};
use crate::datastore::{key_views, Datastore};

verus! {

/// The complete state of one account.
#[derive(Debug, PartialEq, Eq)]
pub struct LedgerEntry {
    /// The balance that sequential execution sees.
    pub sequential_balance: Amount,
    /// The balance that parallel execution sees.
    pub parallel_balance: Amount,
    /// The executable code of the account; empty where it has none.
    pub bytecode: Vec<u8>,
    /// The key/value store of the account.
    pub datastore: Datastore,
}

/// What a ledger entry holds, as mathematical values.
pub struct LedgerEntryView {
    /// The sequential balance, in units.
    pub sequential_balance: nat,
    /// The parallel balance, in units.
    pub parallel_balance: nat,
    /// The bytes of the code.
    pub bytecode: Seq<u8>,
    /// The values of the datastore, by key.
    pub datastore: Map<Seq<u8>, Seq<u8>>,
}

impl View for LedgerEntry {
    type V = LedgerEntryView;

    open spec fn view(&self) -> LedgerEntryView {
        LedgerEntryView {
            sequential_balance: self.sequential_balance@,
            parallel_balance: self.parallel_balance@,
            bytecode: self.bytecode@,
            datastore: self.datastore@,
        }
    }
}

impl Default for LedgerEntry {
    /// The entry of an account that holds nothing: zero balances, no code,
    /// no data.
    fn default() -> (entry: LedgerEntry)
        ensures
            entry@ == empty_entry(),
    {
        LedgerEntry {
            sequential_balance: Amount::zero(),
            parallel_balance: Amount::zero(),
            bytecode: Vec::new(),
            datastore: Datastore::new(),
        }
    }
}

impl Clone for LedgerEntry {
    /// An entry that holds the same state.
    fn clone(&self) -> (copy: LedgerEntry)
        ensures
            copy@ == self@,
    {
        LedgerEntry {
            sequential_balance: self.sequential_balance,
            parallel_balance: self.parallel_balance,
            bytecode: vstd::slice::slice_to_vec(self.bytecode.as_slice()),
            datastore: self.datastore.clone(),
        }
    }
}

/// The state of an account that holds nothing.
pub open spec fn empty_entry() -> LedgerEntryView {
    LedgerEntryView {
        sequential_balance: 0,
        parallel_balance: 0,
        bytecode: Seq::empty(),
        datastore: Map::empty(),
    }
}

/// The first way in which one entry was found to differ from another.
#[derive(Debug, PartialEq, Eq)]
pub enum EntryMismatch {
    /// The parallel balances differ.
    ParallelBalanceMismatch,
    /// The bytecodes differ.
    BytecodeMismatch,
    /// The datastores do not hold the same number of keys.
    DatastoreSizeMismatch,
    /// The second datastore lacks this key of the first.
    DatastoreKeyMissing(Vec<u8>),
    /// The two datastores map this key to different values.
    DatastoreValueMismatch(Vec<u8>),
}

/// An [`EntryMismatch`] as a mathematical value.
pub enum EntryMismatchView {
    /// The parallel balances differ.
    ParallelBalanceMismatch,
    /// The bytecodes differ.
    BytecodeMismatch,
    /// The datastores do not hold the same number of keys.
    DatastoreSizeMismatch,
    /// The second datastore lacks this key of the first.
    DatastoreKeyMissing(Seq<u8>),
    /// The two datastores map this key to different values.
    DatastoreValueMismatch(Seq<u8>),
}

impl View for EntryMismatch {
    type V = EntryMismatchView;

    open spec fn view(&self) -> EntryMismatchView {
        match self {
            EntryMismatch::ParallelBalanceMismatch => EntryMismatchView::ParallelBalanceMismatch,
            EntryMismatch::BytecodeMismatch => EntryMismatchView::BytecodeMismatch,
            EntryMismatch::DatastoreSizeMismatch => EntryMismatchView::DatastoreSizeMismatch,
            EntryMismatch::DatastoreKeyMissing(key) => EntryMismatchView::DatastoreKeyMissing(key@),
            EntryMismatch::DatastoreValueMismatch(key) => EntryMismatchView::DatastoreValueMismatch(
                key@,
            ),
        }
    }
}

/// `key` is a key of `a` that `b` lacks or maps to another value.
pub open spec fn key_differs(
    a: Map<Seq<u8>, Seq<u8>>,
    b: Map<Seq<u8>, Seq<u8>>,
    key: Seq<u8>,
) -> bool {
    a.contains_key(key) && (!b.contains_key(key) || a[key] != b[key])
}

/// `key` differs between `a` and `b`, and no key that comes before it does.
pub open spec fn is_first_differing_key(
    a: Map<Seq<u8>, Seq<u8>>,
    b: Map<Seq<u8>, Seq<u8>>,
    key: Seq<u8>,
) -> bool {
    &&& key_differs(a, b, key)
    &&& forall|other: Seq<u8>| #[trigger] key_differs(a, b, other) ==> !lex_lt(other, key)
}

/// The least key of `a`, in lexicographic order, that `b` lacks or maps to
/// another value.
pub open spec fn first_differing_key(a: Map<Seq<u8>, Seq<u8>>, b: Map<Seq<u8>, Seq<u8>>) -> Seq<
    u8,
> {
    choose|key: Seq<u8>| is_first_differing_key(a, b, key)
}

/// What the comparison of two datastores reports: a difference in the number
/// of keys first, then the least key of `a` on which `b` does not agree.
pub open spec fn datastore_mismatch(
    a: Map<Seq<u8>, Seq<u8>>,
    b: Map<Seq<u8>, Seq<u8>>,
) -> Option<EntryMismatchView> {
    if a.dom().len() != b.dom().len() {
        Some(EntryMismatchView::DatastoreSizeMismatch)
    } else if exists|key: Seq<u8>| key_differs(a, b, key) {
        let key = first_differing_key(a, b);
        if b.contains_key(key) {
            Some(EntryMismatchView::DatastoreValueMismatch(key))
        } else {
            Some(EntryMismatchView::DatastoreKeyMissing(key))
        }
    } else {
        None
    }
}

/// What the comparison of two entries reports: the parallel balances are
/// looked at first, then the bytecodes, then the datastores. The sequential
/// balances are not looked at.
pub open spec fn entry_mismatch(a: LedgerEntryView, b: LedgerEntryView) -> Option<
    EntryMismatchView,
> {
    if a.parallel_balance != b.parallel_balance {
        Some(EntryMismatchView::ParallelBalanceMismatch)
    } else if a.bytecode != b.bytecode {
        Some(EntryMismatchView::BytecodeMismatch)
    } else {
        datastore_mismatch(a.datastore, b.datastore)
    }
}

/// The mismatch that a result of [`assert_eq_ledger_entry`] carries, if any.
pub open spec fn entry_outcome(res: Result<(), EntryMismatch>) -> Option<EntryMismatchView> {
    match res {
        Ok(_) => None,
        Err(mismatch) => Some(mismatch@),
    }
}

/// There is only one first differing key.
pub proof fn lemma_first_differing_key(
    a: Map<Seq<u8>, Seq<u8>>,
    b: Map<Seq<u8>, Seq<u8>>,
    key: Seq<u8>,
)
    requires
        is_first_differing_key(a, b, key),
    ensures
        first_differing_key(a, b) == key,
{
    let chosen = first_differing_key(a, b);
    assert(is_first_differing_key(a, b, chosen));
    lemma_lex_lt_total(chosen, key);
}

/// Two entries hold the same state but for their sequential balances.
pub open spec fn same_but_sequential(a: LedgerEntryView, b: LedgerEntryView) -> bool {
    &&& a.parallel_balance == b.parallel_balance
    &&& a.bytecode == b.bytecode
    &&& a.datastore == b.datastore
}

/// An entry compares as equal to itself.
pub proof fn lemma_entry_reflexive(a: LedgerEntryView)
    ensures
        entry_mismatch(a, a) is None,
{
}

/// The comparison of two entries finds no difference exactly when they hold
/// the same parallel balance, the same bytecode and the same datastore.
pub proof fn lemma_entry_match_iff(a: LedgerEntryView, b: LedgerEntryView)
    requires
        a.datastore.dom().finite(),
        b.datastore.dom().finite(),
    ensures
        entry_mismatch(a, b) is None <==> same_but_sequential(a, b),
{
    if entry_mismatch(a, b) is None {
        assert forall|key: Seq<u8>| a.datastore.dom().contains(key) implies b.datastore.dom().contains(
            key,
        ) by {
            assert(!key_differs(a.datastore, b.datastore, key));
        }
        vstd::set_lib::lemma_subset_equality(a.datastore.dom(), b.datastore.dom());
        assert forall|key: Seq<u8>| a.datastore.contains_key(key) implies a.datastore[key]
            == b.datastore[key] by {
            assert(!key_differs(a.datastore, b.datastore, key));
        }
        assert(a.datastore =~= b.datastore);
    }
}

/// Two entries that differ in nothing but their sequential balances compare
/// as equal: the comparison does not look at that field.
pub proof fn lemma_sequential_balance_ignored(a: LedgerEntryView, b: LedgerEntryView)
    requires
        same_but_sequential(a, b),
    ensures
        entry_mismatch(a, b) is None,
{
}

/// Whatever the sequential balances of two entries are changed to, their
/// comparison reports the same.
pub proof fn lemma_sequential_balance_unread(
    a: LedgerEntryView,
    b: LedgerEntryView,
    balance_a: nat,
    balance_b: nat,
)
    ensures
        entry_mismatch(
            LedgerEntryView { sequential_balance: balance_a, ..a },
            LedgerEntryView { sequential_balance: balance_b, ..b },
        ) == entry_mismatch(a, b),
{
}

/// Two entries with the same parallel balance and different bytecodes are
/// reported as a bytecode mismatch, whatever else they hold.
pub proof fn lemma_bytecode_divergence(a: LedgerEntryView, b: LedgerEntryView)
    requires
        a.parallel_balance == b.parallel_balance,
        a.bytecode != b.bytecode,
    ensures
        entry_mismatch(a, b) == Some(EntryMismatchView::BytecodeMismatch),
{
}

/// Two entries with different parallel balances are reported as a parallel
/// balance mismatch, whatever else they hold.
pub proof fn lemma_parallel_balance_divergence(a: LedgerEntryView, b: LedgerEntryView)
    requires
        a.parallel_balance != b.parallel_balance,
    ensures
        entry_mismatch(a, b) == Some(EntryMismatchView::ParallelBalanceMismatch),
{
}

/// Two entries that differ only in the value that their datastores hold at
/// `key` are reported as a value mismatch at `key`, not as a difference in
/// size.
pub proof fn lemma_value_divergence(a: LedgerEntryView, b: LedgerEntryView, key: Seq<u8>)
    requires
        a.parallel_balance == b.parallel_balance,
        a.bytecode == b.bytecode,
        a.datastore.dom() == b.datastore.dom(),
        a.datastore.contains_key(key),
        a.datastore[key] != b.datastore[key],
        forall|other: Seq<u8>|
            a.datastore.contains_key(other) && other != key ==> a.datastore[other]
                == b.datastore[other],
    ensures
        entry_mismatch(a, b) == Some(EntryMismatchView::DatastoreValueMismatch(key)),
{
    assert(key_differs(a.datastore, b.datastore, key));
    lemma_lex_lt_irreflexive(key);
    lemma_first_differing_key(a.datastore, b.datastore, key);
}

/// Where the datastores have as many keys and the second lacks `key`, the
/// least key of the first on which they do not agree, that key is reported as
/// missing.
pub proof fn lemma_key_divergence(a: LedgerEntryView, b: LedgerEntryView, key: Seq<u8>)
    requires
        a.parallel_balance == b.parallel_balance,
        a.bytecode == b.bytecode,
        a.datastore.dom().len() == b.datastore.dom().len(),
        is_first_differing_key(a.datastore, b.datastore, key),
        !b.datastore.contains_key(key),
    ensures
        entry_mismatch(a, b) == Some(EntryMismatchView::DatastoreKeyMissing(key)),
{
    lemma_first_differing_key(a.datastore, b.datastore, key);
}

/// Compares two ledger entries field by field and reports the first
/// difference: in the parallel balance, then in the bytecode, then in the
/// number of datastore keys, then at the least key of `v1`'s datastore that
/// `v2`'s lacks or maps to another value. The sequential balances are not
/// compared.
pub fn assert_eq_ledger_entry(v1: &LedgerEntry, v2: &LedgerEntry) -> (res: Result<
    (),
    EntryMismatch,
>)
    ensures
        entry_outcome(res) == entry_mismatch(v1@, v2@),
{
    if v1.parallel_balance.to_raw() != v2.parallel_balance.to_raw() {
        return Err(EntryMismatch::ParallelBalanceMismatch);
    }
    match bytes_order(v1.bytecode.as_slice(), v2.bytecode.as_slice()) {
        ByteOrder::Same => {},
        _ => {
            return Err(EntryMismatch::BytecodeMismatch);
        },
    }
    if v1.datastore.len() != v2.datastore.len() {
        return Err(EntryMismatch::DatastoreSizeMismatch);
    }
    let ghost a = v1.datastore@;
    let ghost b = v2.datastore@;
    let keys = v1.datastore.keys();
    let mut i: usize = 0;
    while i < keys.len()
        invariant
            i <= keys.len(),
            a == v1.datastore@,
            b == v2.datastore@,
            entry_mismatch(v1@, v2@) == datastore_mismatch(a, b),
            a.dom().len() == b.dom().len(),
            increasing(key_views(keys@)),
            forall|j: int| 0 <= j < keys.len() ==> a.contains_key(#[trigger] keys[j]@),
            forall|key: Seq<u8>|
                a.contains_key(key) ==> exists|j: int|
                    0 <= j < keys.len() && #[trigger] keys[j]@ == key,
            forall|j: int| 0 <= j < i ==> !key_differs(a, b, #[trigger] keys[j]@),
        decreases keys.len() - i,
    {
        let key: &Vec<u8> = keys[i];
        let differs = match (v1.datastore.get(key.as_slice()), v2.datastore.get(key.as_slice())) {
            (Some(itm1), Some(itm2)) => match bytes_order(itm1.as_slice(), itm2.as_slice()) {
                ByteOrder::Same => false,
                _ => true,
            },
            _ => true,
        };
        if differs {
            proof {
                assert(key_differs(a, b, key@));
                assert forall|other: Seq<u8>| #[trigger] key_differs(a, b, other) implies !lex_lt(
                    other,
                    key@,
                ) by {
                    let j = choose|j: int| 0 <= j < keys.len() && #[trigger] keys[j]@ == other;
                    if j == i {
                        lemma_lex_lt_irreflexive(key@);
                    } else {
                        assert(i < j);
                        assert(lex_lt(key_views(keys@)[i as int], key_views(keys@)[j]));
                        lemma_lex_lt_asymmetric(key@, other);
                    }
                }
                lemma_first_differing_key(a, b, key@);
            }
            let reported = vstd::slice::slice_to_vec(key.as_slice());
            return match v2.datastore.get(key.as_slice()) {
                Some(_) => Err(EntryMismatch::DatastoreValueMismatch(reported)),
                None => Err(EntryMismatch::DatastoreKeyMissing(reported)),
            };
        }
        i += 1;
    }
    proof {
        assert forall|key: Seq<u8>| !key_differs(a, b, key) by {
            if a.contains_key(key) {
                let j = choose|j: int| 0 <= j < keys.len() && #[trigger] keys[j]@ == key;
                assert(!key_differs(a, b, keys[j]@));
            }
        }
    }
    Ok(())
}

} // verus!
