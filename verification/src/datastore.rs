//! The key/value store of one account.

use vstd::prelude::*;
use crate::assoc::{
    assoc_map, distinct_keys, has_key, increasing, keys_of, lemma_assoc_distinct,
    lemma_assoc_dom, lemma_assoc_insert, lemma_assoc_update, lemma_increasing_distinct,
    lemma_increasing_insert,
};
use crate::bytes::{bytes_order, lex_lt, lemma_lex_lt_transitive, ByteOrder};

verus! {

/// What a vector of stored pairs holds, as byte strings.
pub open spec fn pair_views(entries: Seq<(Vec<u8>, Vec<u8>)>) -> Seq<(Seq<u8>, Seq<u8>)> {
    Seq::new(entries.len(), |i: int| (entries[i].0@, entries[i].1@))
}

/// What a vector of borrowed keys holds, as byte strings.
pub open spec fn key_views(keys: Seq<&Vec<u8>>) -> Seq<Seq<u8>> {
    Seq::new(keys.len(), |i: int| keys[i]@)
}

/// A mapping from keys to values, both byte strings. Each key occurs once;
/// the order in which the pairs were put in does not show.
#[derive(Debug, PartialEq, Eq)]
pub struct Datastore {
    entries: Vec<(Vec<u8>, Vec<u8>)>,
}

impl View for Datastore {
    type V = Map<Seq<u8>, Seq<u8>>;

    closed spec fn view(&self) -> Map<Seq<u8>, Seq<u8>> {
        assoc_map(pair_views(self.entries@))
    }
}

impl Datastore {
    /// The pairs are kept in the order of their keys.
    #[verifier::type_invariant]
    spec fn ordered(self) -> bool {
        increasing(keys_of(pair_views(self.entries@)))
    }

    /// What follows from the order of the pairs: no key comes twice, so the
    /// store maps each stored key to the value stored with it, and holds no
    /// other key.
    proof fn lemma_ordered(&self)
        requires
            self.ordered(),
        ensures
            distinct_keys(pair_views(self.entries@)),
            self@.dom().finite(),
            self@.dom().len() == self.entries.len(),
            forall|i: int|
                0 <= i < self.entries.len() ==> self@.contains_key((#[trigger] self.entries[i]).0@)
                    && self@[self.entries[i].0@] == self.entries[i].1@,
            forall|key: Seq<u8>| #[trigger]
                self@.contains_key(key) <==> has_key(pair_views(self.entries@), key),
    {
        let pairs = pair_views(self.entries@);
        lemma_increasing_distinct(pairs);
        lemma_assoc_dom(pairs);
        lemma_assoc_distinct(pairs);
        assert forall|i: int| 0 <= i < self.entries.len() implies self@.contains_key(
            (#[trigger] self.entries[i]).0@,
        ) && self@[self.entries[i].0@] == self.entries[i].1@ by {
            assert(pairs[i] == (self.entries[i].0@, self.entries[i].1@));
        }
    }

    /// The store without any key.
    pub fn new() -> (store: Datastore)
        ensures
            store@ == Map::<Seq<u8>, Seq<u8>>::empty(),
    {
        Datastore { entries: Vec::new() }
    }

    /// The number of keys.
    pub fn len(&self) -> (len: usize)
        ensures
            self@.dom().finite(),
            len == self@.dom().len(),
    {
        proof {
            use_type_invariant(&*self);
            self.lemma_ordered();
        }
        self.entries.len()
    }

    /// Where `key` stands among the stored keys: its index if it is there,
    /// else the index at which it would have to be put.
    fn search(&self, key: &[u8]) -> (found: (usize, bool))
        ensures
            found.0 <= self.entries.len(),
            found.1 ==> found.0 < self.entries.len() && self.entries[found.0 as int].0@ == key@,
            !found.1 ==> !has_key(pair_views(self.entries@), key@),
            !found.1 ==> forall|i: int|
                0 <= i < found.0 ==> lex_lt(#[trigger] self.entries[i].0@, key@),
            !found.1 ==> forall|i: int|
                found.0 <= i < self.entries.len() ==> lex_lt(key@, #[trigger] self.entries[i].0@),
    {
        proof {
            use_type_invariant(&*self);
        }
        let ghost ranks = keys_of(pair_views(self.entries@));
        let mut lo: usize = 0;
        let mut hi: usize = self.entries.len();
        while lo < hi
            invariant
                lo <= hi <= self.entries.len(),
                ranks == keys_of(pair_views(self.entries@)),
                increasing(ranks),
                forall|i: int| 0 <= i < lo ==> lex_lt(#[trigger] self.entries[i].0@, key@),
                forall|i: int|
                    hi <= i < self.entries.len() ==> lex_lt(key@, #[trigger] self.entries[i].0@),
            decreases hi - lo,
        {
            let mid = lo + (hi - lo) / 2;
            match bytes_order(self.entries[mid].0.as_slice(), key) {
                ByteOrder::Before => {
                    proof {
                        assert forall|i: int| 0 <= i < mid + 1 implies lex_lt(
                            #[trigger] self.entries[i].0@,
                            key@,
                        ) by {
                            if i < mid {
                                assert(lex_lt(ranks[i], ranks[mid as int]));
                                lemma_lex_lt_transitive(ranks[i], ranks[mid as int], key@);
                            }
                        }
                    }
                    lo = mid + 1;
                },
                ByteOrder::Same => {
                    return (mid, true);
                },
                ByteOrder::After => {
                    proof {
                        assert forall|i: int| mid <= i < self.entries.len() implies lex_lt(
                            key@,
                            #[trigger] self.entries[i].0@,
                        ) by {
                            if mid < i {
                                assert(lex_lt(ranks[mid as int], ranks[i]));
                                lemma_lex_lt_transitive(key@, ranks[mid as int], ranks[i]);
                            }
                        }
                    }
                    hi = mid;
                },
            }
        }
        proof {
            let pairs = pair_views(self.entries@);
            if has_key(pairs, key@) {
                let i = choose|i: int| 0 <= i < pairs.len() && #[trigger] pairs[i].0 == key@;
                assert(lex_lt(self.entries[i].0@, key@) || lex_lt(key@, self.entries[i].0@));
                crate::bytes::lemma_lex_lt_irreflexive(key@);
            }
        }
        (lo, false)
    }

    /// The value stored under `key`, if there is one.
    pub fn get(&self, key: &[u8]) -> (value: Option<&Vec<u8>>)
        ensures
            match value {
                Some(bytes) => self@.contains_key(key@) && bytes@ == self@[key@],
                None => !self@.contains_key(key@),
            },
    {
        proof {
            use_type_invariant(&*self);
            self.lemma_ordered();
        }
        let (at, found) = self.search(key);
        if found {
            assert(pair_views(self.entries@)[at as int].0 == key@);
            Some(&self.entries[at].1)
        } else {
            None
        }
    }

    /// Stores `value` under `key` and returns the value that `key` had before,
    /// if it had one.
    pub fn insert(&mut self, key: Vec<u8>, value: Vec<u8>) -> (previous: Option<Vec<u8>>)
        ensures
            final(self)@ == old(self)@.insert(key@, value@),
            match previous {
                Some(bytes) => old(self)@.contains_key(key@) && bytes@ == old(self)@[key@],
                None => !old(self)@.contains_key(key@),
            },
    {
        proof {
            use_type_invariant(&*self);
            self.lemma_ordered();
        }
        let (at, found) = self.search(key.as_slice());
        let mut entries: Vec<(Vec<u8>, Vec<u8>)> = Vec::new();
        core::mem::swap(&mut entries, &mut self.entries);
        let ghost before = pair_views(entries@);
        let ghost new_key = key@;
        let ghost new_value = value@;
        let previous = if found {
            let mut pair = (key, value);
            core::mem::swap(&mut entries[at], &mut pair);
            proof {
                assert(before[at as int].0 == new_key);
                assert(pair_views(entries@) =~= before.update(
                    at as int,
                    (before[at as int].0, new_value),
                ));
                lemma_assoc_update(before, at as int, new_value);
                assert(keys_of(pair_views(entries@)) =~= keys_of(before));
            }
            Some(pair.1)
        } else {
            entries.insert(at, (key, value));
            proof {
                assert(pair_views(entries@) =~= before.insert(at as int, (new_key, new_value)));
                lemma_assoc_insert(before, at as int, new_key, new_value);
                lemma_increasing_insert(keys_of(before), at as int, new_key);
                assert(keys_of(pair_views(entries@)) =~= keys_of(before).insert(
                    at as int,
                    new_key,
                ));
            }
            None
        };
        self.entries = entries;
        previous
    }

    /// The keys, each once, in increasing order.
    pub fn keys(&self) -> (keys: Vec<&Vec<u8>>)
        ensures
            increasing(key_views(keys@)),
            keys.len() == self@.dom().len(),
            forall|i: int| 0 <= i < keys.len() ==> self@.contains_key(#[trigger] keys[i]@),
            forall|key: Seq<u8>|
                self@.contains_key(key) ==> exists|i: int|
                    0 <= i < keys.len() && #[trigger] keys[i]@ == key,
    {
        proof {
            use_type_invariant(&*self);
            self.lemma_ordered();
        }
        let ghost pairs = pair_views(self.entries@);
        let mut keys: Vec<&Vec<u8>> = Vec::new();
        let mut i: usize = 0;
        while i < self.entries.len()
            invariant
                i <= self.entries.len(),
                keys.len() == i,
                forall|j: int| 0 <= j < i ==> #[trigger] keys[j]@ == self.entries[j].0@,
            decreases self.entries.len() - i,
        {
            keys.push(&self.entries[i].0);
            i += 1;
        }
        proof {
            assert(key_views(keys@) =~= keys_of(pairs));
            assert forall|j: int| 0 <= j < keys.len() implies self@.contains_key(
                #[trigger] keys[j]@,
            ) by {
                assert(pairs[j].0 == keys[j]@);
            }
            assert forall|key: Seq<u8>| self@.contains_key(key) implies exists|j: int|
                0 <= j < keys.len() && #[trigger] keys[j]@ == key by {
                assert(has_key(pairs, key));
                let j = choose|j: int| 0 <= j < pairs.len() && #[trigger] pairs[j].0 == key;
                assert(keys[j]@ == key);
            }
        }
        keys
    }

    /// Whether no key is longer than `max_key_length` bytes.
    pub fn keys_within(&self, max_key_length: usize) -> (within: bool)
        ensures
            within == keys_bounded(self@, max_key_length as nat),
    {
        let ghost pairs = pair_views(self.entries@);
        proof {
            use_type_invariant(&*self);
            self.lemma_ordered();
        }
        let mut i: usize = 0;
        while i < self.entries.len()
            invariant
                i <= self.entries.len(),
                pairs == pair_views(self.entries@),
                forall|j: int| 0 <= j < pairs.len() ==> self@.contains_key(#[trigger] pairs[j].0),
                forall|j: int| 0 <= j < i ==> (#[trigger] self.entries[j]).0@.len() <= max_key_length,
            decreases self.entries.len() - i,
        {
            if self.entries[i].0.len() > max_key_length {
                proof {
                    assert(pairs[i as int].0 == self.entries[i as int].0@);
                    assert(self@.contains_key(pairs[i as int].0));
                }
                return false;
            }
            i += 1;
        }
        proof {
            assert forall|key: Seq<u8>| self@.contains_key(key) implies key.len()
                <= max_key_length by {
                assert(has_key(pairs, key));
                let j = choose|j: int| 0 <= j < pairs.len() && #[trigger] pairs[j].0 == key;
                assert(self.entries[j].0@ == key);
            }
        }
        true
    }
}

/// No key of `store` is longer than `max_key_length` bytes.
pub open spec fn keys_bounded(store: Map<Seq<u8>, Seq<u8>>, max_key_length: nat) -> bool {
    forall|key: Seq<u8>| store.contains_key(key) ==> key.len() <= max_key_length
}

impl Default for Datastore {
    /// The store without any key.
    fn default() -> (store: Datastore)
        ensures
            store@ == Map::<Seq<u8>, Seq<u8>>::empty(),
    {
        Datastore::new()
    }
}

/// A key of exactly `max_key_length` bytes is within the bound: a store that
/// keeps to the bound still does so after that key is put in.
pub proof fn lemma_key_at_limit(
    store: Map<Seq<u8>, Seq<u8>>,
    key: Seq<u8>,
    value: Seq<u8>,
    max_key_length: nat,
)
    requires
        keys_bounded(store, max_key_length),
        key.len() == max_key_length,
    ensures
        keys_bounded(store.insert(key, value), max_key_length),
{
}

impl Clone for Datastore {
    /// A store with the same pairs.
    fn clone(&self) -> (copy: Datastore)
        ensures
            copy@ == self@,
    {
        proof {
            use_type_invariant(&*self);
        }
        let mut entries: Vec<(Vec<u8>, Vec<u8>)> = Vec::new();
        let mut i: usize = 0;
        while i < self.entries.len()
            invariant
                i <= self.entries.len(),
                entries.len() == i,
                forall|j: int|
                    0 <= j < i ==> (#[trigger] entries[j]).0@ == self.entries[j].0@ && entries[j].1@
                        == self.entries[j].1@,
            decreases self.entries.len() - i,
        {
            let key = vstd::slice::slice_to_vec(self.entries[i].0.as_slice());
            let value = vstd::slice::slice_to_vec(self.entries[i].1.as_slice());
            entries.push((key, value));
            i += 1;
        }
        proof {
            assert(pair_views(entries@) =~= pair_views(self.entries@));
        }
        Datastore { entries }
    }
}

} // verus!
