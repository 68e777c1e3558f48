//! Association lists: sequences of key/value pairs read as maps.
//!
//! The stores of this crate keep their pairs in a vector, ordered by the
//! bytes of the key. The lemmas here relate such a sequence to the map that
//! it stands for.

use vstd::prelude::*;
use crate::bytes::{lex_lt, lemma_lex_lt_asymmetric, lemma_lex_lt_transitive};

verus! {

/// The map that a sequence of pairs stands for. Where a key occurs more than
/// once, the pair that comes last decides.
pub open spec fn assoc_map<K, V>(pairs: Seq<(K, V)>) -> Map<K, V>
    decreases pairs.len(),
{
    if pairs.len() == 0 {
        Map::empty()
    } else {
        assoc_map(pairs.drop_last()).insert(pairs.last().0, pairs.last().1)
    }
}

/// No key occurs twice in `pairs`.
pub open spec fn distinct_keys<K, V>(pairs: Seq<(K, V)>) -> bool {
    forall|i: int, j: int| 0 <= i < j < pairs.len() ==> pairs[i].0 != pairs[j].0
}

/// Some pair of `pairs` has the key `key`.
pub open spec fn has_key<K, V>(pairs: Seq<(K, V)>, key: K) -> bool {
    exists|i: int| 0 <= i < pairs.len() && #[trigger] pairs[i].0 == key
}

/// The keys of the map are the keys of the pairs, and there are finitely many.
pub proof fn lemma_assoc_dom<K, V>(pairs: Seq<(K, V)>)
    ensures
        assoc_map(pairs).dom().finite(),
        assoc_map(pairs).dom().len() <= pairs.len(),
        forall|key: K| #[trigger] assoc_map(pairs).contains_key(key) <==> has_key(pairs, key),
    decreases pairs.len(),
{
    if pairs.len() == 0 {
        assert forall|key: K| #[trigger]
            assoc_map(pairs).contains_key(key) <==> has_key(pairs, key) by {}
    } else {
        let front = pairs.drop_last();
        lemma_assoc_dom(front);
        assert forall|key: K| #[trigger]
            assoc_map(pairs).contains_key(key) <==> has_key(pairs, key) by {
            if has_key(pairs, key) {
                let i = choose|i: int| 0 <= i < pairs.len() && #[trigger] pairs[i].0 == key;
                if i < front.len() {
                    assert(front[i].0 == key);
                }
            }
        }
    }
}

/// With distinct keys, each pair's key maps to that pair's value, and the map
/// has as many keys as there are pairs.
pub proof fn lemma_assoc_distinct<K, V>(pairs: Seq<(K, V)>)
    requires
        distinct_keys(pairs),
    ensures
        assoc_map(pairs).dom().len() == pairs.len(),
        forall|i: int|
            0 <= i < pairs.len() ==> assoc_map(pairs).contains_key(#[trigger] pairs[i].0)
                && assoc_map(pairs)[pairs[i].0] == pairs[i].1,
    decreases pairs.len(),
{
    if pairs.len() > 0 {
        let front = pairs.drop_last();
        lemma_assoc_distinct(front);
        lemma_assoc_dom(front);
        assert forall|i: int| 0 <= i < pairs.len() implies assoc_map(pairs).contains_key(
            #[trigger] pairs[i].0,
        ) && assoc_map(pairs)[pairs[i].0] == pairs[i].1 by {
            if i < front.len() {
                assert(front[i] == pairs[i]);
            }
        }
    }
}

/// Putting a pair with a new key anywhere into a sequence with distinct keys
/// inserts it into the map.
pub proof fn lemma_assoc_insert<K, V>(pairs: Seq<(K, V)>, at: int, key: K, value: V)
    requires
        distinct_keys(pairs),
        !has_key(pairs, key),
        0 <= at <= pairs.len(),
    ensures
        distinct_keys(pairs.insert(at, (key, value))),
        assoc_map(pairs.insert(at, (key, value))) == assoc_map(pairs).insert(key, value),
{
    let after = pairs.insert(at, (key, value));
    lemma_assoc_dom(pairs);
    lemma_assoc_dom(after);
    lemma_assoc_distinct(pairs);
    lemma_assoc_distinct(after);
    let left = assoc_map(after);
    let right = assoc_map(pairs).insert(key, value);
    assert forall|k: K| left.contains_key(k) <==> right.contains_key(k) by {
        if right.contains_key(k) {
            if k == key {
                assert(after[at].0 == k);
            } else {
                let i = choose|i: int| 0 <= i < pairs.len() && #[trigger] pairs[i].0 == k;
                let moved = if i < at { i } else { i + 1 };
                assert(after[moved].0 == k);
            }
        }
    }
}

/// Giving the pair at `at` a new value, under the same key, overwrites that
/// key in the map.
pub proof fn lemma_assoc_update<K, V>(pairs: Seq<(K, V)>, at: int, value: V)
    requires
        distinct_keys(pairs),
        0 <= at < pairs.len(),
    ensures
        distinct_keys(pairs.update(at, (pairs[at].0, value))),
        assoc_map(pairs.update(at, (pairs[at].0, value))) == assoc_map(pairs).insert(
            pairs[at].0,
            value,
        ),
{
    let key = pairs[at].0;
    let after = pairs.update(at, (key, value));
    lemma_assoc_dom(pairs);
    lemma_assoc_dom(after);
    lemma_assoc_distinct(pairs);
    lemma_assoc_distinct(after);
    let left = assoc_map(after);
    let right = assoc_map(pairs).insert(key, value);
    assert forall|k: K| left.contains_key(k) <==> right.contains_key(k) by {
        if right.contains_key(k) {
            if k == key {
                assert(after[at].0 == k);
            } else {
                let i = choose|i: int| 0 <= i < pairs.len() && #[trigger] pairs[i].0 == k;
                assert(after[i].0 == k);
            }
        }
    }
}

/// The keys of `pairs`, in their order.
pub open spec fn keys_of<K, V>(pairs: Seq<(K, V)>) -> Seq<K> {
    Seq::new(pairs.len(), |i: int| pairs[i].0)
}

/// Each byte string of `ranks` comes strictly before the next.
pub open spec fn increasing(ranks: Seq<Seq<u8>>) -> bool {
    forall|i: int, j: int| 0 <= i < j < ranks.len() ==> lex_lt(ranks[i], ranks[j])
}

/// Where `rank` falls between its neighbours at `at`, putting it there keeps
/// the sequence increasing.
pub proof fn lemma_increasing_insert(ranks: Seq<Seq<u8>>, at: int, rank: Seq<u8>)
    requires
        increasing(ranks),
        0 <= at <= ranks.len(),
        forall|i: int| 0 <= i < at ==> lex_lt(#[trigger] ranks[i], rank),
        at < ranks.len() ==> lex_lt(rank, ranks[at]),
    ensures
        increasing(ranks.insert(at, rank)),
{
    assert forall|i: int| at <= i < ranks.len() implies lex_lt(rank, #[trigger] ranks[i]) by {
        if at < i {
            lemma_lex_lt_transitive(rank, ranks[at], ranks[i]);
        }
    }
}

/// Pairs whose keys increase hold no key twice.
pub proof fn lemma_increasing_distinct<V>(pairs: Seq<(Seq<u8>, V)>)
    requires
        increasing(keys_of(pairs)),
    ensures
        distinct_keys(pairs),
{
    assert forall|i: int, j: int| 0 <= i < j < pairs.len() implies pairs[i].0 != pairs[j].0 by {
        assert(lex_lt(keys_of(pairs)[i], keys_of(pairs)[j]));
        lemma_lex_lt_asymmetric(pairs[i].0, pairs[j].0);
    }
}

} // verus!
