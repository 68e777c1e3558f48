//! Account addresses.

use vstd::prelude::*;
use crate::assoc::{distinct_keys, has_key, increasing, keys_of};
use crate::bytes::{
    bytes_order, lex_lt, lemma_lex_lt_asymmetric, lemma_lex_lt_irreflexive, lemma_lex_lt_total,
    lemma_lex_lt_transitive, ByteOrder,
};

verus! {

/// The number of bytes of an address.
pub const ADDRESS_SIZE_BYTES: usize = 32;

/// The identifier of an account: a fixed number of bytes, ordered as a byte
/// string.
#[derive(Clone, Copy, Debug, PartialEq, Eq, PartialOrd, Ord, Hash)]
pub struct Address(pub [u8; ADDRESS_SIZE_BYTES]);

/// `a` comes strictly before `b` in the order of addresses.
pub open spec fn address_lt(a: Address, b: Address) -> bool {
    lex_lt(a.rank(), b.rank())
}

impl Address {
    /// The bytes by which the address is ordered and told apart.
    pub open spec fn rank(self) -> Seq<u8> {
        self.0@
    }

    /// Two addresses with the same bytes are the same address.
    pub proof fn lemma_rank_injective(a: Address, b: Address)
        requires
            a.rank() == b.rank(),
        ensures
            a == b,
    {
        assert(a.0 =~= b.0);
    }

    /// No address comes before itself.
    pub proof fn lemma_order_irreflexive(a: Address)
        ensures
            !address_lt(a, a),
    {
        lemma_lex_lt_irreflexive(a.rank());
    }

    /// The order of addresses is transitive.
    pub proof fn lemma_order_transitive(a: Address, b: Address, c: Address)
        requires
            address_lt(a, b),
            address_lt(b, c),
        ensures
            address_lt(a, c),
    {
        lemma_lex_lt_transitive(a.rank(), b.rank(), c.rank());
    }

    /// The order of addresses is total: of two different addresses one comes
    /// before the other.
    pub proof fn lemma_order_total(a: Address, b: Address)
        ensures
            a == b || address_lt(a, b) || address_lt(b, a),
    {
        lemma_lex_lt_total(a.rank(), b.rank());
        if a.rank() == b.rank() {
            Self::lemma_rank_injective(a, b);
        }
    }

    /// The address that holds `bytes`.
    pub fn from_bytes(bytes: [u8; ADDRESS_SIZE_BYTES]) -> (address: Address)
        ensures
            address.rank() == bytes@,
    {
        Address(bytes)
    }

    /// The bytes of the address.
    pub fn to_bytes(&self) -> (bytes: [u8; ADDRESS_SIZE_BYTES])
        ensures
            bytes@ == self.rank(),
    {
        self.0
    }

    /// How this address stands to `other` in the order of addresses.
    pub fn order(&self, other: &Address) -> (order: ByteOrder)
        ensures
            order is Before <==> address_lt(*self, *other),
            order is Same <==> *self == *other,
            order is After <==> address_lt(*other, *self),
    {
        let order = bytes_order(self.0.as_slice(), other.0.as_slice());
        proof {
            if self.rank() == other.rank() {
                Self::lemma_rank_injective(*self, *other);
            }
        }
        order
    }
}

/// The byte strings by which the addresses of a sequence are ordered.
pub open spec fn address_ranks(addresses: Seq<Address>) -> Seq<Seq<u8>> {
    Seq::new(addresses.len(), |i: int| addresses[i].rank())
}

/// The addresses of `listed` come in strictly increasing order.
pub open spec fn addresses_increase<V>(listed: Seq<(Address, V)>) -> bool {
    increasing(address_ranks(keys_of(listed)))
}

/// Pairs whose addresses increase hold no address twice.
pub proof fn lemma_addresses_distinct<V>(listed: Seq<(Address, V)>)
    requires
        addresses_increase(listed),
    ensures
        distinct_keys(listed),
{
    let ranks = address_ranks(keys_of(listed));
    assert forall|i: int, j: int| 0 <= i < j < listed.len() implies listed[i].0 != listed[j].0 by {
        assert(lex_lt(ranks[i], ranks[j]));
        lemma_lex_lt_asymmetric(listed[i].0.rank(), listed[j].0.rank());
    }
}

/// Where `address` stands in a vector of pairs ordered by address: its index
/// if it is there, else the index at which it would have to be put.
pub(crate) fn find_address<V>(listed: &Vec<(Address, V)>, address: &Address) -> (found: (
    usize,
    bool,
))
    requires
        addresses_increase(listed@),
    ensures
        found.0 <= listed.len(),
        found.1 ==> found.0 < listed.len() && listed[found.0 as int].0 == *address,
        !found.1 ==> !has_key(listed@, *address),
        !found.1 ==> forall|i: int|
            0 <= i < found.0 ==> address_lt((#[trigger] listed[i]).0, *address),
        !found.1 ==> forall|i: int|
            found.0 <= i < listed.len() ==> address_lt(*address, (#[trigger] listed[i]).0),
{
    let ghost ranks = address_ranks(keys_of(listed@));
    let mut lo: usize = 0;
    let mut hi: usize = listed.len();
    while lo < hi
        invariant
            lo <= hi <= listed.len(),
            ranks == address_ranks(keys_of(listed@)),
            increasing(ranks),
            forall|i: int| 0 <= i < lo ==> address_lt((#[trigger] listed[i]).0, *address),
            forall|i: int| hi <= i < listed.len() ==> address_lt(*address, (#[trigger] listed[i]).0),
        decreases hi - lo,
    {
        let mid = lo + (hi - lo) / 2;
        match listed[mid].0.order(address) {
            ByteOrder::Before => {
                proof {
                    assert forall|i: int| 0 <= i < mid + 1 implies address_lt(
                        (#[trigger] listed[i]).0,
                        *address,
                    ) by {
                        if i < mid {
                            assert(lex_lt(ranks[i], ranks[mid as int]));
                            lemma_lex_lt_transitive(ranks[i], ranks[mid as int], address.rank());
                        }
                    }
                }
                lo = mid + 1;
            },
            ByteOrder::Same => {
                return (mid, true);
            },
            ByteOrder::After => {
                proof {
                    assert forall|i: int| mid <= i < listed.len() implies address_lt(
                        *address,
                        (#[trigger] listed[i]).0,
                    ) by {
                        if mid < i {
                            assert(lex_lt(ranks[mid as int], ranks[i]));
                            lemma_lex_lt_transitive(address.rank(), ranks[mid as int], ranks[i]);
                        }
                    }
                }
                hi = mid;
            },
        }
    }
    proof {
        if has_key(listed@, *address) {
            let i = choose|i: int| 0 <= i < listed.len() && #[trigger] listed[i].0 == *address;
            assert(address_lt(listed[i].0, *address) || address_lt(*address, listed[i].0));
            lemma_lex_lt_irreflexive(address.rank());
        }
    }
    (lo, false)
}

} // verus!
