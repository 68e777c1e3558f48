//! Byte strings and their lexicographic order.
//!
//! Datastore keys and addresses are both ordered as byte strings: the first
//! byte at which two strings differ decides, and a proper prefix comes first.

use vstd::prelude::*;

verus! {

/// `a` and `b` hold the same bytes at every index below `n`.
pub open spec fn common_prefix(a: Seq<u8>, b: Seq<u8>, n: int) -> bool {
    &&& 0 <= n <= a.len()
    &&& n <= b.len()
    &&& forall|j: int| 0 <= j < n ==> a[j] == b[j]
}

/// `a` comes before `b`, and index `n` decides it: below `n` the two agree,
/// and at `n` either `a` has ended while `b` goes on, or `a` holds the
/// smaller byte.
pub open spec fn lex_lt_at(a: Seq<u8>, b: Seq<u8>, n: int) -> bool {
    &&& common_prefix(a, b, n)
    &&& n < b.len()
    &&& (n == a.len() || a[n] < b[n])
}

/// `a` comes strictly before `b` in lexicographic order.
pub open spec fn lex_lt(a: Seq<u8>, b: Seq<u8>) -> bool {
    exists|n: int| lex_lt_at(a, b, n)
}

/// No byte string comes before itself.
pub proof fn lemma_lex_lt_irreflexive(a: Seq<u8>)
    ensures
        !lex_lt(a, a),
{
    assert forall|n: int| !lex_lt_at(a, a, n) by {}
}

/// The order is transitive.
pub proof fn lemma_lex_lt_transitive(a: Seq<u8>, b: Seq<u8>, c: Seq<u8>)
    requires
        lex_lt(a, b),
        lex_lt(b, c),
    ensures
        lex_lt(a, c),
{
    let n1 = choose|n: int| lex_lt_at(a, b, n);
    let n2 = choose|n: int| lex_lt_at(b, c, n);
    let n = if n1 <= n2 { n1 } else { n2 };
    assert(lex_lt_at(a, c, n));
}

/// The order is asymmetric.
pub proof fn lemma_lex_lt_asymmetric(a: Seq<u8>, b: Seq<u8>)
    requires
        lex_lt(a, b),
    ensures
        !lex_lt(b, a),
        a != b,
{
    lemma_lex_lt_irreflexive(a);
    if lex_lt(b, a) {
        lemma_lex_lt_transitive(a, b, a);
    }
}

proof fn lemma_lex_total_from(a: Seq<u8>, b: Seq<u8>, n: int)
    requires
        common_prefix(a, b, n),
        a != b,
    ensures
        lex_lt(a, b) || lex_lt(b, a),
    decreases a.len() - n,
{
    if n == a.len() {
        if n == b.len() {
            assert(a =~= b);
        } else {
            assert(lex_lt_at(a, b, n));
        }
    } else if n == b.len() {
        assert(lex_lt_at(b, a, n));
    } else if a[n] < b[n] {
        assert(lex_lt_at(a, b, n));
    } else if b[n] < a[n] {
        assert(lex_lt_at(b, a, n));
    } else {
        lemma_lex_total_from(a, b, n + 1);
    }
}

/// The order is total: of two different byte strings one comes before the
/// other.
pub proof fn lemma_lex_lt_total(a: Seq<u8>, b: Seq<u8>)
    ensures
        a == b || lex_lt(a, b) || lex_lt(b, a),
{
    if a != b {
        lemma_lex_total_from(a, b, 0);
    }
}

/// How one byte string stands to another in lexicographic order.
#[derive(Clone, Copy, Debug, PartialEq, Eq)]
pub enum ByteOrder {
    /// The first comes strictly before the second.
    Before,
    /// The two hold the same bytes.
    Same,
    /// The first comes strictly after the second.
    After,
}

/// Compares two byte strings lexicographically.
pub fn bytes_order(a: &[u8], b: &[u8]) -> (order: ByteOrder)
    ensures
        order is Before <==> lex_lt(a@, b@),
        order is Same <==> a@ == b@,
        order is After <==> lex_lt(b@, a@),
{
    let mut i: usize = 0;
    while i < a.len() && i < b.len()
        invariant
            common_prefix(a@, b@, i as int),
        decreases a.len() - i,
    {
        if a[i] < b[i] {
            proof {
                assert(lex_lt_at(a@, b@, i as int));
                lemma_lex_lt_asymmetric(a@, b@);
            }
            return ByteOrder::Before;
        }
        if b[i] < a[i] {
            proof {
                assert(lex_lt_at(b@, a@, i as int));
                lemma_lex_lt_asymmetric(b@, a@);
            }
            return ByteOrder::After;
        }
        i += 1;
    }
    if i < b.len() {
        proof {
            assert(lex_lt_at(a@, b@, i as int));
            lemma_lex_lt_asymmetric(a@, b@);
        }
        ByteOrder::Before
    } else if i < a.len() {
        proof {
            assert(lex_lt_at(b@, a@, i as int));
            lemma_lex_lt_asymmetric(b@, a@);
        }
        ByteOrder::After
    } else {
        proof {
            assert(a@ =~= b@);
            lemma_lex_lt_irreflexive(a@);
        }
        ByteOrder::Same
    }
}

} // verus!
