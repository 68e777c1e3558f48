//! Account balances.

use vstd::prelude::*;

verus! {

/// A non-negative balance, counted in the smallest unit of the coin.
#[derive(Clone, Copy, Debug, PartialEq, Eq, Structural, PartialOrd, Ord, Hash)]
pub struct Amount {
    raw: u64,
}

impl View for Amount {
    type V = nat;

    closed spec fn view(&self) -> nat {
        self.raw as nat
    }
}

impl Default for Amount {
    /// The balance of nothing.
    fn default() -> (amount: Amount)
        ensures
            amount@ == 0,
    {
        Amount { raw: 0 }
    }
}

impl Amount {
    /// Two balances of the same number of units are the same balance.
    pub proof fn lemma_view_injective(a: Amount, b: Amount)
        requires
            a@ == b@,
        ensures
            a == b,
    {
    }

    /// The balance of nothing.
    pub fn zero() -> (amount: Amount)
        ensures
            amount@ == 0,
    {
        Amount { raw: 0 }
    }

    /// The balance of `raw` units.
    pub fn from_raw(raw: u64) -> (amount: Amount)
        ensures
            amount@ == raw,
    {
        Amount { raw }
    }

    /// The sum of two balances, or `None` where it cannot be held.
    pub fn checked_add(self, other: Amount) -> (sum: Option<Amount>)
        ensures
            match sum {
                Some(amount) => amount@ == self@ + other@,
                None => self@ + other@ > u64::MAX,
            },
    {
        match self.raw.checked_add(other.raw) {
            Some(raw) => Some(Amount { raw }),
            None => None,
        }
    }

    /// The number of units of this balance.
    pub fn to_raw(&self) -> (raw: u64)
        ensures
            raw == self@,
    {
        self.raw
    }
}

} // verus!
