//! The order of transactions: by fee alone. Two transactions that pay the
//! same fee are equal in this order, whatever their commands.

use crate::state::Transaction;
use core::cmp::Ordering;
use vstd::prelude::*;

verus! {

impl vstd::std_specs::cmp::PartialEqSpecImpl for Transaction {
    open spec fn obeys_eq_spec() -> bool {
        true
    }

    open spec fn eq_spec(&self, other: &Transaction) -> bool {
        self.fee == other.fee
    }
}

impl PartialEq for Transaction {
    /// Whether the two transactions pay the same fee.
    fn eq(&self, other: &Transaction) -> (equal: bool) {
        self.fee == other.fee
    }
}

impl Eq for Transaction {

}

impl vstd::std_specs::cmp::PartialOrdSpecImpl for Transaction {
    open spec fn obeys_partial_cmp_spec() -> bool {
        true
    }

    open spec fn partial_cmp_spec(&self, other: &Transaction) -> Option<Ordering> {
        if self.fee < other.fee {
            Some(Ordering::Less)
        } else if self.fee > other.fee {
            Some(Ordering::Greater)
        } else {
            Some(Ordering::Equal)
        }
    }
}

impl PartialOrd for Transaction {
    /// How the fee of this transaction compares to the fee of the other.
    fn partial_cmp(&self, other: &Transaction) -> (order: Option<Ordering>) {
        if self.fee < other.fee {
            Some(Ordering::Less)
        } else if self.fee > other.fee {
            Some(Ordering::Greater)
        } else {
            Some(Ordering::Equal)
        }
    }
}

} // verus!
