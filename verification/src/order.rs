//! The order of hands and of kinds of hands, as the comparison operators
//! tell it.

use crate::card::Kind;
use crate::strength::{key_order, kind_order, order_kinds, HandStrength};
use std::cmp::Ordering;
use vstd::prelude::*;
use vstd::std_specs::cmp::PartialOrdSpecImpl;

verus! {

/// The order that `<` and its kin go by, for an order given as a number:
/// negative for less, zero for equal, positive for greater.
pub open spec fn ordering_of(order: int) -> Option<Ordering> {
    if order < 0 {
        Some(Ordering::Less)
    } else if order > 0 {
        Some(Ordering::Greater)
    } else {
        Some(Ordering::Equal)
    }
}

impl PartialOrd for HandStrength {
    /// Hands compare by strength: see `key_order`.
    fn partial_cmp(&self, other: &Self) -> (r: Option<Ordering>) {
        let order = self.order(other);
        if order < 0 {
            Some(Ordering::Less)
        } else if order > 0 {
            Some(Ordering::Greater)
        } else {
            Some(Ordering::Equal)
        }
    }
}

impl PartialOrdSpecImpl for HandStrength {
    open spec fn obeys_partial_cmp_spec() -> bool {
        true
    }

    open spec fn partial_cmp_spec(&self, other: &Self) -> Option<Ordering> {
        ordering_of(key_order(self.key(), other.key()))
    }
}

impl PartialOrd for Kind {
    /// Kinds compare by their place among the ten, then by the ranks that
    /// they are named after: see `kind_order`.
    fn partial_cmp(&self, other: &Self) -> (r: Option<Ordering>) {
        let order = order_kinds(self, other);
        if order < 0 {
            Some(Ordering::Less)
        } else if order > 0 {
            Some(Ordering::Greater)
        } else {
            Some(Ordering::Equal)
        }
    }
}

impl PartialOrdSpecImpl for Kind {
    open spec fn obeys_partial_cmp_spec() -> bool {
        true
    }

    open spec fn partial_cmp_spec(&self, other: &Self) -> Option<Ordering> {
        ordering_of(kind_order(*self, *other))
    }
}

} // verus!
