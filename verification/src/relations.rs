//! `==` and `<` on values: they hold of two values as they hold of the
//! documents that the values stand for.

use crate::compare::document_order;
use crate::order::Order;
use crate::value::Value;
use crate::value_ref::ValueRef;
use std::cmp::Ordering;
use vstd::prelude::*;
use vstd::std_specs::cmp::{PartialEqSpecImpl, PartialOrdSpecImpl};

verus! {

/// The order `order` in the words of the standard library.
pub open spec fn ordering_of(order: Order) -> Ordering {
    match order {
        Order::Before => Ordering::Less,
        Order::Same => Ordering::Equal,
        Order::After => Ordering::Greater,
    }
}

/// The order `order` in the words of the standard library.
fn to_ordering(order: Order) -> (r: Ordering)
    ensures
        r == ordering_of(order),
{
    match order {
        Order::Before => Ordering::Less,
        Order::Same => Ordering::Equal,
        Order::After => Ordering::Greater,
    }
}

impl PartialEq for Value {
    /// Whether the two values stand for one document.
    fn eq(&self, other: &Value) -> (r: bool) {
        proof {
            crate::compare::lemma_order_same(self@, other@);
        }
        matches!(self.compare(other), Order::Same)
    }
}

impl PartialEqSpecImpl for Value {
    open spec fn obeys_eq_spec() -> bool {
        true
    }

    open spec fn eq_spec(&self, other: &Value) -> bool {
        self@ == other@
    }
}

impl PartialOrd for Value {
    /// How the value stands to `other` in the order of documents.
    fn partial_cmp(&self, other: &Value) -> (r: Option<Ordering>) {
        Some(to_ordering(self.compare(other)))
    }
}

impl PartialOrdSpecImpl for Value {
    open spec fn obeys_partial_cmp_spec() -> bool {
        true
    }

    open spec fn partial_cmp_spec(&self, other: &Value) -> Option<Ordering> {
        Some(ordering_of(document_order(self@, other@)))
    }
}

impl<'a> PartialEq for ValueRef<'a> {
    /// Whether the two values stand for one document.
    fn eq(&self, other: &ValueRef<'a>) -> (r: bool) {
        proof {
            crate::compare::lemma_order_same(self@, other@);
        }
        matches!(self.compare(other), Order::Same)
    }
}

impl<'a> PartialEqSpecImpl for ValueRef<'a> {
    open spec fn obeys_eq_spec() -> bool {
        true
    }

    open spec fn eq_spec(&self, other: &ValueRef<'a>) -> bool {
        self@ == other@
    }
}

impl<'a> PartialOrd for ValueRef<'a> {
    /// How the value stands to `other` in the order of documents.
    fn partial_cmp(&self, other: &ValueRef<'a>) -> (r: Option<Ordering>) {
        Some(to_ordering(self.compare(other)))
    }
}

impl<'a> PartialOrdSpecImpl for ValueRef<'a> {
    open spec fn obeys_partial_cmp_spec() -> bool {
        true
    }

    open spec fn partial_cmp_spec(&self, other: &ValueRef<'a>) -> Option<Ordering> {
        Some(ordering_of(document_order(self@, other@)))
    }
}

} // verus!
