//! The order of addresses and lengths: that of their raw values.

use super::{Address, AddressType, Length};
use core::cmp::Ordering;
use vstd::prelude::*;
use vstd::std_specs::cmp::PartialOrdSpec;

verus! {

/// How two raw values compare.
pub open spec fn raw_order(a: u64, b: u64) -> Option<Ordering> {
    if a < b {
        Some(Ordering::Less)
    } else if a == b {
        Some(Ordering::Equal)
    } else {
        Some(Ordering::Greater)
    }
}

impl<Type: AddressType> PartialOrd for Address<Type> {
    fn partial_cmp(&self, other: &Self) -> (r: Option<Ordering>) {
        if self.0 < other.0 {
            Some(Ordering::Less)
        } else if self.0 == other.0 {
            Some(Ordering::Equal)
        } else {
            Some(Ordering::Greater)
        }
    }
}

impl<Type: AddressType> vstd::std_specs::cmp::PartialOrdSpecImpl for Address<Type> {
    open spec fn obeys_partial_cmp_spec() -> bool {
        true
    }

    open spec fn partial_cmp_spec(&self, other: &Self) -> Option<Ordering> {
        raw_order(self@, other@)
    }
}

impl PartialOrd for Length {
    fn partial_cmp(&self, other: &Self) -> (r: Option<Ordering>) {
        if self.0 < other.0 {
            Some(Ordering::Less)
        } else if self.0 == other.0 {
            Some(Ordering::Equal)
        } else {
            Some(Ordering::Greater)
        }
    }
}

impl vstd::std_specs::cmp::PartialOrdSpecImpl for Length {
    open spec fn obeys_partial_cmp_spec() -> bool {
        true
    }

    open spec fn partial_cmp_spec(&self, other: &Self) -> Option<Ordering> {
        raw_order(self@, other@)
    }
}

/// Addresses are ordered as their raw values: `<`, `<=`, `>`, `>=` and
/// `partial_cmp` compare `a.as_raw()` with `b.as_raw()`.
pub proof fn lemma_address_order<Type: AddressType>(a: Address<Type>, b: Address<Type>)
    ensures
        Address::<Type>::obeys_partial_cmp_spec(),
        a.partial_cmp_spec(&b) == raw_order(a@, b@),
        (a.partial_cmp_spec(&b) matches Some(Ordering::Less | Ordering::Equal)) <==> a@ <= b@,
        (a.partial_cmp_spec(&b) == Some(Ordering::Less)) <==> a@ < b@,
{
}

/// Lengths are ordered as their raw values: `<`, `<=`, `>`, `>=` and
/// `partial_cmp` compare `a.as_raw()` with `b.as_raw()`.
pub proof fn lemma_length_order(a: Length, b: Length)
    ensures
        Length::obeys_partial_cmp_spec(),
        a.partial_cmp_spec(&b) == raw_order(a@, b@),
        (a.partial_cmp_spec(&b) matches Some(Ordering::Less | Ordering::Equal)) <==> a@ <= b@,
        (a.partial_cmp_spec(&b) == Some(Ordering::Less)) <==> a@ < b@,
{
}

} // verus!
