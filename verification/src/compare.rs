//! Comparing a palindrome with a plain number.

use crate::palindrome::Palindrome;
use std::cmp::Ordering;
use vstd::prelude::*;
use vstd::std_specs::cmp::{PartialEqSpecImpl, PartialOrdSpecImpl};

verus! {

impl PartialEq<u64> for Palindrome {
    fn eq(&self, other: &u64) -> (r: bool) {
        self.value() == *other
    }
}

impl PartialEqSpecImpl<u64> for Palindrome {
    open spec fn obeys_eq_spec() -> bool {
        true
    }

    open spec fn eq_spec(&self, other: &u64) -> bool {
        self@ == *other
    }
}

impl PartialEq<Palindrome> for u64 {
    fn eq(&self, other: &Palindrome) -> (r: bool) {
        *self == other.value()
    }
}

impl PartialEqSpecImpl<Palindrome> for u64 {
    open spec fn obeys_eq_spec() -> bool {
        true
    }

    open spec fn eq_spec(&self, other: &Palindrome) -> bool {
        *self == other@
    }
}

impl PartialOrd<u64> for Palindrome {
    fn partial_cmp(&self, other: &u64) -> (r: Option<Ordering>) {
        let value = self.value();
        if value < *other {
            Some(Ordering::Less)
        } else if value > *other {
            Some(Ordering::Greater)
        } else {
            Some(Ordering::Equal)
        }
    }
}

impl PartialOrdSpecImpl<u64> for Palindrome {
    open spec fn obeys_partial_cmp_spec() -> bool {
        true
    }

    open spec fn partial_cmp_spec(&self, other: &u64) -> Option<Ordering> {
        if self@ < *other {
            Some(Ordering::Less)
        } else if self@ > *other {
            Some(Ordering::Greater)
        } else {
            Some(Ordering::Equal)
        }
    }
}

impl PartialOrd<Palindrome> for u64 {
    fn partial_cmp(&self, other: &Palindrome) -> (r: Option<Ordering>) {
        let value = other.value();
        if *self < value {
            Some(Ordering::Less)
        } else if *self > value {
            Some(Ordering::Greater)
        } else {
            Some(Ordering::Equal)
        }
    }
}

impl PartialOrdSpecImpl<Palindrome> for u64 {
    open spec fn obeys_partial_cmp_spec() -> bool {
        true
    }

    open spec fn partial_cmp_spec(&self, other: &Palindrome) -> Option<Ordering> {
        if *self < other@ {
            Some(Ordering::Less)
        } else if *self > other@ {
            Some(Ordering::Greater)
        } else {
            Some(Ordering::Equal)
        }
    }
}

} // verus!
