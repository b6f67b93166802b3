//! Turning a palindrome into a plain number.

use crate::palindrome::Palindrome;
use vstd::prelude::*;
use vstd::std_specs::convert::FromSpecImpl;

verus! {

impl From<Palindrome> for u64 {
    fn from(value: Palindrome) -> (r: u64) {
        value.value()
    }
}

impl FromSpecImpl<Palindrome> for u64 {
    open spec fn obeys_from_spec() -> bool {
        true
    }

    open spec fn from_spec(value: Palindrome) -> u64 {
        value@ as u64
    }
}

impl From<&Palindrome> for u64 {
    fn from(value: &Palindrome) -> (r: u64) {
        value.value()
    }
}

impl FromSpecImpl<&Palindrome> for u64 {
    open spec fn obeys_from_spec() -> bool {
        true
    }

    open spec fn from_spec(value: &Palindrome) -> u64 {
        value@ as u64
    }
}

} // verus!
