//! The palindrome test on unsigned integers.

use crate::digits::{
    decimal_digits, digits_value, is_decimal, lemma_decimal_digits, lemma_decimal_ends,
    lemma_take_step,
};
use crate::palindrome::Palindrome;
use crate::palindromic::{is_palindromic, lemma_single_digit_palindromic};
use crate::reversal::{lemma_half_reversal, lemma_reversed_tail_step, reversed_tail};
use vstd::prelude::*;

verus! {

/// Numbers that can say whether they are palindromes.
pub trait IsPalindrome {
    /// The number that `self` stands for.
    spec fn number(&self) -> nat;

    /// Return whether `self` is a palindrome.
    fn is_palindrome(&self) -> (r: bool)
        ensures
            r == is_palindromic(self.number()),
    ;
}

impl IsPalindrome for u64 {
    open spec fn number(&self) -> nat {
        *self as nat
    }

    fn is_palindrome(&self) -> (r: bool) {
        let mut x: u64 = *self;
        let ghost all = decimal_digits(x as nat);
        proof {
            lemma_decimal_digits(x as nat);
            lemma_decimal_ends(x as nat);
        }
        if x % 10 == 0 && x != 0 {
            proof {
                assert(all[all.len() - 1 - 0] == 0);
            }
            return false;
        }
        let mut right_half: u64 = 0;
        let ghost mut k: nat = 0;
        proof {
            assert(all.take(all.len() as int) =~= all);
            assert(reversed_tail(all, 0) =~= Seq::<u8>::empty());
        }
        while x > right_half
            invariant
                all == decimal_digits(*self as nat),
                is_decimal(all),
                k <= all.len(),
                *self == 0 ==> x == 0 && right_half == 0,
                *self > 0 ==> all[0] != 0 && all.last() != 0,
                x == digits_value(all.take(all.len() - k)),
                right_half == digits_value(reversed_tail(all, k)),
                k >= 1 ==> x <= u64::MAX / 10,
                k >= 1 ==> digits_value(all.take(all.len() - k + 1)) > digits_value(
                    reversed_tail(all, (k - 1) as nat),
                ),
            decreases x,
        {
            proof {
                if k == all.len() {
                    assert(all.take(0).len() == 0);
                }
                lemma_take_step(all, all.len() - k);
                lemma_reversed_tail_step(all, k);
                k = k + 1;
            }
            right_half = right_half * 10 + x % 10;
            x /= 10;
        }
        proof {
            if *self == 0 {
                lemma_single_digit_palindromic(0);
            } else {
                if k == 0 {
                    assert(all.take(all.len() as int) =~= all);
                }
                lemma_half_reversal(all, k);
            }
        }
        x == right_half || x == right_half / 10
    }
}

impl IsPalindrome for u32 {
    open spec fn number(&self) -> nat {
        *self as nat
    }

    fn is_palindrome(&self) -> (r: bool) {
        (*self as u64).is_palindrome()
    }
}

impl IsPalindrome for u16 {
    open spec fn number(&self) -> nat {
        *self as nat
    }

    fn is_palindrome(&self) -> (r: bool) {
        (*self as u64).is_palindrome()
    }
}

impl IsPalindrome for u8 {
    open spec fn number(&self) -> nat {
        *self as nat
    }

    fn is_palindrome(&self) -> (r: bool) {
        (*self as u64).is_palindrome()
    }
}

impl IsPalindrome for Palindrome {
    open spec fn number(&self) -> nat {
        self@
    }

    fn is_palindrome(&self) -> (r: bool)
        ensures
            r,
    {
        self.value().is_palindrome()
    }
}

} // verus!
