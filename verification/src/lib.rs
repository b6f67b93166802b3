//! Palindromic numbers: unsigned integers whose decimal digits read the same
//! in both directions.
//!
//! [`IsPalindrome`] tests a number. [`Palindrome`] holds one: [`Palindrome::le`],
//! [`Palindrome::ge`] and [`Palindrome::closest`] find the palindrome nearest to
//! a number, [`Palindrome::previous`] and [`Palindrome::next`] step from one
//! palindrome to its neighbour, and [`Palindrome::nth`] and
//! [`Palindrome::to_n`] convert between a palindrome and its rank among all
//! palindromes. [`PalindromeIter`] walks a range of palindromes and knows its
//! length without walking it.
//!
//! The contracts are stated over the functions on numbers in [`palindromic`];
//! [`laws`] holds what follows from them.

pub mod compare;
pub mod convert;
pub mod digits;
pub mod iter;
pub mod laws;
pub mod limits;
pub mod mirror;
pub mod nearest;
pub mod palindrome;
pub mod palindromic;
pub mod predicate;
pub mod ranking;
pub mod reversal;

pub use iter::PalindromeIter;
pub use palindrome::Palindrome;
pub use predicate::IsPalindrome;
