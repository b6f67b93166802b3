//! Facts about the largest palindrome of 64 bits and about the number of
//! palindromes of each length.

use crate::digits::{
    decimal_digits, lemma_digit_count_u64, lemma_pow10_monotonic, lemma_pow10_values, pow10,
};
use crate::mirror::{
    half_len, half_weight, leading_half, lemma_digit_count_between, lemma_leading_half_monotonic,
    lemma_palindrome_has_half, palindrome_from_half,
};
use crate::palindromic::{
    count_below, is_palindromic, lemma_count_below_gap, lemma_count_below_monotonic, MAX_ORDINAL,
    MAX_PALINDROME,
};
use crate::ranking::{
    lemma_length_total, lemma_rank_of_half, length_total, palindromes_of_length,
    palindromes_up_to_length,
};
use vstd::prelude::*;

verus! {

/// The digits of `MAX_PALINDROME`, and its leading half.
pub proof fn lemma_max_palindrome_digits()
    ensures
        is_palindromic(MAX_PALINDROME as nat),
        decimal_digits(MAX_PALINDROME as nat).len() == 20,
        leading_half(MAX_PALINDROME as nat) == 1_844_674_406,
        MAX_PALINDROME == palindrome_from_half(20, 1_844_674_406),
{
    reveal_with_fuel(decimal_digits, 20);
    let d = decimal_digits(18_446_744_066_044_764_481nat);
    assert(d =~= seq![1u8, 8, 4, 4, 6, 7, 4, 4, 0, 6, 6, 0, 4, 4, 7, 6, 4, 4, 8, 1]);
    lemma_pow10_values();
    assert(half_weight(20) == pow10(10));
    lemma_palindrome_has_half(MAX_PALINDROME as nat);
}

/// No palindrome of 64 bits exceeds `MAX_PALINDROME`.
pub proof fn lemma_largest_palindrome(p: nat)
    requires
        is_palindromic(p),
        p <= u64::MAX,
    ensures
        p <= MAX_PALINDROME,
{
    if p > MAX_PALINDROME {
        let q = 18_446_744_077_044_764_481nat;
        lemma_max_palindrome_digits();
        lemma_pow10_values();
        assert(is_palindromic(q) && decimal_digits(q).len() == 20) by {
            reveal_with_fuel(decimal_digits, 20);
            let d = decimal_digits(18_446_744_077_044_764_481nat);
            assert(d =~= seq![1u8, 8, 4, 4, 6, 7, 4, 4, 0, 7, 7, 0, 4, 4, 7, 6, 4, 4, 8, 1]);
        }
        lemma_digit_count_between(MAX_PALINDROME as nat, p, q);
        lemma_leading_half_monotonic(MAX_PALINDROME as nat, p);
        lemma_leading_half_monotonic(p, q);
        lemma_palindrome_has_half(p);
        lemma_palindrome_has_half(q);
        assert(half_weight(20) == pow10(10));
        assert(leading_half(q) == 1_844_674_407);
    }
}

/// One more digit adds the palindromes of that length to the total.
proof fn lemma_length_total_step(n: nat, before: nat, half: nat)
    requires
        n >= 2,
        length_total((n - 1) as nat) == before,
        half_len(n) == half + 1,
    ensures
        length_total(n) == before + 9 * pow10(half),
{
    assert(pow10(half + 1) == 10 * pow10(half));
}

/// The sum of `palindromes_of_length` for each length that 64 bits can
/// hold.
proof fn lemma_length_total_values()
    ensures
        length_total(0) == 0,
        length_total(1) == 10,
        length_total(2) == 19,
        length_total(3) == 109,
        length_total(4) == 199,
        length_total(5) == 1_099,
        length_total(6) == 1_999,
        length_total(7) == 10_999,
        length_total(8) == 19_999,
        length_total(9) == 109_999,
        length_total(10) == 199_999,
        length_total(11) == 1_099_999,
        length_total(12) == 1_999_999,
        length_total(13) == 10_999_999,
        length_total(14) == 19_999_999,
        length_total(15) == 109_999_999,
        length_total(16) == 199_999_999,
        length_total(17) == 1_099_999_999,
        length_total(18) == 1_999_999_999,
        length_total(19) == 10_999_999_999,
        length_total(20) == 19_999_999_999,
{
    lemma_pow10_values();
    assert(length_total(0) == 0);
    assert(length_total(1) == 10) by {
        assert(length_total(1) == length_total(0) + palindromes_of_length(1));
    }
    lemma_length_total_step(2, 10, 0);
    lemma_length_total_step(3, 19, 1);
    lemma_length_total_step(4, 109, 1);
    lemma_length_total_step(5, 199, 2);
    lemma_length_total_step(6, 1_099, 2);
    lemma_length_total_step(7, 1_999, 3);
    lemma_length_total_step(8, 10_999, 3);
    lemma_length_total_step(9, 19_999, 4);
    lemma_length_total_step(10, 109_999, 4);
    lemma_length_total_step(11, 199_999, 5);
    lemma_length_total_step(12, 1_099_999, 5);
    lemma_length_total_step(13, 1_999_999, 6);
    lemma_length_total_step(14, 10_999_999, 6);
    lemma_length_total_step(15, 19_999_999, 7);
    lemma_length_total_step(16, 109_999_999, 7);
    lemma_length_total_step(17, 199_999_999, 8);
    lemma_length_total_step(18, 1_099_999_999, 8);
    lemma_length_total_step(19, 1_999_999_999, 9);
    lemma_length_total_step(20, 10_999_999_999, 9);
}

/// The number of palindromes of at most `n` digits, for each length that
/// 64 bits can hold.
pub proof fn lemma_length_totals()
    ensures
        palindromes_up_to_length(0) == 0,
        palindromes_up_to_length(1) == 10,
        palindromes_up_to_length(2) == 19,
        palindromes_up_to_length(3) == 109,
        palindromes_up_to_length(4) == 199,
        palindromes_up_to_length(5) == 1_099,
        palindromes_up_to_length(6) == 1_999,
        palindromes_up_to_length(7) == 10_999,
        palindromes_up_to_length(8) == 19_999,
        palindromes_up_to_length(9) == 109_999,
        palindromes_up_to_length(10) == 199_999,
        palindromes_up_to_length(11) == 1_099_999,
        palindromes_up_to_length(12) == 1_999_999,
        palindromes_up_to_length(13) == 10_999_999,
        palindromes_up_to_length(14) == 19_999_999,
        palindromes_up_to_length(15) == 109_999_999,
        palindromes_up_to_length(16) == 199_999_999,
        palindromes_up_to_length(17) == 1_099_999_999,
        palindromes_up_to_length(18) == 1_999_999_999,
        palindromes_up_to_length(19) == 10_999_999_999,
        palindromes_up_to_length(20) == 19_999_999_999,
{
    lemma_length_total_values();
    lemma_length_total(0);
    lemma_length_total(1);
    lemma_length_total(2);
    lemma_length_total(3);
    lemma_length_total(4);
    lemma_length_total(5);
    lemma_length_total(6);
    lemma_length_total(7);
    lemma_length_total(8);
    lemma_length_total(9);
    lemma_length_total(10);
    lemma_length_total(11);
    lemma_length_total(12);
    lemma_length_total(13);
    lemma_length_total(14);
    lemma_length_total(15);
    lemma_length_total(16);
    lemma_length_total(17);
    lemma_length_total(18);
    lemma_length_total(19);
    lemma_length_total(20);
}

/// `MAX_ORDINAL` palindromes lie below `MAX_PALINDROME`.
pub proof fn lemma_max_ordinal()
    ensures
        count_below(MAX_PALINDROME as nat) == MAX_ORDINAL,
{
    lemma_max_palindrome_digits();
    lemma_pow10_values();
    lemma_length_total_values();
    lemma_rank_of_half(20, 1_844_674_406);
}

/// The total over the lengths grows with the length.
proof fn lemma_length_total_monotonic(a: nat, b: nat)
    requires
        a <= b,
    ensures
        length_total(a) <= length_total(b),
    decreases b,
{
    if a < b {
        lemma_length_total_monotonic(a, (b - 1) as nat);
    }
}

/// At most `MAX_ORDINAL + 1` palindromes lie below a number of 64 bits.
pub proof fn lemma_count_below_u64(to: u64)
    ensures
        count_below(to as nat) <= MAX_ORDINAL + 1,
{
    lemma_max_ordinal();
    lemma_max_palindrome_digits();
    if to > MAX_PALINDROME {
        assert forall|p: nat| MAX_PALINDROME + 1 <= p < to implies !is_palindromic(p) by {
            if is_palindromic(p) {
                lemma_largest_palindrome(p);
            }
        }
        lemma_count_below_gap((MAX_PALINDROME + 1) as nat, to as nat);
    } else {
        lemma_count_below_monotonic(to as nat, MAX_PALINDROME as nat);
    }
}

/// The sizes of the terms from which the count of palindromes below a
/// number of 64 bits is formed.
pub proof fn lemma_count_terms(to: u64)
    ensures
        1 <= decimal_digits(to as nat).len() <= 20,
        pow10(half_len(decimal_digits(to as nat).len())) <= 10_000_000_000,
        palindromes_up_to_length(decimal_digits(to as nat).len()) <= 19_999_999_999,
{
    let n = decimal_digits(to as nat).len();
    lemma_digit_count_u64(to);
    assert(pow10(half_len(n)) <= 10_000_000_000) by {
        lemma_pow10_values();
        lemma_pow10_monotonic(half_len(n), 10);
    }
    assert(palindromes_up_to_length(n) <= 19_999_999_999) by {
        lemma_length_total(n);
        lemma_length_total_monotonic(n, 20);
        lemma_length_total_values();
    }
}

} // verus!
