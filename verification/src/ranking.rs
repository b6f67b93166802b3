//! Counting palindromes without enumerating them: the number of
//! palindromes below a bound follows from the bound's length and leading
//! half.

use crate::digits::{
    decimal_digits, lemma_digit_count, lemma_digit_count_from_bounds, lemma_pow10_1,
    lemma_pow10_positive, pow10,
};
use crate::limits::lemma_max_ordinal;
use crate::mirror::{
    half_len, leading_half, lemma_digit_count_between, lemma_leading_half_monotonic,
    lemma_palindrome_from_half, lemma_palindrome_from_lowest, lemma_palindrome_from_nines,
    lemma_palindrome_has_half, lowest_half, palindrome_from_half, valid_half,
};
use crate::nearest::{
    lemma_reflection, lemma_reflection_single_digit, lemma_reflection_unique, reflection,
};
use crate::palindromic::{
    count_below, is_palindromic, lemma_ceiling_palindrome_unique, lemma_count_below_gap,
    lemma_count_below_strict, lemma_max_is_palindromic, lemma_nth_palindrome_by_count,
    lemma_single_digit_palindromic, nth_palindrome, MAX_ORDINAL, MAX_PALINDROME,
};
use vstd::prelude::*;

verus! {

/// The number of palindromes of at most `n` digits.
pub open spec fn palindromes_up_to_length(n: nat) -> nat {
    if n == 0 {
        0
    } else {
        count_below(pow10(n))
    }
}

/// The number of palindromes of exactly `n` digits, `n` at least one: one
/// for each leading half.
pub open spec fn palindromes_of_length(n: nat) -> nat {
    (pow10(half_len(n)) - lowest_half(n)) as nat
}

/// The sum of `palindromes_of_length` over the lengths up to `n`.
pub open spec fn length_total(n: nat) -> nat
    decreases n,
{
    if n == 0 {
        0
    } else {
        length_total((n - 1) as nat) + palindromes_of_length(n)
    }
}

/// The number of palindromes below a palindrome: those that are shorter,
/// and those of the same length with a lesser leading half.
pub open spec fn rank_of_half(length: nat, half: nat) -> nat {
    (length_total((length - 1) as nat) + half - lowest_half(length)) as nat
}

/// Between a palindrome and the next number that no smaller palindrome
/// precedes, the count grows by one.
proof fn lemma_count_below_next(q: nat, p: nat)
    requires
        is_palindromic(q),
        q < p,
        forall|r: nat| q < r < p ==> !is_palindromic(r),
    ensures
        count_below(p) == count_below(q) + 1,
{
    assert forall|r: nat| q + 1 <= r < p implies !is_palindromic(r) by {}
    lemma_count_below_gap(q + 1, p);
}

/// The lowest leading half is below the power of ten that bounds the halves.
pub proof fn lemma_lowest_half_valid(length: nat)
    requires
        length >= 1,
    ensures
        valid_half(length, lowest_half(length)),
        palindromes_of_length(length) >= 1,
{
    let k = half_len(length);
    lemma_pow10_positive((k - 1) as nat);
    lemma_pow10_positive(k);
    assert(pow10(k) == 10 * pow10((k - 1) as nat));
}

/// `rank_of_half` counts the palindromes below `palindrome_from_half`.
pub proof fn lemma_rank_of_half(length: nat, half: nat)
    requires
        valid_half(length, half),
    ensures
        count_below(palindrome_from_half(length, half)) == rank_of_half(length, half),
    decreases length, half,
{
    let p = palindrome_from_half(length, half);
    lemma_palindrome_from_half(length, half);
    if half > lowest_half(length) {
        let q = palindrome_from_half(length, (half - 1) as nat);
        lemma_rank_of_half(length, (half - 1) as nat);
        lemma_palindrome_from_half(length, (half - 1) as nat);
        if q >= p {
            lemma_leading_half_monotonic(p, q);
        }
        assert forall|r: nat| q < r < p implies !is_palindromic(r) by {
            if is_palindromic(r) {
                lemma_digit_count_between(q, r, p);
                lemma_leading_half_monotonic(q, r);
                lemma_leading_half_monotonic(r, p);
                lemma_palindrome_has_half(r);
            }
        }
        lemma_count_below_next(q, p);
    } else if length == 1 {
        lemma_pow10_1();
        lemma_reflection_single_digit(0);
        assert(decimal_digits(0).len() == 1);
        assert(leading_half(0) == 0);
        assert(p == 0);
    } else {
        let short = (length - 1) as nat;
        let top = (pow10(half_len(short)) - 1) as nat;
        lemma_palindrome_from_nines(short);
        lemma_rank_of_half(short, top);
        lemma_palindrome_from_half(short, top);
        let q = palindrome_from_half(short, top);
        lemma_palindrome_from_lowest(length);
        assert forall|r: nat| q < r < p implies !is_palindromic(r) by {
            if is_palindromic(r) {
                lemma_digit_count_from_bounds(r, length);
                lemma_leading_half_monotonic(r, p);
                lemma_palindrome_has_half(r);
            }
        }
        lemma_count_below_next(q, p);
    }
}

/// `length_total` counts the palindromes of at most `n` digits.
pub proof fn lemma_length_total(n: nat)
    ensures
        palindromes_up_to_length(n) == length_total(n),
{
    if n >= 1 {
        let top = (pow10(half_len(n)) - 1) as nat;
        lemma_palindrome_from_nines(n);
        lemma_rank_of_half(n, top);
        lemma_palindrome_from_half(n, top);
    }
}

/// The number of palindromes below `x`: the rank of the reflection of `x`,
/// and one more where that reflection is itself below `x`.
pub proof fn lemma_count_below_by_half(x: nat)
    ensures
        valid_half(decimal_digits(x).len(), leading_half(x)),
        count_below(x) == rank_of_half(decimal_digits(x).len(), leading_half(x)) + if reflection(x)
            < x {
            1nat
        } else {
            0nat
        },
{
    let m = reflection(x);
    lemma_reflection(x);
    lemma_rank_of_half(decimal_digits(x).len(), leading_half(x));
    if m < x {
        assert forall|p: nat| m < p < x implies !is_palindromic(p) by {
            if is_palindromic(p) {
                lemma_digit_count_between(m, p, x);
                lemma_leading_half_monotonic(m, p);
                lemma_leading_half_monotonic(p, x);
                lemma_reflection_unique(x, p);
            }
        }
        lemma_count_below_next(m, x);
    } else {
        assert forall|p: nat| x <= p < m implies !is_palindromic(p) by {
            if is_palindromic(p) {
                lemma_digit_count_between(x, p, m);
                lemma_leading_half_monotonic(x, p);
                lemma_leading_half_monotonic(p, m);
                lemma_reflection_unique(x, p);
            }
        }
        lemma_count_below_gap(x, m);
    }
}

/// The count of palindromes below `x`, from the number of palindromes
/// that are no longer than `x`: of these, as many are left out as there
/// are leading halves from that of `x` on, but for the reflection of `x`
/// where it is below `x`.
pub proof fn lemma_count_below_from_total(x: nat)
    ensures
        leading_half(x) < pow10(half_len(decimal_digits(x).len())),
        count_below(x) + pow10(half_len(decimal_digits(x).len())) == palindromes_up_to_length(
            decimal_digits(x).len(),
        ) + leading_half(x) + if reflection(x) < x {
            1nat
        } else {
            0nat
        },
{
    let n = decimal_digits(x).len();
    lemma_digit_count(x);
    lemma_count_below_by_half(x);
    lemma_length_total(n);
    lemma_lowest_half_valid(n);
}

/// The palindrome of rank `n`, where `n` lies between the number of
/// palindromes shorter than `length` and the number of those no longer:
/// its leading half is the least one of the length plus what `n` exceeds
/// the former by.
pub proof fn lemma_nth_by_half(n: nat, length: nat)
    requires
        length >= 1,
        palindromes_up_to_length((length - 1) as nat) <= n < palindromes_up_to_length(length),
        n <= MAX_ORDINAL,
    ensures
        valid_half(
            length,
            (lowest_half(length) + n - palindromes_up_to_length((length - 1) as nat)) as nat,
        ),
        nth_palindrome(n) == palindrome_from_half(
            length,
            (lowest_half(length) + n - palindromes_up_to_length((length - 1) as nat)) as nat,
        ),
        nth_palindrome(n) <= MAX_PALINDROME,
{
    let half = (lowest_half(length) + n - palindromes_up_to_length((length - 1) as nat)) as nat;
    lemma_length_total(length);
    lemma_length_total((length - 1) as nat);
    lemma_lowest_half_valid(length);
    lemma_rank_of_half(length, half);
    lemma_palindrome_from_half(length, half);
    let p = palindrome_from_half(length, half);
    lemma_max_ordinal();
    lemma_max_is_palindromic();
    if p > MAX_PALINDROME {
        lemma_count_below_strict(MAX_PALINDROME as nat, p);
    }
    lemma_nth_palindrome_by_count(n, p);
}

/// The first ten palindromes are the numbers below ten.
pub proof fn lemma_nth_single_digit(n: nat)
    requires
        n < 10,
    ensures
        nth_palindrome(n) == n,
    decreases n,
{
    if n > 0 {
        lemma_nth_single_digit((n - 1) as nat);
        lemma_single_digit_palindromic(n);
        lemma_ceiling_palindrome_unique(n, n);
    }
}

} // verus!
