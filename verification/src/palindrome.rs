//! The palindrome type and the operations that produce palindromes.

use crate::digits::{
    all_digits, decimal_digits, digits_value, is_decimal, lemma_borrow, lemma_carry,
    lemma_decimal_digits, lemma_decimal_ends, lemma_digit_count, lemma_digit_count_u64,
    lemma_pow10_monotonic, lemma_pow10_values, lemma_value_nines, lemma_value_one_then_zeros,
    lemma_value_prefix_le, pow10, repeated,
};
use crate::iter::PalindromeIter;
use crate::limits::{lemma_largest_palindrome, lemma_length_totals};
use crate::mirror::{
    half_len, is_half_notation, leading_half, lemma_mirrored_is_palindromic,
    lemma_valid_half_digits, lowest_half, mirrored,
};
use crate::nearest::{
    lemma_all_matched, lemma_ceiling_raised, lemma_ceiling_reflected, lemma_ceiling_upper_half,
    lemma_floor_lowered, lemma_floor_reflected, lemma_floor_shortened, lemma_reflection_above,
    lemma_reflection_below, lemma_reflection_digits, matched_after,
};
use crate::palindromic::{
    ceiling_palindrome, closest_palindrome, count_below, floor_palindrome, is_palindromic,
    lemma_floor_palindrome, lemma_max_is_palindromic, lemma_single_digit_palindromic,
    next_palindrome, nth_palindrome, previous_palindrome, MAX_ORDINAL, MAX_PALINDROME,
};
use crate::predicate::IsPalindrome;
use crate::ranking::{lemma_nth_by_half, lemma_nth_single_digit, palindromes_up_to_length};
use vstd::prelude::*;
use vstd::slice::slice_subrange;

verus! {

/// A number whose decimal digits read the same in both directions, at most
/// `Palindrome::MAX`.
#[derive(Debug, Clone, Copy, PartialEq, Eq, PartialOrd, Structural)]
pub struct Palindrome(u64);

impl View for Palindrome {
    type V = nat;

    closed spec fn view(&self) -> nat {
        self.0 as nat
    }
}

impl Palindrome {
    /// The least palindrome.
    pub const MIN: u64 = 0;

    /// The greatest palindrome that fits in 64 bits.
    pub const MAX: u64 = MAX_PALINDROME;

    #[verifier::type_invariant]
    closed spec fn well_formed(self) -> bool {
        is_palindromic(self.0 as nat) && self.0 <= MAX_PALINDROME
    }

    /// The number itself.
    pub fn value(&self) -> (r: u64)
        ensures
            r == self@,
            is_palindromic(self@),
            self@ <= MAX_PALINDROME,
    {
        proof {
            use_type_invariant(self);
        }
        self.0
    }

    /// The decimal digits of `x`, most significant first; zero is the single
    /// digit `0`.
    pub fn to_digits(x: u64) -> (digits: Vec<u8>)
        ensures
            digits@ == decimal_digits(x as nat),
    {
        let ghost all = decimal_digits(x as nat);
        proof {
            lemma_digit_count_u64(x);
            lemma_decimal_digits(x as nat);
        }
        let mut length: usize = 1;
        let mut rest: u64 = x / 10;
        while rest > 0
            invariant
                1 <= length <= all.len() <= 20,
                all == decimal_digits(x as nat),
                rest == 0 ==> length == all.len(),
                rest > 0 ==> length + decimal_digits(rest as nat).len() == all.len(),
            decreases rest,
        {
            proof {
                lemma_digit_count((rest / 10) as nat);
            }
            length += 1;
            rest /= 10;
        }
        let mut digits: Vec<u8> = vec![0u8; length];
        let mut rest: u64 = x;
        let mut idx: usize = 1;
        while idx <= length
            invariant
                1 <= idx <= length + 1,
                length == all.len(),
                length <= 20,
                digits.len() == length,
                all == decimal_digits(x as nat),
                idx <= length ==> decimal_digits(rest as nat) == all.take(length - idx + 1),
                forall|i: int| length - idx < i < length ==> digits[i] == all[i],
            decreases length + 1 - idx,
        {
            let ghost lead = decimal_digits(rest as nat);
            proof {
                lemma_digit_count(rest as nat);
                assert(lead.last() == (rest % 10) as u8);
                assert(lead.last() == all[length - idx]);
                if rest >= 10 {
                    assert(decimal_digits((rest / 10) as nat) =~= lead.drop_last());
                    assert(lead.drop_last() =~= all.take(length - idx));
                }
            }
            digits[length - idx] = (rest % 10) as u8;
            rest /= 10;
            idx += 1;
        }
        proof {
            assert(digits@ =~= all);
        }
        digits
    }

    /// The palindrome of `length` digits that starts with `digits_half` and
    /// goes on with the same digits backwards, the last of them left out
    /// where `length` is odd.
    ///
    /// `digits_half` holds the leading half of the digits, the middle one
    /// included: decimal digits that start with a digit other than zero, or
    /// are all zero. The palindrome has to fit in 64 bits.
    pub fn construct_palindrome(length: usize, digits_half: &[u8]) -> (r: Self)
        requires
            half_len(length as nat) == digits_half@.len(),
            is_half_notation(digits_half@),
            digits_value(mirrored(length as nat, digits_half@)) <= u64::MAX,
        ensures
            r@ == digits_value(mirrored(length as nat, digits_half@)),
    {
        let ghost whole = mirrored(length as nat, digits_half@);
        let half_length = digits_half.len();
        let second_half_range = length - half_length;
        let mut palindrome: u64 = 0;
        let mut fh_idx: usize = 0;
        while fh_idx < half_length
            invariant
                fh_idx <= half_length <= length,
                half_length == digits_half@.len(),
                whole == mirrored(length as nat, digits_half@),
                digits_value(whole) <= u64::MAX,
                all_digits(digits_half@),
                palindrome == digits_value(whole.take(fh_idx as int)),
            decreases half_length - fh_idx,
        {
            proof {
                let next = whole.take(fh_idx + 1);
                lemma_value_prefix_le(whole, fh_idx + 1);
                assert(next.drop_last() =~= whole.take(fh_idx as int));
                assert(next.last() == digits_half@[fh_idx as int]);
            }
            palindrome *= 10;
            palindrome += digits_half[fh_idx] as u64;
            fh_idx += 1;
        }
        let mut sh_rev_idx: usize = 1;
        while sh_rev_idx <= second_half_range
            invariant
                1 <= sh_rev_idx <= second_half_range + 1,
                second_half_range == length - half_length,
                second_half_range <= half_length,
                half_length == digits_half@.len(),
                whole == mirrored(length as nat, digits_half@),
                digits_value(whole) <= u64::MAX,
                all_digits(digits_half@),
                palindrome == digits_value(whole.take(half_length + sh_rev_idx - 1)),
            decreases second_half_range + 1 - sh_rev_idx,
        {
            proof {
                let next = whole.take(half_length + sh_rev_idx);
                lemma_value_prefix_le(whole, half_length + sh_rev_idx);
                assert(next.drop_last() =~= whole.take(half_length + sh_rev_idx - 1));
                assert(next.last() == digits_half@[second_half_range - sh_rev_idx]);
            }
            palindrome *= 10;
            palindrome += digits_half[second_half_range - sh_rev_idx] as u64;
            sh_rev_idx += 1;
        }
        proof {
            assert(whole.take(length as int) =~= whole);
            lemma_mirrored_is_palindromic(length as nat, digits_half@);
            lemma_largest_palindrome(palindrome as nat);
        }
        Palindrome(palindrome)
    }

    /// Return the greatest palindrome that is less than or equal to `x`.
    pub fn le(x: u64) -> (r: Self)
        ensures
            r@ == floor_palindrome(x as nat),
    {
        if x.is_palindrome() {
            proof {
                lemma_largest_palindrome(x as nat);
            }
            return Palindrome(x);
        }
        let mut digits = Self::to_digits(x);
        let ghost all = digits@;
        proof {
            lemma_decimal_digits(x as nat);
            lemma_decimal_ends(x as nat);
            lemma_digit_count_u64(x);
            lemma_floor_palindrome(x as nat);
            lemma_reflection_digits(x as nat);
            if all.len() == 1 {
                lemma_digit_count(x as nat);
                lemma_single_digit_palindromic(x as nat);
            }
        }
        let half_length = (digits.len() + 1) / 2;
        let mut fh_idx = half_length - 1;
        let mut sh_idx = half_length;
        if digits.len() % 2 == 1 {
            sh_idx -= 1;  // The middle digit is compared with itself.
        }
        let mut skip: usize = 0;
        let mut length = digits.len();
        loop
            invariant
                all == decimal_digits(x as nat),
                digits@ == all,
                2 <= all.len() <= 20,
                is_decimal(all),
                all[0] != 0,
                !is_palindromic(x as nat),
                floor_palindrome(x as nat) <= x,
                half_length == half_len(all.len()),
                length == all.len(),
                skip == 0,
                fh_idx < half_length,
                sh_idx == all.len() - 1 - fh_idx,
                matched_after(all, fh_idx as int),
                leading_half(x as nat) == digits_value(all.take(half_length as int)),
            decreases fh_idx,
        {
            // Going outwards from the middle, the first digit that differs from
            // its mirror decides: 372 -> 363 and 4847 -> 4774 keep the leading
            // half, 4003 -> 3993 and 100 -> 99 lower it.
            if digits[fh_idx] < digits[sh_idx] {
                proof {
                    lemma_reflection_below(x as nat, fh_idx as int);
                    lemma_floor_reflected(x as nat);
                    assert(all.take(half_length as int)[0] == all[0]);
                    assert forall|i: int| 0 <= i < half_length implies all.take(
                        half_length as int,
                    )[i] <= 9 by {
                        assert(all[i] <= 9);
                    }
                    assert(all.subrange(0, half_length as int) =~= all.take(half_length as int));
                }
                return Self::construct_palindrome(
                    length,
                    slice_subrange(digits.as_slice(), 0, half_length),
                );
            }
            if digits[fh_idx] > digits[sh_idx] {
                // Lower the leading half by one: borrow through the zeros from the
                // middle outwards, then take one from the first digit that has one.
                proof {
                    lemma_reflection_above(x as nat, fh_idx as int);
                }
                let center_idx = half_length - 1;
                let mut i: usize = 0;
                while i < half_length
                    invariant_except_break
                        digits.len() == all.len(),
                        2 <= all.len() <= 20,
                        half_length == half_len(all.len()),
                        center_idx == half_length - 1,
                        i <= half_length,
                        is_decimal(all),
                        all[0] != 0,
                        skip == 0,
                        length == all.len(),
                        forall|j: int|
                            center_idx - i < j <= center_idx ==> #[trigger] all[j] == 0
                                && digits[j] == 9,
                        forall|j: int| 0 <= j <= center_idx - i ==> digits[j] == #[trigger] all[j],
                    ensures
                        digits.len() == all.len(),
                        all_digits(digits@.take(half_length as int)),
                        length == all.len() ==> {
                            &&& skip == 0
                            &&& digits[0] != 0
                            &&& digits_value(digits@.take(half_length as int)) + 1 == digits_value(
                                all.take(half_length as int),
                            )
                        },
                        length != all.len() ==> {
                            &&& length == all.len() - 1
                            &&& skip == all.len() % 2
                            &&& digits_value(all.take(half_length as int)) == lowest_half(all.len())
                            &&& digits@.take(half_length as int) == repeated(9, half_length as nat)
                        },
                    decreases half_length - i,
                {
                    let ghost before = all.take(half_length as int);
                    let ghost turned = digits@;
                    proof {
                        assert(turned[center_idx - i] == all[center_idx - i]);
                        assert(all[center_idx - i] <= 9);
                        assert forall|j: int| center_idx - i < j <= center_idx implies all[j]
                            == 0 && turned[j] == 9 by {}
                        assert forall|j: int| 0 <= j <= center_idx - i implies turned[j]
                            == all[j] by {}
                    }
                    if digits[center_idx - i] == 0 {
                        digits[center_idx - i] = 9;
                        i += 1;
                        continue ;
                    }
                    digits[center_idx - i] -= 1;
                    proof {
                        lemma_borrow(before, digits@.take(half_length as int), center_idx - i);
                    }
                    // The leading digit has gone: the result is one digit shorter
                    // and all nines. For 100 -> 99 the half shrinks, for 10 -> 9 it
                    // does not.
                    if center_idx - i == 0 && digits[center_idx - i] == 0 {
                        proof {
                            lemma_value_one_then_zeros(before);
                        }
                        digits[center_idx - i] = 9;
                        if length % 2 == 1 {
                            skip += 1;
                        }
                        length -= 1;
                        proof {
                            assert(digits@.take(half_length as int) =~= repeated(
                                9,
                                half_length as nat,
                            ));
                        }
                    }
                    break ;
                }
                proof {
                    let kept = digits@.subrange(skip as int, half_length as int);
                    if length == all.len() {
                        assert(kept =~= digits@.take(half_length as int));
                        lemma_floor_lowered(x as nat, kept);
                    } else {
                        let nines = digits@.take(half_length as int);
                        assert forall|j: int| 0 <= j < kept.len() implies kept[j] == 9 by {
                            assert(kept[j] == nines[j + skip]);
                        }
                        assert(kept =~= repeated(9, half_len((all.len() - 1) as nat)));
                        lemma_floor_shortened(x as nat, kept);
                    }
                }
                return Self::construct_palindrome(
                    length,
                    slice_subrange(digits.as_slice(), skip, half_length),
                );
            }
            proof {
                if fh_idx == 0 {
                    lemma_all_matched(x as nat);
                }
            }
            fh_idx -= 1;
            sh_idx += 1;
        }
    }

    /// Return the least palindrome that is greater than or equal to `x`.
    ///
    /// **ATTENTION:** Any value above [`Self::MAX`] will return [`Self::MAX`].
    pub fn ge(x: u64) -> (r: Self)
        ensures
            r@ == ceiling_palindrome(x as nat),
    {
        if x >= Self::MAX {
            return Self::largest();
        }
        if x.is_palindrome() {
            return Palindrome(x);
        }
        let mut digits = Self::to_digits(x);
        let ghost all = digits@;
        proof {
            lemma_decimal_digits(x as nat);
            lemma_decimal_ends(x as nat);
            lemma_digit_count_u64(x);
            lemma_reflection_digits(x as nat);
            if all.len() == 1 {
                lemma_digit_count(x as nat);
                lemma_single_digit_palindromic(x as nat);
            }
        }
        let half_length = (digits.len() + 1) / 2;
        let mut fh_idx = half_length - 1;
        let mut sh_idx = half_length;
        if digits.len() % 2 == 1 {
            fh_idx -= 1;  // The middle digit has no mirror.
        }
        loop
            invariant
                all == decimal_digits(x as nat),
                digits@ == all,
                2 <= all.len() <= 20,
                is_decimal(all),
                all[0] != 0,
                x < MAX_PALINDROME,
                !is_palindromic(x as nat),
                half_length == half_len(all.len()),
                fh_idx < half_length,
                sh_idx == all.len() - 1 - fh_idx,
                matched_after(all, fh_idx as int),
                leading_half(x as nat) == digits_value(all.take(half_length as int)),
            decreases fh_idx,
        {
            if digits[fh_idx] > digits[sh_idx] {
                proof {
                    lemma_reflection_above(x as nat, fh_idx as int);
                    lemma_ceiling_reflected(x as nat);
                    assert(all.take(half_length as int)[0] == all[0]);
                    assert forall|i: int| 0 <= i < half_length implies all.take(
                        half_length as int,
                    )[i] <= 9 by {
                        assert(all[i] <= 9);
                    }
                    assert(all.subrange(0, half_length as int) =~= all.take(half_length as int));
                }
                return Self::construct_palindrome(
                    digits.len(),
                    slice_subrange(digits.as_slice(), 0, half_length),
                );
            }
            if digits[fh_idx] < digits[sh_idx] {
                // Raise the leading half by one: carry through the nines from the
                // middle outwards, then add one to the first digit below nine. A
                // half of nines alone cannot occur here: its reflection is at
                // least `x`.
                proof {
                    lemma_reflection_below(x as nat, fh_idx as int);
                    lemma_ceiling_upper_half(x as nat);
                }
                let center_idx = half_length - 1;
                let mut i: usize = 0;
                while i < half_length
                    invariant_except_break
                        digits.len() == all.len(),
                        2 <= all.len() <= 20,
                        half_length == half_len(all.len()),
                        center_idx == half_length - 1,
                        i < half_length,
                        is_decimal(all),
                        all[0] != 0,
                        digits_value(all.take(half_length as int)) + 1 < pow10(half_length as nat),
                        forall|j: int|
                            center_idx - i < j <= center_idx ==> #[trigger] all[j] == 9
                                && digits[j] == 0,
                        forall|j: int| 0 <= j <= center_idx - i ==> digits[j] == #[trigger] all[j],
                    ensures
                        digits.len() == all.len(),
                        all_digits(digits@.take(half_length as int)),
                        digits[0] != 0,
                        digits_value(digits@.take(half_length as int)) == digits_value(
                            all.take(half_length as int),
                        ) + 1,
                    decreases half_length - i,
                {
                    let ghost before = all.take(half_length as int);
                    let ghost turned = digits@;
                    proof {
                        assert(turned[center_idx - i] == all[center_idx - i]);
                        assert(all[center_idx - i] <= 9);
                        assert forall|j: int| center_idx - i < j <= center_idx implies all[j]
                            == 9 && turned[j] == 0 by {}
                        assert forall|j: int| 0 <= j <= center_idx - i implies turned[j]
                            == all[j] by {}
                    }
                    if digits[center_idx - i] == 9 {
                        proof {
                            if i == center_idx {
                                assert(before =~= repeated(9, half_length as nat)) by {
                                    assert forall|j: int| 0 <= j < half_length implies before[j]
                                        == 9 by {
                                        assert(all[j] == 9);
                                    }
                                }
                                lemma_value_nines(half_length as nat);
                            }
                        }
                        digits[center_idx - i] = 0;
                        proof {
                            assert forall|j: int| center_idx - i <= j <= center_idx implies all[j]
                                == 9 && digits[j] == 0 by {
                                if j > center_idx - i {
                                    assert(all[j] == 9 && turned[j] == 0);
                                }
                            }
                            assert forall|j: int| 0 <= j < center_idx - i implies digits[j]
                                == all[j] by {
                                assert(turned[j] == all[j]);
                            }
                        }
                        i += 1;
                        continue ;
                    }
                    digits[center_idx - i] += 1;
                    proof {
                        let raised = digits@.take(half_length as int);
                        assert forall|j: int| 0 <= j < center_idx - i implies raised[j]
                            == before[j] by {
                            assert(turned[j] == all[j]);
                        }
                        assert forall|j: int| center_idx - i < j < before.len() implies before[j]
                            == 9 && raised[j] == 0 by {
                            assert(all[j] == 9 && turned[j] == 0);
                        }
                        lemma_carry(before, raised, center_idx - i);
                        if center_idx - i > 0 {
                            assert(turned[0] == all[0]);
                        }
                    }
                    break ;
                }
                proof {
                    let kept = digits@.subrange(0, half_length as int);
                    assert(kept =~= digits@.take(half_length as int));
                    lemma_ceiling_raised(x as nat, kept);
                }
                return Self::construct_palindrome(
                    digits.len(),
                    slice_subrange(digits.as_slice(), 0, half_length),
                );
            }
            proof {
                if fh_idx == 0 {
                    lemma_all_matched(x as nat);
                }
            }
            fh_idx -= 1;
            sh_idx += 1;
        }
    }

    /// Return the palindrome closest to `x`: of [`Self::le`] and [`Self::ge`]
    /// the one at the smaller distance.
    ///
    /// **NOTE:** If the closest palindrome is in both directions,
    /// return the higher number. E.g.: `x=10` returns `11`.
    pub fn closest(x: u64) -> (r: Self)
        ensures
            r@ == closest_palindrome(x as nat),
    {
        let ge = Self::ge(x);
        let le = Self::le(x);
        proof {
            lemma_floor_palindrome(x as nat);
        }
        let above = if ge.0 >= x {
            ge.0 - x
        } else {
            x - ge.0
        };
        if above <= x - le.0 {
            return ge;
        }
        le
    }

    /// Return the previous palindromic number.
    ///
    /// **NOTE:** Lowest return-value is [`Self::MIN`].
    pub fn previous(&self) -> (r: Self)
        ensures
            r@ == previous_palindrome(self@),
    {
        if self.0 == 0 {
            return Palindrome(0);
        }
        Self::le(self.0 - 1)
    }

    /// Return the next palindromic number.
    ///
    /// **NOTE:** Highest return-value is [`Self::MAX`].
    pub fn next(&self) -> (r: Self)
        ensures
            r@ == next_palindrome(self@),
    {
        if self.0 >= Self::MAX {
            return Self::largest();
        }
        Self::ge(self.0 + 1)
    }

    /// Return the nth palindrome (0-based indexing).
    ///
    /// **NOTE:** Returns [`None`] if the palindrome is larger than [`Self::MAX`],
    /// that is, if `n` is larger than [`PalindromeIter::MAX_N`].
    pub fn nth(n: u64) -> (r: Option<Self>)
        ensures
            n > MAX_ORDINAL ==> r is None,
            n <= MAX_ORDINAL ==> r is Some && r->0@ == nth_palindrome(n as nat),
    {
        if n > PalindromeIter::MAX_N {
            return None;
        }
        // The palindromes below ten are their own ranks.
        if n < 10 {
            proof {
                lemma_nth_single_digit(n as nat);
                lemma_single_digit_palindromic(n as nat);
            }
            return Some(Palindrome(n));
        }
        proof {
            lemma_length_totals();
        }
        let mut n_copy = n;
        let mut n_digits: u8 = 1;
        while n_digits <= 20
            invariant
                1 <= n_digits <= 21,
                n_copy == n,
                10 <= n <= MAX_ORDINAL,
                n >= palindromes_up_to_length((n_digits - 1) as nat),
            decreases 21 - n_digits,
        {
            if n_copy < PalindromeIter::palindromes_in_n_digits(n_digits) {
                // What is left of the rank once the shorter palindromes are taken
                // off counts on from the least leading half of this length.
                n_copy -= PalindromeIter::palindromes_in_n_digits(n_digits - 1);
                let first_n_digits = (n_digits + 1) / 2;
                proof {
                    lemma_length_totals();
                    lemma_pow10_values();
                    lemma_pow10_monotonic(half_len(n_digits as nat), 10);
                    lemma_nth_by_half(n as nat, n_digits as nat);
                }
                let first_half = Self::power_of_ten(first_n_digits - 1) + n_copy;
                let digits_half = Self::to_digits(first_half);
                proof {
                    lemma_valid_half_digits(n_digits as nat, first_half as nat);
                }

                return Some(Self::construct_palindrome(n_digits as usize, digits_half.as_slice()));
            }
            n_digits += 1;
        }
        proof {
            lemma_length_totals();
        }
        None
    }

    /// Return the rank of `self` among all palindromes, counted from zero.
    ///
    /// Opposite of [`Self::nth`].
    pub fn to_n(&self) -> (n: u64)
        ensures
            n == count_below(self@),
    {
        PalindromeIter::len_from_0(self.0)
    }

    /// Ten raised to the power `exponent`.
    fn power_of_ten(exponent: u8) -> (r: u64)
        requires
            exponent <= 19,
        ensures
            r == pow10(exponent as nat),
    {
        let mut r: u64 = 1;
        let mut k: u8 = 0;
        while k < exponent
            invariant
                k <= exponent <= 19,
                r == pow10(k as nat),
            decreases exponent - k,
        {
            proof {
                lemma_pow10_values();
                lemma_pow10_monotonic((k + 1) as nat, 19);
            }
            r *= 10;
            k += 1;
        }
        r
    }

    fn largest() -> (r: Self)
        ensures
            r@ == Self::MAX,
            r@ == MAX_PALINDROME,
    {
        proof {
            lemma_max_is_palindromic();
        }
        Palindrome(Self::MAX)
    }
}

} // verus!
