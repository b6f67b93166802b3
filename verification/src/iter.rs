//! Ranges of palindromes, with a length that is computed rather than
//! counted.

use crate::digits::{
    decimal_digits, digits_value, is_decimal, lemma_decimal_digits, lemma_pow10_monotonic,
    lemma_take_step, pow10,
};
use crate::limits::{
    lemma_count_terms, lemma_largest_palindrome, lemma_length_totals, lemma_max_ordinal,
};
use crate::mirror::half_len;
use crate::nearest::{
    lemma_all_matched, lemma_reflection_above, lemma_reflection_below, lemma_reflection_digits,
    lemma_reflection_of_palindrome, matched_after,
};
use crate::palindrome::Palindrome;
use crate::palindromic::{
    ceiling_palindrome, count_below, is_palindromic, lemma_ceiling_palindrome,
    lemma_ceiling_palindrome_unique, lemma_count_below_bound, lemma_count_below_monotonic,
    lemma_count_below_nth, lemma_count_below_strict, lemma_palindromes_in_len,
    lemma_palindromes_in_skip, lemma_single_digit_palindromic, nth_palindrome, palindromes_in,
    MAX_ORDINAL, MAX_PALINDROME,
};
use crate::ranking::{lemma_count_below_from_total, palindromes_up_to_length};
use vstd::prelude::*;
use vstd::slice::slice_subrange;

verus! {

/// For each number of digits up to twenty, the number of palindromes with
/// at most that many digits.
const PALINDROMES_BY_LENGTH: [u64; 21] = [
    0,
    10,
    19,
    109,
    199,
    1099,
    1999,
    10999,
    19999,
    109999,
    199999,
    1099999,
    1999999,
    10999999,
    19999999,
    109999999,
    199999999,
    1099999999,
    1999999999,
    10999999999,
    19999999999,
];

/// The palindromes from one palindrome up to, and without, a bound.
pub struct PalindromeIter {
    from: Palindrome,
    to: u64,
}

impl View for PalindromeIter {
    type V = Seq<nat>;

    /// The palindromes that are yet to come, in the order in which they come.
    closed spec fn view(&self) -> Seq<nat> {
        palindromes_in(self.from@, self.to as nat)
    }
}

/// The bound up to which the `n` palindromes from `from` on extend: the
/// palindrome that is `n` ranks after `from`, or `MAX_PALINDROME` where
/// that rank exceeds `MAX_ORDINAL`.
pub open spec fn first_n_bound(from: nat, n: nat) -> nat {
    if count_below(from) + n <= MAX_ORDINAL {
        nth_palindrome(count_below(from) + n)
    } else {
        MAX_PALINDROME as nat
    }
}

/// Of two palindromes, the one with fewer palindromes below it is the
/// smaller or the same.
pub proof fn lemma_count_below_order(p: nat, q: nat)
    requires
        is_palindromic(p),
        is_palindromic(q),
        count_below(p) <= count_below(q),
    ensures
        p <= q,
{
    if q < p {
        lemma_count_below_strict(q, p);
    }
}

impl PalindromeIter {
    /// The 0-based index of the largest palindrome that can fit in a `u64`.
    pub const MAX_N: u64 = MAX_ORDINAL;

    /// The number of palindromes of at most `n` digits.
    pub fn palindromes_in_n_digits(n: u8) -> (count: u64)
        requires
            n <= 20,
        ensures
            count == palindromes_up_to_length(n as nat),
    {
        proof {
            lemma_length_totals();
        }
        PALINDROMES_BY_LENGTH[n as usize]
    }

    /// The number of palindromes below `to`.
    pub fn len_from_0(to: u64) -> (count: u64)
        ensures
            count == count_below(to as nat),
    {
        if to == 0 {
            return 0;
        }
        let digits = Palindrome::to_digits(to);
        let ghost all = digits@;
        proof {
            lemma_decimal_digits(to as nat);
            lemma_reflection_digits(to as nat);
            lemma_count_below_from_total(to as nat);
            lemma_count_terms(to);
        }
        let half_length = (digits.len() + 1) / 2;
        let front_part = slice_subrange(digits.as_slice(), 0, half_length);
        proof {
            assert(front_part@ =~= all.take(half_length as int));
        }

        let mut count = Self::palindromes_in_n_digits(digits.len() as u8);
        let mut front_part_as_num: u64 = 0;
        let mut to_subtract: u64 = 1;
        let mut k: usize = 0;
        while k < half_length
            invariant
                k <= half_length,
                pow10(half_length as nat) <= 10_000_000_000,
                front_part@ == all.take(half_length as int),
                half_length <= all.len(),
                is_decimal(all),
                to_subtract == pow10(k as nat),
                front_part_as_num == digits_value(front_part@.take(k as int)),
                front_part_as_num < pow10(k as nat),
            decreases half_length - k,
        {
            proof {
                lemma_pow10_monotonic((k + 1) as nat, half_length as nat);
                lemma_take_step(front_part@, k + 1);
                assert(front_part@[k as int] == all[k as int]);
                assert(all[k as int] <= 9);
            }
            to_subtract *= 10;
            front_part_as_num *= 10;
            front_part_as_num += front_part[k] as u64;
            k += 1;
        }
        proof {
            assert(front_part@.take(half_length as int) =~= front_part@);
            lemma_single_digit_palindromic(0);
            lemma_count_below_strict(0, to as nat);
        }
        count = count + front_part_as_num - to_subtract;

        // The reflection of the leading half counts too where it is below `to`.
        let mut i = half_length;
        let mut j = half_length + 1;
        if digits.len() % 2 == 1 {
            i -= 1;  // The middle digit has no mirror.
        }
        // Going outwards from the middle, find the first digit that differs
        // from its mirror.
        while i > 0 && digits[i - 1] == digits[j - 1]
            invariant
                digits@ == all,
                all == decimal_digits(to as nat),
                i <= half_length,
                all.len() <= 20,
                half_length == half_len(all.len()),
                j == all.len() - i + 1,
                matched_after(all, i - 1),
            decreases i,
        {
            i -= 1;
            j += 1;
        }
        if i > 0 && digits[i - 1] < digits[j - 1] {
            proof {
                lemma_reflection_below(to as nat, i - 1);
            }
            count += 1;
        } else {
            proof {
                if i > 0 {
                    lemma_reflection_above(to as nat, i - 1);
                } else {
                    lemma_all_matched(to as nat);
                    lemma_reflection_of_palindrome(to as nat);
                }
            }
        }

        count
    }

    /// Return an iterator over all palindromes in the range `from..to`.
    pub fn from(from: Palindrome, to: Palindrome) -> (r: Self)
        ensures
            r@ == palindromes_in(from@, to@),
    {
        let start = from.value();
        let bound = to.value();
        proof {
            lemma_ceiling_palindrome_unique(from@, from@);
        }
        Self { from: Palindrome::ge(start), to: bound }
    }

    /// Return an iterator over all palindromes in the range `from..to`,
    /// where `from` counts as `Palindrome::MAX` if it is larger.
    pub fn from_u64(from: u64, to: u64) -> (r: Self)
        ensures
            r@ == palindromes_in(ceiling_palindrome(from as nat), to as nat),
            from <= MAX_PALINDROME ==> r@ == palindromes_in(from as nat, to as nat),
    {
        proof {
            if from <= MAX_PALINDROME {
                lemma_ceiling_palindrome(from as nat);
                lemma_palindromes_in_skip(
                    from as nat,
                    ceiling_palindrome(from as nat),
                    to as nat,
                );
            }
        }
        Self { from: Palindrome::ge(from), to }
    }

    /// Return an iterator over the first `n` palindromes.
    ///
    /// **NOTE:** There are `Self::MAX_N + 1` palindromes in all, and the
    /// last of them is never included: a larger `n` gives `Self::MAX_N`
    /// palindromes.
    pub fn first_n(n: u64) -> (r: Self)
        ensures
            r@ == palindromes_in(0, first_n_bound(0, n as nat)),
            r@.len() == if n <= MAX_ORDINAL {
                n as nat
            } else {
                MAX_ORDINAL as nat
            },
    {
        proof {
            lemma_single_digit_palindromic(0);
        }
        Self::first_n_from(n, Palindrome::le(0))
    }

    /// Return an iterator over the first `n` palindromes from the first palindrome `from`.
    ///
    /// **NOTE:** `Palindrome::MAX` is never included, nor anything beyond
    /// it: where fewer than `n` palindromes lie between `from` and
    /// `Palindrome::MAX`, the iterator yields those.
    pub fn first_n_from(n: u64, from: Palindrome) -> (r: Self)
        ensures
            r@ == palindromes_in(from@, first_n_bound(from@, n as nat)),
            r@.len() == if count_below(from@) + n <= MAX_ORDINAL {
                n as nat
            } else {
                (MAX_ORDINAL - count_below(from@)) as nat
            },
    {
        let start = from.value();
        let rank = from.to_n();
        proof {
            lemma_max_ordinal();
            lemma_count_below_monotonic(from@, MAX_PALINDROME as nat);
            lemma_palindromes_in_len(from@, first_n_bound(from@, n as nat));
            if rank + n <= MAX_ORDINAL {
                lemma_count_below_nth((rank + n) as nat);
                lemma_count_below_order(from@, nth_palindrome((rank + n) as nat));
            }
        }
        if let Some(sum) = rank.checked_add(n) {
            if let Some(pal) = Palindrome::nth(sum) {
                return Self { from, to: pal.value() };
            }
        }
        Self { from, to: Palindrome::MAX }
    }

    /// Return the length of [`Self`].
    ///
    /// **NOTE:** This function is constant time and much faster than [`Self::count`] for any non-trivial range.
    pub fn len(&self) -> (r: u64)
        ensures
            r == self@.len(),
    {
        let over_counted = Self::len_from_0(self.from.value());
        let over_count = Self::len_from_0(self.to);

        proof {
            lemma_palindromes_in_len(self.from@, self.to as nat);
            if self.from@ <= self.to {
                lemma_count_below_monotonic(self.from@, self.to as nat);
            } else {
                lemma_count_below_monotonic(self.to as nat, self.from@);
            }
        }
        over_count.saturating_sub(over_counted)
    }

    /// Yield the next palindrome of the range, if one is left.
    pub fn next(&mut self) -> (r: Option<Palindrome>)
        ensures
            old(self)@.len() == 0 ==> r is None && final(self)@ == old(self)@,
            old(self)@.len() > 0 ==> r is Some && r->0@ == old(self)@[0] && final(self)@ == old(
                self,
            )@.drop_first(),
    {
        let return_value = self.from;
        let current = return_value.value();
        let ghost bound = self.to as nat;
        let ghost rest = palindromes_in(current as nat + 1, bound);

        if current < self.to {
            proof {
                assert(self@ =~= seq![current as nat] + rest);
                assert(self@.drop_first() =~= rest);
            }
            if current >= Palindrome::MAX {
                // Nothing follows the largest palindrome.
                proof {
                    assert forall|p: nat| current < p < bound implies !is_palindromic(p) by {
                        if is_palindromic(p) {
                            lemma_largest_palindrome(p);
                        }
                    }
                    lemma_palindromes_in_skip(current as nat + 1, bound, bound);
                }
                self.to = current;
            } else {
                proof {
                    lemma_ceiling_palindrome(current as nat + 1);
                    lemma_palindromes_in_skip(
                        current as nat + 1,
                        ceiling_palindrome(current as nat + 1),
                        bound,
                    );
                }
                self.from = self.from.next();
            }
            return Some(return_value);
        } else {
            return None;
        }
    }

    /// The number of palindromes that are left, found by yielding them all.
    pub fn count(self) -> (r: u64)
        ensures
            r == self@.len(),
    {
        let mut rest = self;
        let mut count: u64 = 0;
        proof {
            lemma_palindromes_in_len(rest.from@, rest.to as nat);
            lemma_count_below_bound(rest.to as nat);
        }
        loop
            invariant
                count + rest@.len() == self@.len(),
                self@.len() <= u64::MAX,
            decreases rest@.len(),
        {
            match rest.next() {
                Some(_) => {
                    count += 1;
                },
                None => {
                    return count;
                },
            }
        }
    }
}

} // verus!
