//! Palindromes as reflections of their leading half: every palindrome of a
//! given length is determined by the number that its leading digits denote,
//! and grows with that number.

use crate::digits::{
    all_digits, decimal_digits, digits_value, is_decimal, lemma_decimal_digits,
    lemma_decimal_unique, lemma_digit_count, lemma_digit_count_from_bounds, lemma_pow10_1,
    lemma_pow10_monotonic, lemma_pow10_positive, lemma_value_bound, lemma_value_lower_bound,
    lemma_value_nines, lemma_value_prefix, lemma_value_zeros, pow10, repeated,
};
use crate::palindromic::{is_palindromic, lemma_single_digit_palindromic, reads_same_backwards};
use vstd::prelude::*;

verus! {

/// The number of digits in the leading half of a number of `length` digits;
/// the middle digit of an odd length counts.
pub open spec fn half_len(length: nat) -> nat {
    (length + 1) / 2
}

/// The sequence of `length` digits that starts with `half` and then repeats
/// it backwards: digit `i` is `half[i]` while `i` is within `half`, and
/// `half[length - 1 - i]` after that.
pub open spec fn mirrored(length: nat, half: Seq<u8>) -> Seq<u8> {
    Seq::new(
        length,
        |i: int|
            if i < half.len() {
                half[i]
            } else {
                half[length - 1 - i]
            },
    )
}

/// The least number that is the leading half of a palindrome of `length`
/// digits.
pub open spec fn lowest_half(length: nat) -> nat {
    if length <= 1 {
        0
    } else {
        pow10((half_len(length) - 1) as nat)
    }
}

/// `half` is the leading half of a palindrome of `length` digits.
pub open spec fn valid_half(length: nat, half: nat) -> bool {
    length >= 1 && lowest_half(length) <= half < pow10(half_len(length))
}

/// The palindrome of `length` digits whose leading half denotes `half`.
pub open spec fn palindrome_from_half(length: nat, half: nat) -> nat {
    digits_value(mirrored(length, decimal_digits(half)))
}

/// The weight of the last digit of the leading half in a number of `length`
/// digits.
pub open spec fn half_weight(length: nat) -> nat {
    pow10((length - half_len(length)) as nat)
}

/// The number that the leading half of the digits of `x` denotes.
pub open spec fn leading_half(x: nat) -> nat {
    x / half_weight(decimal_digits(x).len())
}

/// A sequence that reads the same backwards is the reflection of its
/// leading half.
pub proof fn lemma_symmetric_is_mirrored(s: Seq<u8>)
    requires
        reads_same_backwards(s),
    ensures
        s == mirrored(s.len(), s.take(half_len(s.len()) as int)),
{
    let n = s.len();
    let h = s.take(half_len(n) as int);
    let m = mirrored(n, h);
    assert forall|i: int| 0 <= i < n implies s[i] == m[i] by {
        if i >= h.len() {
            assert(s[i] == s[n - 1 - i]);
        }
    }
    assert(s =~= m);
}

/// The reflection of a leading half reads the same backwards and starts
/// with that half.
pub proof fn lemma_mirrored(length: nat, half: Seq<u8>)
    requires
        half.len() == half_len(length),
    ensures
        mirrored(length, half).len() == length,
        reads_same_backwards(mirrored(length, half)),
        mirrored(length, half).take(half.len() as int) == half,
        all_digits(half) ==> all_digits(mirrored(length, half)),
{
    let m = mirrored(length, half);
    assert(m.take(half.len() as int) =~= half);
    assert forall|i: int| 0 <= i < m.len() implies #[trigger] m[i] == m[m.len() - 1 - i] by {}
    if all_digits(half) {
        assert forall|i: int| 0 <= i < m.len() implies #[trigger] m[i] <= 9 by {
            if i < half.len() {
                assert(half[i] <= 9);
            } else {
                assert(half[length - 1 - i] <= 9);
            }
        }
    }
}

/// A valid leading half has as many digits as the half of the length, and
/// no leading zero unless the length is one.
pub proof fn lemma_valid_half_digits(length: nat, half: nat)
    requires
        valid_half(length, half),
    ensures
        is_decimal(decimal_digits(half)),
        digits_value(decimal_digits(half)) == half,
        decimal_digits(half).len() == half_len(length),
        length == 1 || decimal_digits(half)[0] != 0,
{
    lemma_decimal_digits(half);
    lemma_pow10_1();
    let d = decimal_digits(half);
    if length == 1 {
        assert(half < 10);
    } else {
        lemma_pow10_positive((half_len(length) - 1) as nat);
        lemma_digit_count_from_bounds(half, half_len(length));
        if d.len() == 1 {
            assert(d.drop_last().len() == 0);
            assert(digits_value(d.drop_last()) == 0);
            assert(d[0] == d.last());
        }
    }
}

/// `palindrome_from_half` yields a palindrome of the given length with the
/// given leading half.
pub proof fn lemma_palindrome_from_half(length: nat, half: nat)
    requires
        valid_half(length, half),
    ensures
        decimal_digits(palindrome_from_half(length, half)) == mirrored(
            length,
            decimal_digits(half),
        ),
        is_palindromic(palindrome_from_half(length, half)),
        decimal_digits(palindrome_from_half(length, half)).len() == length,
        leading_half(palindrome_from_half(length, half)) == half,
        palindrome_from_half(length, half) < pow10(length),
        length >= 2 ==> palindrome_from_half(length, half) >= pow10((length - 1) as nat),
{
    lemma_valid_half_digits(length, half);
    let h = decimal_digits(half);
    let m = mirrored(length, h);
    lemma_mirrored(length, h);
    assert(m[0] == h[0]);
    assert(is_decimal(m));
    lemma_decimal_unique(m);
    lemma_value_prefix(m, h.len() as int);
    lemma_value_bound(m);
    if length >= 2 {
        lemma_value_lower_bound(m);
    }
}

/// The leading half of any number is a valid half for its length, and its
/// digits are the leading digits of the number.
pub proof fn lemma_leading_half(x: nat)
    ensures
        valid_half(decimal_digits(x).len(), leading_half(x)),
        decimal_digits(leading_half(x)) == decimal_digits(x).take(
            half_len(decimal_digits(x).len()) as int,
        ),
{
    lemma_decimal_digits(x);
    lemma_pow10_1();
    let d = decimal_digits(x);
    let n = d.len();
    let k = half_len(n) as int;
    let h = d.take(k);
    lemma_value_prefix(d, k);
    assert(digits_value(h) == leading_half(x));
    assert(all_digits(h)) by {
        assert forall|i: int| 0 <= i < h.len() implies #[trigger] h[i] <= 9 by {
            assert(h[i] == d[i]);
        }
    }
    assert(h[0] == d[0]);
    if n == 1 {
        assert(h =~= d);
    }
    assert(is_decimal(h));
    lemma_decimal_unique(h);
    lemma_value_bound(h);
    if n >= 2 {
        lemma_value_lower_bound(h);
    }
}

/// A palindrome is `palindrome_from_half` of its length and leading half.
pub proof fn lemma_palindrome_has_half(p: nat)
    requires
        is_palindromic(p),
    ensures
        valid_half(decimal_digits(p).len(), leading_half(p)),
        p == palindrome_from_half(decimal_digits(p).len(), leading_half(p)),
{
    lemma_leading_half(p);
    lemma_decimal_digits(p);
    lemma_symmetric_is_mirrored(decimal_digits(p));
}

/// Numbers of one length compare as their leading halves, as far as these
/// differ.
pub proof fn lemma_leading_half_monotonic(a: nat, b: nat)
    requires
        a <= b,
        decimal_digits(a).len() == decimal_digits(b).len(),
    ensures
        leading_half(a) <= leading_half(b),
{
    let w = half_weight(decimal_digits(a).len());
    lemma_pow10_positive((decimal_digits(a).len() - half_len(decimal_digits(a).len())) as nat);
    vstd::arithmetic::div_mod::lemma_div_is_ordered(a as int, b as int, w as int);
}

/// A number between two numbers of `length` digits has `length` digits.
pub proof fn lemma_digit_count_between(a: nat, x: nat, b: nat)
    requires
        a <= x <= b,
        decimal_digits(a).len() == decimal_digits(b).len(),
    ensures
        decimal_digits(x).len() == decimal_digits(a).len(),
{
    let n = decimal_digits(a).len();
    lemma_digit_count(a);
    lemma_digit_count(b);
    lemma_digit_count(x);
    lemma_pow10_1();
    if n == 1 {
        assert(x < 10);
    } else {
        lemma_pow10_monotonic(1, (n - 1) as nat);
        lemma_digit_count_from_bounds(x, n);
    }
}

/// The reflection of nines is nines: the greatest leading half gives the
/// greatest number of the length.
pub proof fn lemma_palindrome_from_nines(length: nat)
    requires
        length >= 1,
    ensures
        valid_half(length, (pow10(half_len(length)) - 1) as nat),
        palindrome_from_half(length, (pow10(half_len(length)) - 1) as nat) + 1 == pow10(length),
{
    let k = half_len(length);
    lemma_value_nines(k);
    lemma_value_nines(length);
    lemma_decimal_unique(repeated(9, k));
    lemma_pow10_1();
    lemma_pow10_monotonic((k - 1) as nat, k);
    lemma_pow10_positive((k - 1) as nat);
    assert(pow10(k) == 10 * pow10((k - 1) as nat));
    assert(mirrored(length, repeated(9, k)) =~= repeated(9, length));
}

/// The least leading half gives the number that is one above a power of
/// ten, from two digits on.
pub proof fn lemma_palindrome_from_lowest(length: nat)
    requires
        length >= 2,
    ensures
        valid_half(length, lowest_half(length)),
        palindrome_from_half(length, lowest_half(length)) > pow10((length - 1) as nat),
{
    let k = half_len(length);
    lemma_pow10_positive((k - 1) as nat);
    assert(pow10(k) == 10 * pow10((k - 1) as nat));
    let low = lowest_half(length);
    lemma_palindrome_from_half(length, low);
    lemma_valid_half_digits(length, low);
    let p = palindrome_from_half(length, low);
    let m = mirrored(length, decimal_digits(low));
    // the last digit repeats the first, which is not zero
    assert(m.last() == decimal_digits(low)[0]);
    assert(p % 10 == m.last());
    assert(pow10((length - 1) as nat) % 10 == 0) by {
        assert(pow10((length - 1) as nat) == 10 * pow10((length - 2) as nat));
    }
}

/// The digits of a leading half from which a palindrome can be built:
/// decimal digits that start with a digit other than zero, or are all zero.
pub open spec fn is_half_notation(half: Seq<u8>) -> bool {
    &&& all_digits(half)
    &&& (half.len() > 0 && half[0] != 0) || (forall|i: int| 0 <= i < half.len() ==> half[i] == 0)
}

/// The reflection of such a half denotes a palindrome.
pub proof fn lemma_mirrored_is_palindromic(length: nat, half: Seq<u8>)
    requires
        half.len() == half_len(length),
        is_half_notation(half),
    ensures
        is_palindromic(digits_value(mirrored(length, half))),
        half.len() > 0 && half[0] != 0 ==> decimal_digits(digits_value(mirrored(length, half)))
            == mirrored(length, half),
{
    let m = mirrored(length, half);
    lemma_mirrored(length, half);
    if half.len() > 0 && half[0] != 0 {
        assert(m[0] == half[0]);
        lemma_decimal_unique(m);
    } else {
        assert(m =~= repeated(0, length));
        lemma_value_zeros(length);
        lemma_single_digit_palindromic(0);
    }
}

/// Where the digits of a half are the notation of a number, their
/// reflection denotes `palindrome_from_half` of that number.
pub proof fn lemma_mirrored_from_half(length: nat, half: Seq<u8>)
    requires
        is_decimal(half),
    ensures
        digits_value(mirrored(length, half)) == palindrome_from_half(length, digits_value(half)),
{
    lemma_decimal_unique(half);
}

} // verus!
