//! The palindromes next to a number, found from its leading half.

use crate::digits::{
    all_digits, decimal_digits, digits_value, is_decimal, lemma_decimal_digits, lemma_digit_count,
    lemma_digit_count_from_bounds, lemma_pow10_1, lemma_value_compare, lemma_value_lower_bound,
    lemma_value_nines, pow10, repeated,
};
use crate::mirror::{
    half_len, leading_half, lemma_digit_count_between, lemma_leading_half,
    lemma_leading_half_monotonic, lemma_mirrored, lemma_mirrored_from_half,
    lemma_palindrome_from_half, lemma_palindrome_from_nines, lemma_palindrome_has_half, lowest_half,
    mirrored, palindrome_from_half, valid_half,
};
use crate::palindromic::{
    ceiling_palindrome, floor_palindrome, is_palindromic, lemma_ceiling_palindrome_unique,
    lemma_floor_palindrome_unique, lemma_max_is_palindromic, MAX_PALINDROME,
};
use vstd::prelude::*;

verus! {

/// The palindrome with as many digits as `x` and the same leading half.
pub open spec fn reflection(x: nat) -> nat {
    palindrome_from_half(decimal_digits(x).len(), leading_half(x))
}

/// The reflection of `x` is a palindrome with the length and the leading
/// half of `x`.
pub proof fn lemma_reflection(x: nat)
    ensures
        is_palindromic(reflection(x)),
        decimal_digits(reflection(x)).len() == decimal_digits(x).len(),
        leading_half(reflection(x)) == leading_half(x),
        valid_half(decimal_digits(x).len(), leading_half(x)),
{
    lemma_leading_half(x);
    lemma_palindrome_from_half(decimal_digits(x).len(), leading_half(x));
}

/// A palindrome with the length and the leading half of `x` is the
/// reflection of `x`.
pub proof fn lemma_reflection_unique(x: nat, p: nat)
    requires
        is_palindromic(p),
        decimal_digits(p).len() == decimal_digits(x).len(),
        leading_half(p) == leading_half(x),
    ensures
        p == reflection(x),
{
    lemma_palindrome_has_half(p);
}

/// A palindrome is its own reflection.
pub proof fn lemma_reflection_of_palindrome(p: nat)
    requires
        is_palindromic(p),
    ensures
        reflection(p) == p,
{
    lemma_reflection_unique(p, p);
}

/// A number below ten is its own reflection.
pub proof fn lemma_reflection_single_digit(x: nat)
    requires
        x < 10,
    ensures
        reflection(x) == x,
{
    lemma_leading_half(x);
    lemma_palindrome_from_half(1, leading_half(x));
    lemma_pow10_1();
    assert(leading_half(x) == x);
    lemma_decimal_digits(x);
    lemma_decimal_digits(reflection(x));
    assert(mirrored(1, decimal_digits(x)) =~= decimal_digits(x));
}

/// Where the reflection of `x` is at most `x`, it is the greatest
/// palindrome at most `x`.
pub proof fn lemma_floor_same_half(x: nat)
    requires
        reflection(x) <= x,
    ensures
        floor_palindrome(x) == reflection(x),
{
    let m = reflection(x);
    lemma_reflection(x);
    assert forall|p: nat| m < p <= x implies !is_palindromic(p) by {
        if is_palindromic(p) {
            lemma_digit_count_between(m, p, x);
            lemma_leading_half_monotonic(m, p);
            lemma_leading_half_monotonic(p, x);
            lemma_reflection_unique(x, p);
        }
    }
    lemma_floor_palindrome_unique(x, m);
}

/// Where the reflection of `x` exceeds `x` and the leading half can be
/// lowered, the palindrome of the lowered half is the greatest at most `x`.
pub proof fn lemma_floor_lower_half(x: nat)
    requires
        reflection(x) > x,
        leading_half(x) > lowest_half(decimal_digits(x).len()),
    ensures
        valid_half(decimal_digits(x).len(), (leading_half(x) - 1) as nat),
        floor_palindrome(x) == palindrome_from_half(
            decimal_digits(x).len(),
            (leading_half(x) - 1) as nat,
        ),
{
    let n = decimal_digits(x).len();
    let h = leading_half(x);
    let m = reflection(x);
    lemma_reflection(x);
    let r = palindrome_from_half(n, (h - 1) as nat);
    lemma_palindrome_from_half(n, (h - 1) as nat);
    if r >= x {
        lemma_leading_half_monotonic(x, r);
    }
    assert forall|p: nat| r < p <= x implies !is_palindromic(p) by {
        if is_palindromic(p) {
            lemma_digit_count_between(r, p, x);
            lemma_leading_half_monotonic(r, p);
            lemma_leading_half_monotonic(p, x);
            lemma_palindrome_has_half(p);
        }
    }
    lemma_floor_palindrome_unique(x, r);
}

/// Where the reflection of `x` exceeds `x` and the leading half is the
/// least of its length, the greatest palindrome at most `x` is the number
/// of nines that is one digit shorter.
pub proof fn lemma_floor_shorter(x: nat)
    requires
        reflection(x) > x,
        leading_half(x) == lowest_half(decimal_digits(x).len()),
    ensures
        decimal_digits(x).len() >= 2,
        valid_half(
            (decimal_digits(x).len() - 1) as nat,
            (pow10(half_len((decimal_digits(x).len() - 1) as nat)) - 1) as nat,
        ),
        floor_palindrome(x) == palindrome_from_half(
            (decimal_digits(x).len() - 1) as nat,
            (pow10(half_len((decimal_digits(x).len() - 1) as nat)) - 1) as nat,
        ),
        floor_palindrome(x) + 1 == pow10((decimal_digits(x).len() - 1) as nat),
{
    let n = decimal_digits(x).len();
    let m = reflection(x);
    lemma_reflection(x);
    lemma_digit_count(x);
    if n == 1 {
        lemma_reflection_single_digit(x);
    }
    let short = (n - 1) as nat;
    let top = (pow10(half_len(short)) - 1) as nat;
    lemma_palindrome_from_nines(short);
    lemma_palindrome_from_half(short, top);
    let r = palindrome_from_half(short, top);
    assert forall|p: nat| r < p <= x implies !is_palindromic(p) by {
        if is_palindromic(p) {
            lemma_digit_count_from_bounds(p, n);
            lemma_leading_half_monotonic(p, x);
            lemma_palindrome_has_half(p);
        }
    }
    lemma_floor_palindrome_unique(x, r);
}

/// Where the reflection of `x` is at least `x`, it is the least palindrome
/// at least `x`.
pub proof fn lemma_ceiling_same_half(x: nat)
    requires
        x <= MAX_PALINDROME,
        reflection(x) >= x,
    ensures
        ceiling_palindrome(x) == reflection(x),
        reflection(x) <= MAX_PALINDROME,
{
    let m = reflection(x);
    lemma_reflection(x);
    assert forall|p: nat| x <= p < m implies !is_palindromic(p) by {
        if is_palindromic(p) {
            lemma_digit_count_between(x, p, m);
            lemma_leading_half_monotonic(x, p);
            lemma_leading_half_monotonic(p, m);
            lemma_reflection_unique(x, p);
        }
    }
    lemma_max_is_palindromic();
    lemma_ceiling_palindrome_unique(x, m);
}

/// Where the reflection of `x` is less than `x`, the leading half can be
/// raised, and the palindrome of the raised half is the least at least `x`.
pub proof fn lemma_ceiling_upper_half(x: nat)
    requires
        x <= MAX_PALINDROME,
        reflection(x) < x,
    ensures
        valid_half(decimal_digits(x).len(), leading_half(x) + 1),
        ceiling_palindrome(x) == palindrome_from_half(
            decimal_digits(x).len(),
            leading_half(x) + 1,
        ),
        palindrome_from_half(decimal_digits(x).len(), leading_half(x) + 1) <= MAX_PALINDROME,
{
    let n = decimal_digits(x).len();
    let h = leading_half(x);
    let m = reflection(x);
    lemma_reflection(x);
    lemma_digit_count(x);
    if h + 1 >= pow10(half_len(n)) {
        lemma_palindrome_from_nines(n);
    }
    let r = palindrome_from_half(n, h + 1);
    lemma_palindrome_from_half(n, h + 1);
    if r <= x {
        lemma_leading_half_monotonic(r, x);
    }
    assert forall|p: nat| x <= p < r implies !is_palindromic(p) by {
        if is_palindromic(p) {
            lemma_digit_count_between(x, p, r);
            lemma_leading_half_monotonic(x, p);
            lemma_leading_half_monotonic(p, r);
            lemma_palindrome_has_half(p);
        }
    }
    lemma_max_is_palindromic();
    lemma_ceiling_palindrome_unique(x, r);
}

/// The reflection of `x` in digits: the leading half of the digits of `x`,
/// mirrored.
pub proof fn lemma_reflection_digits(x: nat)
    ensures
        reflection(x) == digits_value(
            mirrored(
                decimal_digits(x).len(),
                decimal_digits(x).take(half_len(decimal_digits(x).len()) as int),
            ),
        ),
        leading_half(x) == digits_value(
            decimal_digits(x).take(half_len(decimal_digits(x).len()) as int),
        ),
        is_decimal(decimal_digits(x).take(half_len(decimal_digits(x).len()) as int)),
{
    lemma_leading_half(x);
    lemma_decimal_digits(leading_half(x));
}

/// The digits of `x` at `k` and at its mirror position agree, for each `k`
/// of the leading half after position `from`.
pub open spec fn matched_after(d: Seq<u8>, from: int) -> bool {
    forall|k: int| from < k < half_len(d.len()) ==> #[trigger] d[k] == d[d.len() - 1 - k]
}

/// Where every digit of the leading half agrees with its mirror, `x` is a
/// palindrome.
pub proof fn lemma_all_matched(x: nat)
    requires
        matched_after(decimal_digits(x), -1),
    ensures
        is_palindromic(x),
{
    let d = decimal_digits(x);
    let n = d.len();
    assert forall|i: int| 0 <= i < n implies #[trigger] d[i] == d[n - 1 - i] by {
        if i < half_len(n) {
            assert(d[i] == d[n - 1 - i]);
        } else {
            let k = n - 1 - i;
            assert(d[k] == d[n - 1 - k]);
        }
    }
}

/// Going outwards from the middle, where the first digit of the leading
/// half that differs from its mirror is the smaller one, the reflection of
/// `x` is below `x`.
pub proof fn lemma_reflection_below(x: nat, at: int)
    requires
        0 <= at < half_len(decimal_digits(x).len()),
        matched_after(decimal_digits(x), at),
        decimal_digits(x)[at] < decimal_digits(x)[decimal_digits(x).len() - 1 - at],
    ensures
        reflection(x) < x,
{
    let d = decimal_digits(x);
    let n = d.len();
    let h = d.take(half_len(n) as int);
    let m = mirrored(n, h);
    lemma_reflection_digits(x);
    lemma_decimal_digits(x);
    lemma_mirrored(n, h);
    let j = n - 1 - at;
    assert forall|i: int| 0 <= i < j implies m[i] == d[i] by {
        if i >= h.len() {
            let k = n - 1 - i;
            assert(d[k] == d[n - 1 - k]);
        }
    }
    lemma_value_compare(m, d, j);
}

/// Likewise, where that digit is the greater one, the reflection of `x` is
/// above `x`.
pub proof fn lemma_reflection_above(x: nat, at: int)
    requires
        0 <= at < half_len(decimal_digits(x).len()),
        matched_after(decimal_digits(x), at),
        decimal_digits(x)[at] > decimal_digits(x)[decimal_digits(x).len() - 1 - at],
    ensures
        reflection(x) > x,
{
    let d = decimal_digits(x);
    let n = d.len();
    let h = d.take(half_len(n) as int);
    let m = mirrored(n, h);
    lemma_reflection_digits(x);
    lemma_decimal_digits(x);
    lemma_mirrored(n, h);
    let j = n - 1 - at;
    assert forall|i: int| 0 <= i < j implies d[i] == m[i] by {
        if i >= h.len() {
            let k = n - 1 - i;
            assert(d[k] == d[n - 1 - k]);
        }
    }
    lemma_value_compare(d, m, j);
}

/// Where the reflection of `x` is at most `x`, mirroring the leading digits
/// of `x` gives the greatest palindrome at most `x`.
pub proof fn lemma_floor_reflected(x: nat)
    requires
        reflection(x) <= x,
    ensures
        floor_palindrome(x) == digits_value(
            mirrored(
                decimal_digits(x).len(),
                decimal_digits(x).take(half_len(decimal_digits(x).len()) as int),
            ),
        ),
{
    lemma_floor_same_half(x);
    lemma_reflection_digits(x);
}

/// Where the reflection of `x` exceeds `x`, and `lowered` is the leading
/// half of `x` less one, without a leading zero, mirroring it gives the
/// greatest palindrome at most `x`.
pub proof fn lemma_floor_lowered(x: nat, lowered: Seq<u8>)
    requires
        reflection(x) > x,
        lowered.len() == half_len(decimal_digits(x).len()),
        all_digits(lowered),
        lowered[0] != 0,
        digits_value(lowered) + 1 == leading_half(x),
    ensures
        floor_palindrome(x) == digits_value(mirrored(decimal_digits(x).len(), lowered)),
{
    lemma_digit_count(x);
    lemma_value_lower_bound(lowered);
    lemma_floor_lower_half(x);
    lemma_mirrored_from_half(decimal_digits(x).len(), lowered);
}

/// Where the reflection of `x` exceeds `x`, and the leading half of `x` is
/// the least of its length, the greatest palindrome at most `x` is made of
/// nines and one digit shorter than `x`.
pub proof fn lemma_floor_shortened(x: nat, nines: Seq<u8>)
    requires
        reflection(x) > x,
        leading_half(x) == lowest_half(decimal_digits(x).len()),
        decimal_digits(x).len() >= 2 ==> nines == repeated(
            9,
            half_len((decimal_digits(x).len() - 1) as nat),
        ),
    ensures
        decimal_digits(x).len() >= 2,
        floor_palindrome(x) == digits_value(
            mirrored((decimal_digits(x).len() - 1) as nat, nines),
        ),
{
    lemma_floor_shorter(x);
    let short = (decimal_digits(x).len() - 1) as nat;
    lemma_value_nines(half_len(short));
    lemma_mirrored_from_half(short, nines);
}

/// Where the reflection of `x` is at least `x`, mirroring the leading
/// digits of `x` gives the least palindrome at least `x`.
pub proof fn lemma_ceiling_reflected(x: nat)
    requires
        x <= MAX_PALINDROME,
        reflection(x) >= x,
    ensures
        ceiling_palindrome(x) == digits_value(
            mirrored(
                decimal_digits(x).len(),
                decimal_digits(x).take(half_len(decimal_digits(x).len()) as int),
            ),
        ),
        ceiling_palindrome(x) <= MAX_PALINDROME,
{
    lemma_ceiling_same_half(x);
    lemma_reflection_digits(x);
}

/// Where the reflection of `x` is below `x`, and `raised` is the leading
/// half of `x` plus one, mirroring it gives the least palindrome at least
/// `x`.
pub proof fn lemma_ceiling_raised(x: nat, raised: Seq<u8>)
    requires
        x <= MAX_PALINDROME,
        reflection(x) < x,
        raised.len() == half_len(decimal_digits(x).len()),
        all_digits(raised),
        raised[0] != 0,
        digits_value(raised) == leading_half(x) + 1,
    ensures
        ceiling_palindrome(x) == digits_value(mirrored(decimal_digits(x).len(), raised)),
        ceiling_palindrome(x) <= MAX_PALINDROME,
{
    lemma_digit_count(x);
    lemma_ceiling_upper_half(x);
    lemma_mirrored_from_half(decimal_digits(x).len(), raised);
}

} // verus!
