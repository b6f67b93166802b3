//! Decimal digit sequences and their numeric value.

use vstd::prelude::*;

verus! {

/// Ten raised to the power `n`.
pub open spec fn pow10(n: nat) -> nat
    decreases n,
{
    if n == 0 {
        1
    } else {
        10 * pow10((n - 1) as nat)
    }
}

/// The number that the digit sequence `s` denotes, most significant digit
/// first. The empty sequence denotes zero.
pub open spec fn digits_value(s: Seq<u8>) -> nat
    decreases s.len(),
{
    if s.len() == 0 {
        0
    } else {
        digits_value(s.drop_last()) * 10 + s.last() as nat
    }
}

/// The decimal digits of `x`, most significant first, without leading zeros;
/// zero is the single digit `0`.
pub open spec fn decimal_digits(x: nat) -> Seq<u8>
    decreases x,
{
    if x < 10 {
        seq![x as u8]
    } else {
        decimal_digits(x / 10).push((x % 10) as u8)
    }
}

/// Every element of `s` is a decimal digit.
pub open spec fn all_digits(s: Seq<u8>) -> bool {
    forall|i: int| 0 <= i < s.len() ==> #[trigger] s[i] <= 9
}

/// `s` is the decimal notation of a number: non-empty, digits only, and no
/// leading zero unless it is the single digit `0`.
pub open spec fn is_decimal(s: Seq<u8>) -> bool {
    &&& s.len() >= 1
    &&& all_digits(s)
    &&& (s.len() == 1 || s[0] != 0)
}

/// The sequence of `n` digits that are all `d`.
pub open spec fn repeated(d: u8, n: nat) -> Seq<u8> {
    Seq::new(n, |i: int| d)
}

/// A power of ten is at least one.
pub proof fn lemma_pow10_positive(n: nat)
    ensures
        pow10(n) >= 1,
    decreases n,
{
    if n > 0 {
        lemma_pow10_positive((n - 1) as nat);
    }
}

/// The first two powers of ten.
pub proof fn lemma_pow10_1()
    ensures
        pow10(0) == 1,
        pow10(1) == 10,
{
    reveal_with_fuel(pow10, 2);
}

/// The powers of ten grow with the exponent.
pub proof fn lemma_pow10_monotonic(a: nat, b: nat)
    requires
        a <= b,
    ensures
        pow10(a) <= pow10(b),
    decreases b,
{
    if a < b {
        lemma_pow10_monotonic(a, (b - 1) as nat);
    }
}

/// Appending one digit multiplies the value by ten and adds the digit.
pub proof fn lemma_value_push(s: Seq<u8>, d: u8)
    ensures
        digits_value(s.push(d)) == digits_value(s) * 10 + d,
{
    assert(s.push(d).drop_last() =~= s);
    assert(s.push(d).last() == d);
}

/// Taking one digit more multiplies the value by ten and adds that digit.
pub proof fn lemma_take_step(d: Seq<u8>, n: int)
    requires
        1 <= n <= d.len(),
    ensures
        digits_value(d.take(n)) == digits_value(d.take(n - 1)) * 10 + d[n - 1],
{
    assert(d.take(n).drop_last() =~= d.take(n - 1));
    assert(d.take(n).last() == d[n - 1]);
}

/// The value of a concatenation.
pub proof fn lemma_value_concat(a: Seq<u8>, b: Seq<u8>)
    ensures
        digits_value(a + b) == digits_value(a) * pow10(b.len()) + digits_value(b),
    decreases b.len(),
{
    let va = digits_value(a);
    if b.len() == 0 {
        assert(a + b =~= a);
        assert(pow10(0) == 1);
        assert(va * 1 == va);
    } else {
        let c = b.drop_last();
        lemma_value_concat(a, c);
        assert((a + b).drop_last() =~= a + c);
        assert((a + b).last() == b.last());
        let p = pow10(c.len());
        assert(pow10(b.len()) == 10 * p);
        assert((va * p + digits_value(c)) * 10 == va * (10 * p) + digits_value(c) * 10)
            by (nonlinear_arith);
        assert(digits_value(a + b) == digits_value(a + c) * 10 + b.last());
        assert(digits_value(b) == digits_value(c) * 10 + b.last());
    }
}

/// Splitting a digit sequence at position `k` splits its value.
pub proof fn lemma_value_split(s: Seq<u8>, k: int)
    requires
        0 <= k <= s.len(),
    ensures
        digits_value(s) == digits_value(s.take(k)) * pow10((s.len() - k) as nat) + digits_value(
            s.skip(k),
        ),
{
    lemma_value_concat(s.take(k), s.skip(k));
    assert(s.take(k) + s.skip(k) =~= s);
}

/// A sequence of `n` digits denotes a number below `10^n`.
pub proof fn lemma_value_bound(s: Seq<u8>)
    requires
        all_digits(s),
    ensures
        digits_value(s) < pow10(s.len()),
    decreases s.len(),
{
    if s.len() > 0 {
        lemma_value_bound(s.drop_last());
    }
}

/// A sequence of `n` digits whose first digit is not zero denotes a number
/// of at least `10^(n-1)`.
pub proof fn lemma_value_lower_bound(s: Seq<u8>)
    requires
        s.len() >= 1,
        s[0] >= 1,
    ensures
        digits_value(s) >= pow10((s.len() - 1) as nat),
    decreases s.len(),
{
    if s.len() == 1 {
        assert(s.drop_last().len() == 0);
        assert(digits_value(s.drop_last()) == 0);
    } else {
        lemma_value_lower_bound(s.drop_last());
    }
}

/// `decimal_digits` yields the decimal notation of its argument.
pub proof fn lemma_decimal_digits(x: nat)
    ensures
        is_decimal(decimal_digits(x)),
        digits_value(decimal_digits(x)) == x,
    decreases x,
{
    if x < 10 {
        let s = seq![x as u8];
        assert(s.drop_last().len() == 0);
        assert(digits_value(s.drop_last()) == 0);
        assert(s.last() == x as u8);
    } else {
        lemma_decimal_digits(x / 10);
        let t = decimal_digits(x / 10);
        lemma_value_push(t, (x % 10) as u8);
        let s = t.push((x % 10) as u8);
        assert(s[0] == t[0]);
        assert forall|i: int| 0 <= i < s.len() implies #[trigger] s[i] <= 9 by {
            if i < t.len() {
                assert(s[i] == t[i]);
            }
        }
        if t.len() == 1 {
            // x / 10 >= 1, so its single digit is not zero
            assert(t.drop_last().len() == 0);
            assert(digits_value(t.drop_last()) == 0);
            assert(t[0] == t.last());
        }
    }
}

/// The notation of `x` ends with the remainder of `x` by ten, and starts
/// with a digit other than zero unless `x` is zero.
pub proof fn lemma_decimal_ends(x: nat)
    ensures
        decimal_digits(x).len() >= 1,
        decimal_digits(x).last() == x % 10,
        x > 0 ==> decimal_digits(x)[0] != 0,
        x == 0 ==> decimal_digits(x)[0] == 0,
{
    lemma_decimal_digits(x);
    let d = decimal_digits(x);
    if d.len() == 1 {
        assert(d.drop_last().len() == 0);
        assert(digits_value(d.drop_last()) == 0);
        assert(d[0] == d.last());
    }
}

/// A decimal notation is the notation of the number it denotes.
pub proof fn lemma_decimal_unique(s: Seq<u8>)
    requires
        is_decimal(s),
    ensures
        decimal_digits(digits_value(s)) == s,
    decreases s.len(),
{
    let x = digits_value(s);
    let t = s.drop_last();
    if s.len() == 1 {
        assert(t.len() == 0);
        assert(digits_value(t) == 0);
        assert(x == s[0]);
        assert(decimal_digits(x) =~= s);
    } else {
        assert(all_digits(t)) by {
            assert forall|i: int| 0 <= i < t.len() implies #[trigger] t[i] <= 9 by {
                assert(t[i] == s[i]);
            }
        }
        assert(t[0] == s[0]);
        lemma_decimal_unique(t);
        lemma_value_lower_bound(t);
        lemma_pow10_positive((t.len() - 1) as nat);
        assert(digits_value(t) >= 1);
        assert(x >= 10);
        assert(x / 10 == digits_value(t));
        assert(x % 10 == s.last());
        assert(decimal_digits(x) =~= s);
    }
}

/// The number of decimal digits of `x` is `n` exactly when `x` lies in
/// `[10^(n-1), 10^n)`; zero has one digit.
pub proof fn lemma_digit_count(x: nat)
    ensures
        decimal_digits(x).len() >= 1,
        x < pow10(decimal_digits(x).len()),
        x >= 10 ==> x >= pow10((decimal_digits(x).len() - 1) as nat),
        x < 10 <==> decimal_digits(x).len() == 1,
{
    lemma_decimal_digits(x);
    let s = decimal_digits(x);
    lemma_value_bound(s);
    if s.len() > 1 {
        lemma_value_lower_bound(s);
        lemma_pow10_monotonic(1, (s.len() - 1) as nat);
        assert(pow10(1) == 10) by {
            reveal_with_fuel(pow10, 2);
        }
    } else {
        assert(pow10(1) == 10) by {
            reveal_with_fuel(pow10, 2);
        }
    }
}

/// A number in `[10^(n-1), 10^n)` has exactly `n` decimal digits.
pub proof fn lemma_digit_count_from_bounds(x: nat, n: nat)
    requires
        n >= 1,
        pow10((n - 1) as nat) <= x < pow10(n),
    ensures
        decimal_digits(x).len() == n,
{
    lemma_digit_count(x);
    let m = decimal_digits(x).len();
    if m < n {
        lemma_pow10_monotonic(m, (n - 1) as nat);
    } else if m > n {
        lemma_pow10_monotonic(n, (m - 1) as nat);
        assert(pow10(1) == 10) by {
            reveal_with_fuel(pow10, 2);
        }
        if x < 10 {
            assert(m == 1);
        }
    }
}

/// Digit sequences of one length that denote the same number are equal.
pub proof fn lemma_value_injective(a: Seq<u8>, b: Seq<u8>)
    requires
        a.len() == b.len(),
        all_digits(a),
        all_digits(b),
        digits_value(a) == digits_value(b),
    ensures
        a == b,
    decreases a.len(),
{
    if a.len() == 0 {
        assert(a =~= b);
    } else {
        let x = digits_value(a);
        let a0 = a.drop_last();
        let b0 = b.drop_last();
        assert(a.last() <= 9 && b.last() <= 9);
        assert(a.last() == x % 10);
        assert(b.last() == x % 10);
        assert(all_digits(a0)) by {
            assert forall|i: int| 0 <= i < a0.len() implies #[trigger] a0[i] <= 9 by {
                assert(a0[i] == a[i]);
            }
        }
        assert(all_digits(b0)) by {
            assert forall|i: int| 0 <= i < b0.len() implies #[trigger] b0[i] <= 9 by {
                assert(b0[i] == b[i]);
            }
        }
        lemma_value_injective(a0, b0);
        assert(a =~= a0.push(a.last()));
        assert(b =~= b0.push(b.last()));
    }
}

/// The leading `k` digits denote the quotient by `10^(n-k)`, the others the
/// remainder.
pub proof fn lemma_value_prefix(s: Seq<u8>, k: int)
    requires
        all_digits(s),
        0 <= k <= s.len(),
    ensures
        digits_value(s.take(k)) == digits_value(s) / pow10((s.len() - k) as nat),
        digits_value(s.skip(k)) == digits_value(s) % pow10((s.len() - k) as nat),
        digits_value(s.skip(k)) < pow10((s.len() - k) as nat),
{
    lemma_value_split(s, k);
    let t = s.skip(k);
    assert(all_digits(t)) by {
        assert forall|i: int| 0 <= i < t.len() implies #[trigger] t[i] <= 9 by {
            assert(t[i] == s[i + k]);
        }
    }
    lemma_value_bound(t);
    let p = pow10((s.len() - k) as nat);
    lemma_pow10_positive((s.len() - k) as nat);
    vstd::arithmetic::div_mod::lemma_fundamental_div_mod_converse(
        digits_value(s) as int,
        p as int,
        digits_value(s.take(k)) as int,
        digits_value(t) as int,
    );
}

/// Digit sequences of one length compare as their first differing digits.
pub proof fn lemma_value_compare(a: Seq<u8>, b: Seq<u8>, j: int)
    requires
        a.len() == b.len(),
        all_digits(a),
        all_digits(b),
        0 <= j < a.len(),
        forall|i: int| 0 <= i < j ==> a[i] == b[i],
        a[j] < b[j],
    ensures
        digits_value(a) < digits_value(b),
{
    let n = a.len();
    lemma_value_split(a, j + 1);
    lemma_value_split(b, j + 1);
    lemma_value_prefix(a, j + 1);
    let pa = a.take(j + 1);
    let pb = b.take(j + 1);
    assert(pa.drop_last() =~= pb.drop_last());
    assert(pa.last() == a[j]);
    assert(pb.last() == b[j]);
    let vpa = digits_value(pa);
    let vpb = digits_value(pb);
    assert(vpa + 1 <= vpb);
    let p = pow10((n - j - 1) as nat);
    let ta = digits_value(a.skip(j + 1));
    let tb = digits_value(b.skip(j + 1));
    assert(vpa * p + ta < vpb * p + tb) by (nonlinear_arith)
        requires
            ta < p,
            vpa + 1 <= vpb,
    ;
}

/// `n` nines denote `10^n - 1`.
pub proof fn lemma_value_nines(n: nat)
    ensures
        digits_value(repeated(9, n)) + 1 == pow10(n),
        is_decimal(repeated(9, n)) <==> n >= 1,
    decreases n,
{
    if n > 0 {
        lemma_value_nines((n - 1) as nat);
        assert(repeated(9, n).drop_last() =~= repeated(9, (n - 1) as nat));
    }
}

/// `n` zeros denote zero.
pub proof fn lemma_value_zeros(n: nat)
    ensures
        digits_value(repeated(0, n)) == 0,
    decreases n,
{
    if n > 0 {
        lemma_value_zeros((n - 1) as nat);
        assert(repeated(0, n).drop_last() =~= repeated(0, (n - 1) as nat));
    }
}

/// The leading digits of a sequence denote no more than the sequence.
pub proof fn lemma_value_prefix_le(s: Seq<u8>, k: int)
    requires
        0 <= k <= s.len(),
    ensures
        digits_value(s.take(k)) <= digits_value(s),
{
    lemma_value_split(s, k);
    lemma_pow10_positive((s.len() - k) as nat);
    let a = digits_value(s.take(k));
    let p = pow10((s.len() - k) as nat);
    assert(a <= a * p) by (nonlinear_arith)
        requires
            p >= 1,
    ;
}

/// The powers of ten up to the twentieth, the first that exceeds 64 bits.
pub proof fn lemma_pow10_values()
    ensures
        pow10(0) == 1,
        pow10(1) == 10,
        pow10(2) == 100,
        pow10(3) == 1_000,
        pow10(4) == 10_000,
        pow10(5) == 100_000,
        pow10(6) == 1_000_000,
        pow10(7) == 10_000_000,
        pow10(8) == 100_000_000,
        pow10(9) == 1_000_000_000,
        pow10(10) == 10_000_000_000,
        pow10(11) == 100_000_000_000,
        pow10(12) == 1_000_000_000_000,
        pow10(13) == 10_000_000_000_000,
        pow10(14) == 100_000_000_000_000,
        pow10(15) == 1_000_000_000_000_000,
        pow10(16) == 10_000_000_000_000_000,
        pow10(17) == 100_000_000_000_000_000,
        pow10(18) == 1_000_000_000_000_000_000,
        pow10(19) == 10_000_000_000_000_000_000,
        pow10(20) == 100_000_000_000_000_000_000,
{
    reveal_with_fuel(pow10, 21);
}

/// A number of 64 bits has at most twenty decimal digits.
pub proof fn lemma_digit_count_u64(x: u64)
    ensures
        1 <= decimal_digits(x as nat).len() <= 20,
{
    lemma_digit_count(x as nat);
    lemma_pow10_values();
    let n = decimal_digits(x as nat).len();
    if n > 20 {
        lemma_pow10_monotonic(20, (n - 1) as nat);
    }
}

/// Borrowing: where the digits after position `p` are zeros, lowering the
/// digit at `p` by one and turning those zeros into nines lowers the value
/// by one.
pub proof fn lemma_borrow(before: Seq<u8>, after: Seq<u8>, p: int)
    requires
        before.len() == after.len(),
        0 <= p < before.len(),
        all_digits(before),
        before[p] >= 1,
        after[p] == before[p] - 1,
        forall|i: int| 0 <= i < p ==> after[i] == before[i],
        forall|i: int| p < i < before.len() ==> before[i] == 0 && after[i] == 9,
    ensures
        digits_value(after) + 1 == digits_value(before),
        all_digits(after),
{
    let n = before.len();
    let rest = (n - p - 1) as nat;
    lemma_value_split(before, p + 1);
    lemma_value_split(after, p + 1);
    assert(before.skip(p + 1) =~= repeated(0, rest));
    assert(after.skip(p + 1) =~= repeated(9, rest));
    lemma_value_zeros(rest);
    lemma_value_nines(rest);
    let b = before.take(p + 1);
    let a = after.take(p + 1);
    assert(a.drop_last() =~= b.drop_last());
    assert(a.last() == after[p] && b.last() == before[p]);
    let vb = digits_value(b);
    let w = pow10(rest);
    assert((vb - 1) * w + w == vb * w) by (nonlinear_arith);
    assert forall|i: int| 0 <= i < n implies #[trigger] after[i] <= 9 by {
        if i <= p {
            assert(before[i] <= 9);
        }
    }
}

/// Carrying: where the digits after position `p` are nines, raising the
/// digit at `p` by one and turning those nines into zeros raises the value
/// by one.
pub proof fn lemma_carry(before: Seq<u8>, after: Seq<u8>, p: int)
    requires
        before.len() == after.len(),
        0 <= p < before.len(),
        all_digits(before),
        before[p] <= 8,
        after[p] == before[p] + 1,
        forall|i: int| 0 <= i < p ==> after[i] == before[i],
        forall|i: int| p < i < before.len() ==> before[i] == 9 && after[i] == 0,
    ensures
        digits_value(after) == digits_value(before) + 1,
        all_digits(after),
{
    let n = before.len();
    let rest = (n - p - 1) as nat;
    lemma_value_split(before, p + 1);
    lemma_value_split(after, p + 1);
    assert(before.skip(p + 1) =~= repeated(9, rest));
    assert(after.skip(p + 1) =~= repeated(0, rest));
    lemma_value_zeros(rest);
    lemma_value_nines(rest);
    let b = before.take(p + 1);
    let a = after.take(p + 1);
    assert(a.drop_last() =~= b.drop_last());
    assert(a.last() == after[p] && b.last() == before[p]);
    let vb = digits_value(b);
    let w = pow10(rest);
    assert((vb + 1) * w == vb * w + w) by (nonlinear_arith);
    assert forall|i: int| 0 <= i < n implies #[trigger] after[i] <= 9 by {
        if i < p {
            assert(before[i] <= 9);
        }
    }
}

/// A one followed by `n - 1` zeros denotes `10^(n-1)`.
pub proof fn lemma_value_one_then_zeros(s: Seq<u8>)
    requires
        s.len() >= 1,
        s[0] == 1,
        forall|i: int| 1 <= i < s.len() ==> s[i] == 0,
    ensures
        digits_value(s) == pow10((s.len() - 1) as nat),
{
    let rest = (s.len() - 1) as nat;
    lemma_value_split(s, 1);
    assert(s.skip(1) =~= repeated(0, rest));
    lemma_value_zeros(rest);
    let a = s.take(1);
    assert(a.drop_last().len() == 0);
    assert(digits_value(a.drop_last()) == 0);
    assert(a.last() == 1);
    assert(1 * pow10(rest) == pow10(rest));
}

} // verus!
