//! Testing for a palindrome by reversing the lower half of a number.

use crate::digits::{
    all_digits, digits_value, is_decimal, lemma_pow10_monotonic, lemma_value_bound,
    lemma_value_injective, lemma_value_lower_bound, lemma_value_push,
};
use crate::palindromic::reads_same_backwards;
use vstd::prelude::*;

verus! {

/// The last `k` digits of `d`, read backwards.
pub open spec fn reversed_tail(d: Seq<u8>, k: nat) -> Seq<u8> {
    Seq::new(k, |i: int| d[d.len() - 1 - i])
}

/// Reading one digit more backwards appends that digit.
pub proof fn lemma_reversed_tail_step(d: Seq<u8>, k: nat)
    requires
        k < d.len(),
    ensures
        reversed_tail(d, k + 1) == reversed_tail(d, k).push(d[d.len() - 1 - k]),
        digits_value(reversed_tail(d, k + 1)) == digits_value(reversed_tail(d, k)) * 10 + d[d.len()
            - 1 - k],
{
    assert(reversed_tail(d, k + 1) =~= reversed_tail(d, k).push(d[d.len() - 1 - k]));
    lemma_value_push(reversed_tail(d, k), d[d.len() - 1 - k]);
}

/// A sequence reads the same backwards exactly when its leading half
/// equals its trailing half read backwards, the middle of an odd length
/// left out.
pub proof fn lemma_symmetric_by_tail(d: Seq<u8>)
    ensures
        reads_same_backwards(d) <==> d.take((d.len() / 2) as int) == reversed_tail(d, d.len() / 2),
{
    let n = d.len();
    let h = n / 2;
    let a = d.take(h as int);
    let b = reversed_tail(d, h);
    if reads_same_backwards(d) {
        assert forall|i: int| 0 <= i < h implies a[i] == b[i] by {
            assert(d[i] == d[n - 1 - i]);
        }
        assert(a =~= b);
    }
    if a == b {
        assert forall|i: int| 0 <= i < n implies #[trigger] d[i] == d[n - 1 - i] by {
            if i < h {
                assert(a[i] == b[i]);
            } else if n - 1 - i < h {
                assert(a[n - 1 - i] == b[n - 1 - i]);
            }
        }
    }
}

/// What the reversal of the lower half decides. `d` is the notation of a
/// number that does not end in zero. Its last `k` digits, read backwards,
/// denote at least as much as the digits before them, and with one digit
/// fewer they denoted less. Then the number is a palindrome exactly when
/// the leading digits denote the reversed ones, or the reversed ones
/// without their last digit.
pub proof fn lemma_half_reversal(d: Seq<u8>, k: nat)
    requires
        is_decimal(d),
        d[0] != 0,
        d.last() != 0,
        1 <= k <= d.len(),
        digits_value(d.take(d.len() - k)) <= digits_value(reversed_tail(d, k)),
        digits_value(d.take(d.len() - k + 1)) > digits_value(reversed_tail(d, (k - 1) as nat)),
    ensures
        reads_same_backwards(d) <==> (digits_value(d.take(d.len() - k)) == digits_value(
            reversed_tail(d, k),
        ) || digits_value(d.take(d.len() - k)) == digits_value(reversed_tail(d, k)) / 10),
{
    let n = d.len();
    let m = (n - k) as nat;
    let a = d.take(m as int);
    let b = reversed_tail(d, k);
    let a1 = d.take(m as int + 1);
    let b1 = reversed_tail(d, (k - 1) as nat);
    let x = digits_value(a);
    let rh = digits_value(b);
    assert(all_digits(a) && all_digits(a1)) by {
        assert forall|i: int| 0 <= i < a.len() implies #[trigger] a[i] <= 9 by {
            assert(a[i] == d[i]);
        }
        assert forall|i: int| 0 <= i < a1.len() implies #[trigger] a1[i] <= 9 by {
            assert(a1[i] == d[i]);
        }
    }
    assert(all_digits(b) && all_digits(b1)) by {
        assert forall|i: int| 0 <= i < b.len() implies #[trigger] b[i] <= 9 by {
            assert(b[i] == d[n - 1 - i]);
        }
        assert forall|i: int| 0 <= i < b1.len() implies #[trigger] b1[i] <= 9 by {
            assert(b1[i] == d[n - 1 - i]);
        }
    }
    lemma_reversed_tail_step(d, (k - 1) as nat);
    assert(rh / 10 == digits_value(b1));
    lemma_value_bound(a);
    lemma_value_bound(a1);
    lemma_value_bound(b);
    lemma_value_bound(b1);
    assert(b[0] == d[n - 1]);
    lemma_value_lower_bound(b);
    if m >= 1 {
        assert(a[0] == d[0]);
        lemma_value_lower_bound(a);
    }
    if k >= 2 {
        assert(b1[0] == d[n - 1]);
        lemma_value_lower_bound(b1);
    }
    if m > k {
        lemma_pow10_monotonic(k, (m - 1) as nat);
    }
    if m + 1 < k - 1 {
        lemma_pow10_monotonic(m + 1, (k - 2) as nat);
    }
    lemma_symmetric_by_tail(d);
    if k == m {
        if x == rh {
            lemma_value_injective(a, b);
        }
    } else if k == m + 1 {
        if x == rh / 10 {
            lemma_value_injective(a, b1);
        }
    } else {
        assert(k == m + 2);
        assert(n / 2 == m + 1);
    }
}

} // verus!
