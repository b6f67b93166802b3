//! What it means for a number to be a palindrome, and the functions on
//! numbers that the library computes: nearest palindromes, the count of
//! palindromes below a bound, and the palindrome of a given rank.

use crate::digits::decimal_digits;
use vstd::prelude::*;

verus! {

/// The largest palindrome that fits in 64 bits.
pub const MAX_PALINDROME: u64 = 18_446_744_066_044_764_481u64;

/// The rank of `MAX_PALINDROME` among all palindromes, counted from zero.
pub const MAX_ORDINAL: u64 = 11_844_674_405u64;

/// `s` equals its own reversal.
pub open spec fn reads_same_backwards(s: Seq<u8>) -> bool {
    forall|i: int| 0 <= i < s.len() ==> #[trigger] s[i] == s[s.len() - 1 - i]
}

/// `x` is a palindrome: its decimal digits read the same in both directions.
pub open spec fn is_palindromic(x: nat) -> bool {
    reads_same_backwards(decimal_digits(x))
}

/// The greatest palindrome that is at most `x`.
pub open spec fn floor_palindrome(x: nat) -> nat
    decreases x,
{
    if x == 0 || is_palindromic(x) {
        x
    } else {
        floor_palindrome((x - 1) as nat)
    }
}

/// The least palindrome that is at least `x`, for `x` below
/// `MAX_PALINDROME`; from there on it is `MAX_PALINDROME`.
pub open spec fn ceiling_palindrome(x: nat) -> nat
    decreases MAX_PALINDROME - x,
{
    if x >= MAX_PALINDROME {
        MAX_PALINDROME as nat
    } else if is_palindromic(x) {
        x
    } else {
        ceiling_palindrome(x + 1)
    }
}

/// The distance between two numbers.
pub open spec fn distance(a: nat, b: nat) -> nat {
    if a <= b {
        (b - a) as nat
    } else {
        (a - b) as nat
    }
}

/// Of `floor_palindrome(x)` and `ceiling_palindrome(x)` the one nearer to
/// `x`; the latter where both are equally near.
pub open spec fn closest_palindrome(x: nat) -> nat {
    let below = floor_palindrome(x);
    let above = ceiling_palindrome(x);
    if distance(above, x) <= distance(x, below) {
        above
    } else {
        below
    }
}

/// The palindrome before the palindrome `p`; zero has none before it and
/// gives zero.
pub open spec fn previous_palindrome(p: nat) -> nat {
    if p == 0 {
        0
    } else {
        floor_palindrome((p - 1) as nat)
    }
}

/// The palindrome after the palindrome `p`, as far as `MAX_PALINDROME`,
/// which gives itself.
pub open spec fn next_palindrome(p: nat) -> nat {
    ceiling_palindrome(p + 1)
}

/// The number of palindromes that are less than `x`.
pub open spec fn count_below(x: nat) -> nat
    decreases x,
{
    if x == 0 {
        0
    } else {
        count_below((x - 1) as nat) + if is_palindromic((x - 1) as nat) {
            1nat
        } else {
            0nat
        }
    }
}

/// The palindrome of rank `n`, counted from zero in increasing order, as far
/// as `MAX_PALINDROME`; a larger rank gives `MAX_PALINDROME`.
pub open spec fn nth_palindrome(n: nat) -> nat
    decreases n,
{
    if n == 0 {
        0
    } else {
        next_palindrome(nth_palindrome((n - 1) as nat))
    }
}

/// The palindromes in `[from, to)`, in increasing order.
pub open spec fn palindromes_in(from: nat, to: nat) -> Seq<nat>
    decreases to - from,
{
    if from >= to {
        Seq::empty()
    } else if is_palindromic(from) {
        seq![from] + palindromes_in(from + 1, to)
    } else {
        palindromes_in(from + 1, to)
    }
}

/// Numbers below ten are palindromes.
pub proof fn lemma_single_digit_palindromic(x: nat)
    requires
        x < 10,
    ensures
        is_palindromic(x),
{
    assert(decimal_digits(x).len() == 1);
}

/// `floor_palindrome(x)` is a palindrome, at most `x`, and no palindrome
/// lies between it and `x`.
pub proof fn lemma_floor_palindrome(x: nat)
    ensures
        is_palindromic(floor_palindrome(x)),
        floor_palindrome(x) <= x,
        forall|p: nat| floor_palindrome(x) < p <= x ==> !is_palindromic(p),
    decreases x,
{
    if x == 0 || is_palindromic(x) {
        if x == 0 {
            lemma_single_digit_palindromic(0);
        }
    } else {
        lemma_floor_palindrome((x - 1) as nat);
    }
}

/// A palindrome at most `x` with no palindrome between it and `x` is
/// `floor_palindrome(x)`.
pub proof fn lemma_floor_palindrome_unique(x: nat, r: nat)
    requires
        is_palindromic(r),
        r <= x,
        forall|p: nat| r < p <= x ==> !is_palindromic(p),
    ensures
        floor_palindrome(x) == r,
    decreases x - r,
{
    if r < x {
        assert(!is_palindromic(x));
        lemma_floor_palindrome_unique((x - 1) as nat, r);
    }
}

/// Taking everything but the last step of `count_below`: a stretch without
/// palindromes adds nothing to the count.
pub proof fn lemma_count_below_gap(a: nat, b: nat)
    requires
        a <= b,
        forall|p: nat| a <= p < b ==> !is_palindromic(p),
    ensures
        count_below(b) == count_below(a),
    decreases b - a,
{
    if a < b {
        assert(!is_palindromic((b - 1) as nat));
        lemma_count_below_gap(a, (b - 1) as nat);
    }
}

/// `count_below` never decreases.
pub proof fn lemma_count_below_monotonic(a: nat, b: nat)
    requires
        a <= b,
    ensures
        count_below(a) <= count_below(b),
    decreases b - a,
{
    if a < b {
        lemma_count_below_monotonic(a, (b - 1) as nat);
    }
}

/// Between a palindrome and any larger number the count grows.
pub proof fn lemma_count_below_strict(p: nat, b: nat)
    requires
        is_palindromic(p),
        p < b,
    ensures
        count_below(p) < count_below(b),
{
    lemma_count_below_monotonic(p + 1, b);
}

/// There are at most `x` palindromes below `x`.
pub proof fn lemma_count_below_bound(x: nat)
    ensures
        count_below(x) <= x,
    decreases x,
{
    if x > 0 {
        lemma_count_below_bound((x - 1) as nat);
    }
}

/// `palindromes_in(from, to)` has as many elements as `count_below` says.
pub proof fn lemma_palindromes_in_len(from: nat, to: nat)
    ensures
        palindromes_in(from, to).len() == if from <= to {
            count_below(to) - count_below(from)
        } else {
            0
        },
    decreases to - from,
{
    if from < to {
        lemma_palindromes_in_len(from + 1, to);
        assert(count_below(from + 1) == count_below(from) + if is_palindromic(from) {
            1nat
        } else {
            0nat
        });
    }
}

/// Where no palindrome lies in `[from, mid)`, the palindromes of
/// `[from, to)` are those of `[mid, to)`.
pub proof fn lemma_palindromes_in_skip(from: nat, mid: nat, to: nat)
    requires
        from <= mid,
        forall|p: nat| from <= p < mid ==> !is_palindromic(p),
    ensures
        palindromes_in(from, to) == palindromes_in(mid, to),
    decreases mid - from,
{
    if from < mid {
        assert(!is_palindromic(from));
        lemma_palindromes_in_skip(from + 1, mid, to);
        if from >= to {
            assert(palindromes_in(mid, to) =~= Seq::empty());
        }
    }
}

/// `MAX_PALINDROME` is a palindrome.
pub proof fn lemma_max_is_palindromic()
    ensures
        is_palindromic(MAX_PALINDROME as nat),
{
    reveal_with_fuel(decimal_digits, 20);
    let d = decimal_digits(18_446_744_066_044_764_481nat);
    assert(d =~= seq![1u8, 8, 4, 4, 6, 7, 4, 4, 0, 6, 6, 0, 4, 4, 7, 6, 4, 4, 8, 1]);
}

/// Up to `MAX_PALINDROME`, `ceiling_palindrome(x)` is a palindrome, at
/// least `x`, and no palindrome lies between `x` and it.
pub proof fn lemma_ceiling_palindrome(x: nat)
    requires
        x <= MAX_PALINDROME,
    ensures
        is_palindromic(ceiling_palindrome(x)),
        x <= ceiling_palindrome(x) <= MAX_PALINDROME,
        forall|p: nat| x <= p < ceiling_palindrome(x) ==> !is_palindromic(p),
    decreases MAX_PALINDROME - x,
{
    if x >= MAX_PALINDROME {
        lemma_max_is_palindromic();
    } else if !is_palindromic(x) {
        lemma_ceiling_palindrome(x + 1);
    }
}

/// A palindrome between `x` and `MAX_PALINDROME` with no palindrome between
/// `x` and it is `ceiling_palindrome(x)`.
pub proof fn lemma_ceiling_palindrome_unique(x: nat, r: nat)
    requires
        is_palindromic(r),
        x <= r <= MAX_PALINDROME,
        forall|p: nat| x <= p < r ==> !is_palindromic(p),
    ensures
        ceiling_palindrome(x) == r,
    decreases r - x,
{
    if x < r {
        assert(!is_palindromic(x));
        lemma_ceiling_palindrome_unique(x + 1, r);
    }
}

/// A palindrome `p` of which `count_below` is `n`, and which is at most
/// `MAX_PALINDROME`, is the palindrome of rank `n`.
pub proof fn lemma_nth_palindrome_by_count(n: nat, p: nat)
    requires
        is_palindromic(p),
        p <= MAX_PALINDROME,
        count_below(p) == n,
    ensures
        nth_palindrome(n) == p,
    decreases n,
{
    if n == 0 {
        if p > 0 {
            lemma_single_digit_palindromic(0);
            lemma_count_below_strict(0, p);
        }
    } else {
        assert(p >= 1);
        let q = floor_palindrome((p - 1) as nat);
        lemma_floor_palindrome((p - 1) as nat);
        assert forall|r: nat| q + 1 <= r < p implies !is_palindromic(r) by {}
        lemma_count_below_gap(q + 1, p);
        lemma_nth_palindrome_by_count((n - 1) as nat, q);
        lemma_ceiling_palindrome_unique(q + 1, p);
    }
}

/// Up to rank `MAX_ORDINAL` exactly `n` palindromes lie below the
/// palindrome of rank `n`, given that as many lie below `MAX_PALINDROME`.
pub proof fn lemma_count_below_nth(n: nat)
    requires
        n <= MAX_ORDINAL,
        count_below(MAX_PALINDROME as nat) == MAX_ORDINAL,
    ensures
        is_palindromic(nth_palindrome(n)),
        nth_palindrome(n) <= MAX_PALINDROME,
        count_below(nth_palindrome(n)) == n,
    decreases n,
{
    if n == 0 {
        lemma_single_digit_palindromic(0);
    } else {
        lemma_count_below_nth((n - 1) as nat);
        let q = nth_palindrome((n - 1) as nat);
        if q == MAX_PALINDROME {
            assert(false);
        }
        let p = ceiling_palindrome(q + 1);
        lemma_ceiling_palindrome(q + 1);
        lemma_count_below_gap(q + 1, p);
    }
}

} // verus!
