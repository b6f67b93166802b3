//! What holds of the library's functions taken together.

use crate::limits::{lemma_largest_palindrome, lemma_max_ordinal};
use crate::palindromic::{
    ceiling_palindrome, count_below, floor_palindrome, is_palindromic, lemma_ceiling_palindrome,
    lemma_count_below_monotonic, lemma_count_below_nth, lemma_floor_palindrome,
    lemma_floor_palindrome_unique, lemma_max_is_palindromic, lemma_nth_palindrome_by_count,
    lemma_palindromes_in_len, next_palindrome, nth_palindrome, palindromes_in, previous_palindrome,
    MAX_ORDINAL, MAX_PALINDROME,
};
use vstd::prelude::*;

verus! {

/// A palindrome is the greatest palindrome at most itself and the least
/// palindrome at least itself.
pub proof fn law_palindrome_is_its_own_floor_and_ceiling(x: u64)
    requires
        is_palindromic(x as nat),
    ensures
        floor_palindrome(x as nat) == x,
        ceiling_palindrome(x as nat) == x,
{
    lemma_largest_palindrome(x as nat);
}

/// The greatest palindrome at most `x` and the least palindrome at least
/// `x` are palindromes and enclose `x`. Above `MAX_PALINDROME` the latter
/// is `MAX_PALINDROME`, which is then below `x`.
pub proof fn law_floor_and_ceiling_enclose(x: u64)
    ensures
        is_palindromic(floor_palindrome(x as nat)),
        is_palindromic(ceiling_palindrome(x as nat)),
        floor_palindrome(x as nat) <= x,
        x <= MAX_PALINDROME ==> x <= ceiling_palindrome(x as nat),
        x > MAX_PALINDROME ==> ceiling_palindrome(x as nat) == MAX_PALINDROME,
{
    lemma_floor_palindrome(x as nat);
    lemma_max_is_palindromic();
    if x <= MAX_PALINDROME {
        lemma_ceiling_palindrome(x as nat);
    }
}

/// No palindrome lies between `x` and the greatest palindrome at most `x`,
/// nor, up to `MAX_PALINDROME`, between `x` and the least palindrome at
/// least `x`.
pub proof fn law_floor_and_ceiling_are_nearest(x: u64, p: nat)
    requires
        is_palindromic(p),
    ensures
        p <= x ==> p <= floor_palindrome(x as nat),
        x <= p ==> ceiling_palindrome(x as nat) <= p,
{
    lemma_floor_palindrome(x as nat);
    if x <= MAX_PALINDROME {
        lemma_ceiling_palindrome(x as nat);
    } else if x <= p {
        assert(ceiling_palindrome(x as nat) == MAX_PALINDROME);
    }
}

/// The palindrome of rank `n` has exactly `n` palindromes below it: its
/// rank is `n` again.
pub proof fn law_rank_of_nth(n: u64)
    requires
        n <= MAX_ORDINAL,
    ensures
        is_palindromic(nth_palindrome(n as nat)),
        nth_palindrome(n as nat) <= MAX_PALINDROME,
        count_below(nth_palindrome(n as nat)) == n,
{
    lemma_max_ordinal();
    lemma_count_below_nth(n as nat);
}

/// A palindrome is the palindrome of its own rank, and that rank is at
/// most `MAX_ORDINAL`.
pub proof fn law_nth_of_rank(p: u64)
    requires
        is_palindromic(p as nat),
    ensures
        count_below(p as nat) <= MAX_ORDINAL,
        nth_palindrome(count_below(p as nat)) == p,
{
    lemma_largest_palindrome(p as nat);
    lemma_max_ordinal();
    lemma_count_below_monotonic(p as nat, MAX_PALINDROME as nat);
    lemma_nth_palindrome_by_count(count_below(p as nat), p as nat);
}

/// Below `MAX_PALINDROME` the palindrome after `p` is greater than `p`,
/// and the palindrome before it is `p` again.
pub proof fn law_previous_of_next(p: u64)
    requires
        is_palindromic(p as nat),
        p < MAX_PALINDROME,
    ensures
        next_palindrome(p as nat) > p,
        is_palindromic(next_palindrome(p as nat)),
        previous_palindrome(next_palindrome(p as nat)) == p,
{
    let q = next_palindrome(p as nat);
    lemma_ceiling_palindrome(p as nat + 1);
    assert forall|r: nat| p < r <= q - 1 implies !is_palindromic(r) by {}
    lemma_floor_palindrome_unique((q - 1) as nat, p as nat);
}

/// Every element of `palindromes_in(from, to)` is a palindrome in
/// `[from, to)`, and the elements increase strictly.
pub proof fn law_range_holds_palindromes_in_order(from: nat, to: nat)
    ensures
        forall|i: int|
            0 <= i < palindromes_in(from, to).len() ==> {
                let p = #[trigger] palindromes_in(from, to)[i];
                is_palindromic(p) && from <= p < to
            },
        forall|i: int, j: int|
            0 <= i < j < palindromes_in(from, to).len() ==> palindromes_in(from, to)[i]
                < palindromes_in(from, to)[j],
    decreases to - from,
{
    let s = palindromes_in(from, to);
    if from < to {
        law_range_holds_palindromes_in_order(from + 1, to);
        let t = palindromes_in(from + 1, to);
        if is_palindromic(from) {
            assert(s =~= seq![from] + t);
            assert forall|i: int| 0 <= i < s.len() implies is_palindromic(#[trigger] s[i]) && from
                <= s[i] < to by {
                if i > 0 {
                    assert(s[i] == t[i - 1]);
                }
            }
            assert forall|i: int, j: int| 0 <= i < j < s.len() implies s[i] < s[j] by {
                assert(s[j] == t[j - 1]);
                if i > 0 {
                    assert(s[i] == t[i - 1]);
                }
            }
        } else {
            assert(s == t);
        }
    }
}

/// Every palindrome in `[from, to)` is an element of
/// `palindromes_in(from, to)`.
pub proof fn law_range_holds_every_palindrome(from: nat, to: nat, p: nat)
    requires
        from <= p < to,
        is_palindromic(p),
    ensures
        palindromes_in(from, to).contains(p),
    decreases to - from,
{
    let s = palindromes_in(from, to);
    if from == p {
        assert(s[0] == p);
    } else {
        law_range_holds_every_palindrome(from + 1, to, p);
        let t = palindromes_in(from + 1, to);
        let i = choose|i: int| 0 <= i < t.len() && t[i] == p;
        if is_palindromic(from) {
            assert(s[i + 1] == p);
        } else {
            assert(s[i] == p);
        }
    }
}

/// A range holds as many palindromes as lie below its upper bound and not
/// below its lower bound.
pub proof fn law_range_length(from: nat, to: nat)
    ensures
        from <= to ==> palindromes_in(from, to).len() == count_below(to) - count_below(from),
        from >= to ==> palindromes_in(from, to).len() == 0,
{
    lemma_palindromes_in_len(from, to);
}

} // verus!
