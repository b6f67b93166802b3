use palindromeda::{IsPalindrome, Palindrome, PalindromeIter};

/// Whether the decimal digits of `x` read the same in both directions.
fn reads_same_backwards(x: u64) -> bool {
    let text = format!("{}", x);
    let digits: Vec<char> = text.chars().collect();
    let mut reversed = digits.clone();
    reversed.reverse();
    digits == reversed
}

/// The palindromes that `iter` yields, in order.
fn drain(mut iter: PalindromeIter) -> Vec<u64> {
    let mut values = Vec::new();
    while let Some(pal) = iter.next() {
        values.push(pal.value());
    }
    values
}

#[test]
fn is_palindrome_agrees_with_reading_backwards() {
    for x in 0..20_000u64 {
        assert_eq!(x.is_palindrome(), reads_same_backwards(x), "{}", x);
    }
    for x in [
        123_454_321u64,
        123_456_789,
        1_000_000_001,
        1_000_000_010,
        18_446_744_066_044_764_481,
        18_446_744_073_709_551_615,
        9_999_999_999_999_999_999,
        10_000_000_000_000_000_001,
        10_000_000_000_000_000_000,
    ] {
        assert_eq!(x.is_palindrome(), reads_same_backwards(x), "{}", x);
    }
}

#[test]
fn is_palindrome_examples() {
    assert!(0u64.is_palindrome());
    assert!(7u64.is_palindrome());
    assert!(8008u64.is_palindrome());
    assert!(!69u8.is_palindrome());
    assert!(!10u64.is_palindrome());
    assert!(!100u64.is_palindrome());
    assert!(121u64.is_palindrome());
    assert!(1221u64.is_palindrome());
    assert!(!1231u64.is_palindrome());
    assert!(!1000021u64.is_palindrome());
}

#[test]
fn is_palindrome_on_narrow_integers() {
    assert!(255u8.is_palindrome() == false);
    assert!(252u8.is_palindrome());
    assert!(65_556u32.is_palindrome());
    assert!(!65_535u16.is_palindrome());
    assert!(65_456u16.is_palindrome());
    assert!(4_294_884_924u32.is_palindrome());
    assert!(!4_294_967_295u32.is_palindrome());
}

#[test]
fn is_palindrome_on_palindromes() {
    assert!(Palindrome::le(998_001).is_palindrome());
    assert!(Palindrome::ge(998_001).is_palindrome());
    assert!(Palindrome::le(0).is_palindrome());
}

#[test]
fn to_digits_examples() {
    assert_eq!(Palindrome::to_digits(0), vec![0]);
    assert_eq!(Palindrome::to_digits(7), vec![7]);
    assert_eq!(Palindrome::to_digits(10), vec![1, 0]);
    assert_eq!(Palindrome::to_digits(34_543), vec![3, 4, 5, 4, 3]);
    assert_eq!(
        Palindrome::to_digits(u64::MAX),
        vec![1, 8, 4, 4, 6, 7, 4, 4, 0, 7, 3, 7, 0, 9, 5, 5, 1, 6, 1, 5]
    );
}

#[test]
fn construct_palindrome_of_twenty_digits() {
    assert_eq!(
        Palindrome::MAX,
        Palindrome::construct_palindrome(20, &vec![1, 8, 4, 4, 6, 7, 4, 4, 0, 6])
    );
    assert_eq!(
        1_000_000_000_000_000_001,
        Palindrome::construct_palindrome(19, &vec![1, 0, 0, 0, 0, 0, 0, 0, 0, 0])
    );
}

#[test]
fn floor_and_ceiling_of_a_palindrome_are_itself() {
    for x in [0u64, 5, 9, 11, 99, 101, 9_999, 12_321, 998_899, Palindrome::MAX] {
        assert_eq!(x, Palindrome::le(x));
        assert_eq!(x, Palindrome::ge(x));
        assert_eq!(x, Palindrome::closest(x));
    }
}

#[test]
fn floor_and_ceiling_enclose() {
    let mut x: u64 = 0;
    while x < 30_000 {
        let below = Palindrome::le(x);
        let above = Palindrome::ge(x);
        assert!(below <= x && x <= above, "{}", x);
        assert!(below.is_palindrome() && above.is_palindrome());
        x += 7;
    }
    for x in [
        1_000_000_007u64,
        123_456_789_012,
        99_999_999_999_999,
        10_000_000_000_000_000_000,
        18_446_744_066_044_764_480,
    ] {
        let below = Palindrome::le(x);
        let above = Palindrome::ge(x);
        assert!(below <= x && x <= above, "{}", x);
        assert!(reads_same_backwards(below.value()));
        assert!(reads_same_backwards(above.value()));
    }
}

#[test]
fn floor_and_ceiling_are_the_nearest() {
    let mut expected_floor: u64 = 0;
    for x in 0..12_000u64 {
        if reads_same_backwards(x) {
            expected_floor = x;
        }
        assert_eq!(expected_floor, Palindrome::le(x), "{}", x);
    }
    let mut expected_ceiling: u64 = 12_021;
    let mut x: u64 = 12_021;
    loop {
        if reads_same_backwards(x) {
            expected_ceiling = x;
        }
        assert_eq!(expected_ceiling, Palindrome::ge(x), "{}", x);
        if x == 0 {
            break;
        }
        x -= 1;
    }
}

#[test]
fn floor_edge_cases() {
    assert_eq!(9, Palindrome::le(10));
    assert_eq!(99, Palindrome::le(100));
    assert_eq!(999, Palindrome::le(1000));
    assert_eq!(99_999, Palindrome::le(100_000));
    assert_eq!(9_999_999_999_999_999_999, Palindrome::le(10_000_000_000_000_000_000));
    assert_eq!(997_799, Palindrome::le(998_001));
    assert_eq!(0, Palindrome::le(0));
    assert_eq!(Palindrome::MAX, Palindrome::le(u64::MAX));
    assert_eq!(18_446_744_055_044_764_481, Palindrome::le(Palindrome::MAX - 1));
}

#[test]
fn ceiling_edge_cases() {
    assert_eq!(11, Palindrome::ge(10));
    assert_eq!(99, Palindrome::ge(99));
    assert_eq!(101, Palindrome::ge(100));
    assert_eq!(998_899, Palindrome::ge(998_001));
    assert_eq!(1_001, Palindrome::ge(1_000));
    assert_eq!(2_002, Palindrome::ge(1_992));
    assert_eq!(10_000_000_000_000_000_001, Palindrome::ge(10_000_000_000_000_000_000));
}

#[test]
fn ceiling_clamps_from_max_on() {
    assert_eq!(Palindrome::MAX, Palindrome::ge(Palindrome::MAX));
    assert_eq!(Palindrome::MAX, Palindrome::ge(Palindrome::MAX - 1));
    assert_eq!(Palindrome::MAX, Palindrome::ge(Palindrome::MAX + 1));
    assert_eq!(Palindrome::MAX, Palindrome::ge(u64::MAX));
    assert_eq!(
        Palindrome::MAX,
        Palindrome::ge(18_446_744_055_044_764_482)
    );
}

#[test]
fn closest_breaks_ties_upwards() {
    assert_eq!(11, Palindrome::closest(10));
    assert_eq!(9, Palindrome::closest(9));
    assert_eq!(101, Palindrome::closest(100));
    assert_eq!(111, Palindrome::closest(106));
    assert_eq!(101, Palindrome::closest(105));
    assert_eq!(Palindrome::MAX, Palindrome::closest(u64::MAX));
    assert_eq!(Palindrome::MAX, Palindrome::closest(Palindrome::MAX + 1));
}

#[test]
fn next_and_previous_at_the_ends() {
    assert_eq!(0, Palindrome::le(0).previous());
    assert_eq!(1, Palindrome::le(0).next());
    assert_eq!(101, Palindrome::le(99).next());
    assert_eq!(99, Palindrome::le(101).previous());
    assert_eq!(11, Palindrome::le(9).next());
    assert_eq!(9, Palindrome::le(11).previous());
    let max = Palindrome::le(u64::MAX);
    assert_eq!(Palindrome::MAX, max.next());
    assert_eq!(18_446_744_055_044_764_481, max.previous());
    assert_eq!(Palindrome::MAX, max.previous().next());
}

#[test]
fn previous_of_next_is_the_same() {
    let mut pal = Palindrome::le(0);
    for _ in 0..5_000 {
        let after = pal.next();
        assert!(after > pal.value());
        assert_eq!(pal, after.previous());
        pal = after;
    }
    for x in [999_999_999u64, 1_000_000_000_001, 18_446_744_055_044_764_481] {
        let pal = Palindrome::le(x);
        assert_eq!(x, pal);
        assert!(pal.next() > x);
        assert_eq!(pal, pal.next().previous());
    }
}

#[test]
fn nth_examples() {
    assert_eq!(0, Palindrome::nth(0).unwrap());
    assert_eq!(9, Palindrome::nth(9).unwrap());
    assert_eq!(11, Palindrome::nth(10).unwrap());
    assert_eq!(99, Palindrome::nth(18).unwrap());
    assert_eq!(101, Palindrome::nth(19).unwrap());
    assert_eq!(999, Palindrome::nth(108).unwrap());
    assert_eq!(1001, Palindrome::nth(109).unwrap());
    assert_eq!(90_109, Palindrome::nth(1_000).unwrap());
    assert_eq!(
        9_999_999_999_999_999_999,
        Palindrome::nth(10_999_999_998).unwrap()
    );
    assert_eq!(
        10_000_000_000_000_000_001,
        Palindrome::nth(10_999_999_999).unwrap()
    );
    assert_eq!(Palindrome::MAX, Palindrome::nth(11_844_674_405).unwrap());
    assert_eq!(None, Palindrome::nth(11_844_674_406));
    assert_eq!(None, Palindrome::nth(u64::MAX));
}

#[test]
fn to_n_examples() {
    assert_eq!(0, Palindrome::le(0).to_n());
    assert_eq!(9, Palindrome::le(9).to_n());
    assert_eq!(10, Palindrome::le(11).to_n());
    assert_eq!(1_000, Palindrome::le(90_109).to_n());
    assert_eq!(PalindromeIter::MAX_N, Palindrome::le(u64::MAX).to_n());
}

#[test]
fn nth_and_to_n_are_inverse() {
    for n in 0..3_000u64 {
        assert_eq!(n, Palindrome::nth(n).unwrap().to_n());
    }
    for n in [
        123_456u64,
        10_999_999_998,
        10_999_999_999,
        11_000_000_000,
        PalindromeIter::MAX_N - 1,
        PalindromeIter::MAX_N,
    ] {
        assert_eq!(n, Palindrome::nth(n).unwrap().to_n());
    }
    for x in [0u64, 7, 11, 12_321, 998_899, 1_234_554_321, Palindrome::MAX] {
        let pal = Palindrome::le(x);
        assert_eq!(x, pal);
        assert_eq!(pal, Palindrome::nth(pal.to_n()).unwrap());
    }
}

#[test]
fn len_from_0_counts_the_palindromes_below() {
    let mut expected: u64 = 0;
    for to in 0..15_000u64 {
        assert_eq!(expected, PalindromeIter::len_from_0(to), "{}", to);
        if reads_same_backwards(to) {
            expected += 1;
        }
    }
    assert_eq!(10, PalindromeIter::len_from_0(10));
    assert_eq!(10, PalindromeIter::len_from_0(11));
    assert_eq!(11, PalindromeIter::len_from_0(12));
    assert_eq!(19, PalindromeIter::len_from_0(100));
    assert_eq!(PalindromeIter::MAX_N, PalindromeIter::len_from_0(Palindrome::MAX));
    assert_eq!(
        PalindromeIter::MAX_N + 1,
        PalindromeIter::len_from_0(Palindrome::MAX + 1)
    );
    assert_eq!(PalindromeIter::MAX_N + 1, PalindromeIter::len_from_0(u64::MAX));
}

#[test]
fn palindromes_in_n_digits_table() {
    assert_eq!(0, PalindromeIter::palindromes_in_n_digits(0));
    assert_eq!(10, PalindromeIter::palindromes_in_n_digits(1));
    assert_eq!(19, PalindromeIter::palindromes_in_n_digits(2));
    assert_eq!(109, PalindromeIter::palindromes_in_n_digits(3));
    assert_eq!(199, PalindromeIter::palindromes_in_n_digits(4));
    assert_eq!(1_099, PalindromeIter::palindromes_in_n_digits(5));
    assert_eq!(10_999_999_999, PalindromeIter::palindromes_in_n_digits(19));
    assert_eq!(19_999_999_999, PalindromeIter::palindromes_in_n_digits(20));
    for n in 1..=5u8 {
        let bound = 10u64.pow(n as u32);
        assert_eq!(
            PalindromeIter::len_from_0(bound),
            PalindromeIter::palindromes_in_n_digits(n)
        );
    }
}

#[test]
fn value_range_of_the_first_ten() {
    let iter = PalindromeIter::from_u64(0, 10);
    assert_eq!(10, iter.len());
    assert_eq!(10, iter.count());
    assert_eq!(
        vec![0, 1, 2, 3, 4, 5, 6, 7, 8, 9],
        drain(PalindromeIter::from_u64(0, 10))
    );
}

#[test]
fn value_range_yields_the_palindromes_in_order() {
    assert_eq!(
        vec![88, 99, 101, 111, 121],
        drain(PalindromeIter::from_u64(80, 122))
    );
    assert_eq!(vec![99], drain(PalindromeIter::from_u64(89, 100)));
    let none: Vec<u64> = Vec::new();
    assert_eq!(none, drain(PalindromeIter::from_u64(89, 99)));
}

#[test]
fn range_between_palindromes() {
    let iter = PalindromeIter::from(Palindrome::le(101), Palindrome::le(151));
    assert_eq!(5, iter.len());
    assert_eq!(vec![101, 111, 121, 131, 141], drain(iter));
}

#[test]
fn inverted_and_empty_ranges_yield_nothing() {
    let iter = PalindromeIter::from_u64(10, 5);
    assert_eq!(0, iter.len());
    assert_eq!(0, iter.count());
    let iter = PalindromeIter::from_u64(7, 7);
    assert_eq!(0, iter.len());
    assert_eq!(0, iter.count());
    let iter = PalindromeIter::from(Palindrome::le(99), Palindrome::le(11));
    assert_eq!(0, iter.len());
    assert_eq!(0, iter.count());
}

#[test]
fn range_ends_after_the_largest_palindrome() {
    let iter = PalindromeIter::from_u64(18_446_744_055_044_764_481, u64::MAX);
    assert_eq!(2, iter.len());
    assert_eq!(
        vec![18_446_744_055_044_764_481, Palindrome::MAX],
        drain(iter)
    );
    let mut iter = PalindromeIter::from_u64(Palindrome::MAX, u64::MAX);
    assert_eq!(1, iter.len());
    assert_eq!(Palindrome::MAX, iter.next().unwrap());
    assert_eq!(0, iter.len());
    assert_eq!(None, iter.next());
    assert_eq!(None, iter.next());
}

#[test]
fn range_from_above_the_largest_palindrome_starts_at_it() {
    let iter = PalindromeIter::from_u64(u64::MAX - 1, u64::MAX);
    assert_eq!(1, iter.len());
    assert_eq!(vec![Palindrome::MAX], drain(iter));
    let iter = PalindromeIter::from_u64(u64::MAX, Palindrome::MAX);
    assert_eq!(0, iter.len());
    assert_eq!(0, iter.count());
}

#[test]
fn len_shrinks_as_the_iterator_advances() {
    let mut iter = PalindromeIter::from_u64(95, 200);
    let mut left = iter.len();
    assert_eq!(11, left);
    while let Some(_) = iter.next() {
        left -= 1;
        assert_eq!(left, iter.len());
    }
    assert_eq!(0, left);
}

#[test]
fn first_n_of_nothing() {
    let mut iter = PalindromeIter::first_n(0);
    assert_eq!(0, iter.len());
    assert_eq!(None, iter.next());
}

#[test]
fn first_n_yields_the_first_palindromes() {
    assert_eq!(
        vec![0, 1, 2, 3, 4, 5, 6, 7, 8, 9, 11, 22],
        drain(PalindromeIter::first_n(12))
    );
    let iter = PalindromeIter::first_n(1_000);
    assert_eq!(1_000, iter.len());
    assert_eq!(1_000, iter.count());
}

#[test]
fn first_n_from_yields_n_from_the_start() {
    assert_eq!(
        vec![99, 101, 111],
        drain(PalindromeIter::first_n_from(3, Palindrome::le(99)))
    );
    let iter = PalindromeIter::first_n_from(250, Palindrome::le(12_321));
    assert_eq!(250, iter.len());
    assert_eq!(250, iter.count());
}

#[test]
fn first_n_from_stops_short_of_the_largest_palindrome() {
    let start = Palindrome::nth(PalindromeIter::MAX_N - 3).unwrap();
    let iter = PalindromeIter::first_n_from(3, start);
    assert_eq!(3, iter.len());
    assert_eq!(3, iter.count());
    let iter = PalindromeIter::first_n_from(4, start);
    assert_eq!(3, iter.len());
    let iter = PalindromeIter::first_n_from(10, start);
    assert_eq!(3, iter.len());
    let yielded = drain(iter);
    assert_eq!(3, yielded.len());
    assert_eq!(18_446_744_055_044_764_481, yielded[2]);
    let iter = PalindromeIter::first_n_from(u64::MAX, start);
    assert_eq!(3, iter.len());
    let iter = PalindromeIter::first_n_from(1, Palindrome::le(u64::MAX));
    assert_eq!(0, iter.len());
    assert_eq!(0, iter.count());
    let iter = PalindromeIter::first_n(u64::MAX);
    assert_eq!(PalindromeIter::MAX_N, iter.len());
}

#[test]
fn constants() {
    assert_eq!(0, Palindrome::MIN);
    assert_eq!(18_446_744_066_044_764_481, Palindrome::MAX);
    assert_eq!(11_844_674_405, PalindromeIter::MAX_N);
    assert!(Palindrome::MAX.is_palindrome());
    assert_eq!(Palindrome::MAX, Palindrome::le(u64::MAX));
}

#[test]
fn comparing_with_numbers() {
    let pal = Palindrome::le(123);
    assert!(pal == 121);
    assert!(121 == pal);
    assert!(pal != 122);
    assert!(pal < 122);
    assert!(pal <= 121);
    assert!(pal > 120);
    assert!(pal >= 121);
    assert!(122 > pal);
    assert!(120 < pal);
    assert!(121 <= pal);
    assert!(121 >= pal);
    assert!(!(pal < 121));
    assert!(!(121 > pal));
    assert!(Palindrome::le(11) < Palindrome::le(22));
}

#[test]
fn converting_to_numbers() {
    let pal = Palindrome::ge(123);
    assert_eq!(131, u64::from(pal));
    assert_eq!(131, u64::from(&pal));
    assert_eq!(131, pal.value());
    let number: u64 = pal.into();
    assert_eq!(131, number);
}
