use palindromeda::{Palindrome, PalindromeIter};

#[test]
fn test_palindrome_closest() {
    assert_eq!(11, Palindrome::closest(10));
    assert_eq!(38783, Palindrome::closest(38794));
    assert_eq!(38783, Palindrome::closest(38832));
    assert_eq!(38883, Palindrome::closest(38833));
    assert_eq!(943858349, Palindrome::closest(943854534));
}

#[test]
fn test_palindrome_construct_palindrome() {
    assert_eq!(34543, Palindrome::construct_palindrome(5, &vec![3, 4, 5]));
    assert_eq!(345543, Palindrome::construct_palindrome(6, &vec![3, 4, 5]));
    assert_eq!(0, Palindrome::construct_palindrome(1, &vec![0]));
    assert_eq!(0, Palindrome::construct_palindrome(2, &vec![0]));
    assert_eq!(
        1710171,
        Palindrome::construct_palindrome(7, &vec![1, 7, 1, 0])
    );
    assert_eq!(
        17100171,
        Palindrome::construct_palindrome(8, &vec![1, 7, 1, 0])
    );
}

#[test]
fn test_palindrome_nth() {
    // REMEMBER IT'S 0-BASED INDEXING.
    for n in 0..=9 {
        assert_eq!(n as u64, Palindrome::nth(n).unwrap());
    }

    // Test large nth values.
    let n = 438907;
    let mut pal = Palindrome::le(0);
    for _ in 0..n {
        pal = pal.next();
    }
    assert_eq!(pal, Palindrome::nth(n).unwrap());

    // Another one.
    let n = 9999;
    let mut pal = Palindrome::le(0);
    for _ in 0..n {
        pal = pal.next();
    }
    assert_eq!(pal, Palindrome::nth(n).unwrap());

    // And another one.
    let n = 109834;
    let mut pal = Palindrome::le(0);
    for _ in 0..n {
        pal = pal.next();
    }
    assert_eq!(pal, Palindrome::nth(n).unwrap());

    // Test None values.
    let n = PalindromeIter::MAX_N; // 0-based indexing.
    assert_eq!(Palindrome::MAX, Palindrome::nth(n).unwrap());
    let n = PalindromeIter::MAX_N + 1; // 0-based indexing.
    assert_eq!(None, Palindrome::nth(n));
}

#[test]
fn test_palindrome_previous() {
    let pal = Palindrome::le(22);
    assert_eq!(11, pal.previous());
    let pal = Palindrome::le(998899);
    assert_eq!(997799, pal.previous());
    let pal = Palindrome::le(212);
    assert_eq!(202, pal.previous());
    let pal = Palindrome::le(202);
    assert_eq!(191, pal.previous());
    let pal = Palindrome::le(191);
    assert_eq!(181, pal.previous());
    let pal = Palindrome::le(1991);
    assert_eq!(1881, pal.previous());
    let pal = Palindrome::le(100001);
    assert_eq!(99999, pal.previous());
    let pal = Palindrome::le(1001);
    assert_eq!(999, pal.previous())
}

#[test]
fn test_palindrome_next() {
    let pal = Palindrome::le(22);
    assert_eq!(33, pal.next());
    let pal = Palindrome::le(998899);
    assert_eq!(999999, pal.next());
    let pal = Palindrome::le(999999);
    assert_eq!(1000001, pal.next());
    let pal = Palindrome::le(212);
    assert_eq!(222, pal.next());
    let pal = Palindrome::le(191);
    assert_eq!(202, pal.next());
    let pal = Palindrome::le(181);
    assert_eq!(191, pal.next());
    let pal = Palindrome::le(1881);
    assert_eq!(1991, pal.next());
}

#[test]
fn test_palindrome_le() {
    assert_eq!(9, Palindrome::le(10));
    assert_eq!(11, Palindrome::le(11));
    assert_eq!(11, Palindrome::le(19));
    assert_eq!(99, Palindrome::le(100));
    assert_eq!(997799, Palindrome::le(998001));
    assert_eq!(202, Palindrome::le(209));
    assert_eq!(191, Palindrome::le(201));
    assert_eq!(181, Palindrome::le(190));
    assert_eq!(1881, Palindrome::le(1990));
    assert_eq!(99999, Palindrome::le(100000));
    assert_eq!(999, Palindrome::le(1000));
    assert_eq!(34543, Palindrome::le(34550));
}

#[test]
fn test_palindrome_ge() {
    assert_eq!(11, Palindrome::ge(10));
    assert_eq!(11, Palindrome::ge(11));
    assert_eq!(22, Palindrome::ge(19));
    assert_eq!(101, Palindrome::ge(100));
    assert_eq!(998899, Palindrome::ge(998001));
    assert_eq!(212, Palindrome::ge(209));
    assert_eq!(202, Palindrome::ge(199));
    assert_eq!(191, Palindrome::ge(190));
    assert_eq!(1991, Palindrome::ge(1990));
    assert_eq!(34543, Palindrome::ge(34504));
}

#[test]
fn test_palindromeiter_first_n_palindromes() {
    // First test.
    let n = 912;
    let pal_iter = PalindromeIter::first_n(n);
    assert_eq!(n, pal_iter.len());

    // Second test.
    let n = 0;
    let pal_iter = PalindromeIter::first_n(n);
    assert_eq!(n, pal_iter.len());

    // Third test.
    let n = 1;
    let pal_iter = PalindromeIter::first_n(n);
    assert_eq!(n, pal_iter.len());

    // Fourth test.
    let n = PalindromeIter::MAX_N; // Max palindromes.
    let pal_iter = PalindromeIter::first_n(n);
    assert_eq!(n, pal_iter.len());

    // Fifth test.
    let n = PalindromeIter::MAX_N + 1; // Max + 1 palindromes.
    let pal_iter = PalindromeIter::first_n(n);
    assert_eq!(n - 1, pal_iter.len());
}

#[test]
fn test_palindromeiter_first_n_palindromes_from() {
    // First test.
    let n = 912;
    let pal_iter = PalindromeIter::first_n_from(n, Palindrome::le(9));
    assert_eq!(n, pal_iter.len());

    // Second test.
    let n = 0;
    let pal_iter = PalindromeIter::first_n_from(n, Palindrome::closest(38743));
    assert_eq!(n, pal_iter.len());

    // Third test.
    let n = 1;
    let pal_iter = PalindromeIter::first_n_from(n, Palindrome::ge(98734));
    assert_eq!(n, pal_iter.len());

    // Fourth test.
    let n = 32903;
    let pal_iter = PalindromeIter::first_n_from(n, Palindrome::le(2222));
    assert_eq!(n, pal_iter.len());
}

#[test]
fn test_palindromeiter_len() {
    // 10.
    let pal_iter = PalindromeIter::from_u64(0, 10);
    assert_eq!(pal_iter.len(), pal_iter.count());
    let pal_iter = PalindromeIter::from_u64(2, 10);
    assert_eq!(pal_iter.len(), pal_iter.count());
    let pal_iter = PalindromeIter::from_u64(3, 11);
    assert_eq!(pal_iter.len(), pal_iter.count());
    // 100.
    let pal_iter = PalindromeIter::from_u64(0, 100);
    assert_eq!(pal_iter.len(), pal_iter.count());
    let pal_iter = PalindromeIter::from_u64(45, 100);
    assert_eq!(pal_iter.len(), pal_iter.count());
    let pal_iter = PalindromeIter::from_u64(55, 100);
    assert_eq!(pal_iter.len(), pal_iter.count());
    let pal_iter = PalindromeIter::from_u64(53, 101);
    assert_eq!(pal_iter.len(), pal_iter.count());
    // 1000.
    let pal_iter = PalindromeIter::from_u64(0, 1000);
    assert_eq!(pal_iter.len(), pal_iter.count());
    let pal_iter = PalindromeIter::from_u64(34, 1000);
    assert_eq!(pal_iter.len(), pal_iter.count());
    let pal_iter = PalindromeIter::from_u64(745, 1000);
    assert_eq!(pal_iter.len(), pal_iter.count());
    // 10_000.
    let pal_iter = PalindromeIter::from_u64(0, 10_000);
    assert_eq!(pal_iter.len(), pal_iter.count());
    let pal_iter = PalindromeIter::from_u64(569, 10_000);
    assert_eq!(pal_iter.len(), pal_iter.count());
    let pal_iter = PalindromeIter::from_u64(28, 10_000);
    assert_eq!(pal_iter.len(), pal_iter.count());
    // Edge case.
    let pal_iter = PalindromeIter::from_u64(0, 668);
    assert_eq!(pal_iter.len(), pal_iter.count());
}
