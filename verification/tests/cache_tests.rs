use const_primes::{next_prime, PartialTotient, Primes};

const TEN_PRIMES: [u32; 10] = [2, 3, 5, 7, 11, 13, 17, 19, 23, 29];

#[test]
fn mod_partial_eq_impl() {
    let p1 = Primes::new(3);
    assert_eq!(p1.as_slice(), [2, 3, 5]);
    assert_eq!(p1, p1.clone());
    assert_eq!(p1.as_slice(), vec![2, 3, 5].as_slice());
}

#[test]
fn mod_verify_impl_from_primes_traits() {
    let p = Primes::new(10);
    let arr: Vec<u32> = p.clone().into_array();
    assert_eq!(&arr, p.as_array());
    assert_eq!(arr.as_slice(), p.as_slice());
}

#[test]
fn mod_check_into_iter() {
    let mut it = Primes::new(10).into_iter();
    let mut i = 0;
    while let Some(prime) = it.next() {
        assert_eq!(prime, TEN_PRIMES[i]);
        i += 1;
    }
    assert_eq!(i, 10);
}

#[test]
fn mod_check_binary_search() {
    let cache = Primes::new(100);
    assert_eq!(cache.binary_search(2), Ok(0));
    assert_eq!(cache.binary_search(0), Err(0));
    assert_eq!(cache.binary_search(4), Err(2));
    assert_eq!(cache.binary_search(541), Ok(99));
    assert_eq!(cache.binary_search(542), Err(100));
    assert_eq!(cache.binary_search(1000000), Err(100));
}

#[test]
fn mod_test_into_iter() {
    let primes = Primes::new(10);
    let mut it = primes.into_iter();
    for ans in TEN_PRIMES {
        assert_eq!(it.next(), Some(ans));
    }
    assert_eq!(it.next(), None);
}

#[test]
fn mod_check_previous_prime() {
    let cache = Primes::new(100);
    const PREVS: [u32; 18] = [2, 3, 3, 5, 5, 7, 7, 7, 7, 11, 11, 13, 13, 13, 13, 17, 17, 19];
    for (i, prev) in PREVS.into_iter().enumerate() {
        assert_eq!(Some(prev), cache.previous_prime(i as u32 + 3));
    }
    assert_eq!(cache.previous_prime(0), None);
    assert_eq!(cache.previous_prime(400), Some(397));
    assert_eq!(cache.previous_prime(541), Some(523));
    assert_eq!(cache.previous_prime(542), None);
}

#[test]
fn check_prime_factorization() {
    // Contains the primes [2, 3, 5].
    let cache = Primes::new(3);

    let mut factorization_of_14 = cache.prime_factorization(14);
    assert_eq!(factorization_of_14.next(), Some((2, 1)));
    assert_eq!(factorization_of_14.next(), None);
    assert_eq!(factorization_of_14.remainder(), Some(7));

    let mut factorization_of_15 = cache.prime_factorization(15);
    assert_eq!(factorization_of_15.next(), Some((3, 1)));
    assert_eq!(factorization_of_15.next(), Some((5, 1)));
    assert!(factorization_of_15.remainder().is_none());

    let mut factorization_of_270 = cache.prime_factorization(2 * 3 * 3 * 3 * 5);
    assert_eq!(factorization_of_270.next(), Some((2, 1)));
    assert_eq!(factorization_of_270.next(), Some((3, 3)));
    assert_eq!(factorization_of_270.next(), Some((5, 1)));
}

#[test]
fn check_prime_factors() {
    // Contains the primes [2, 3, 5].
    let cache = Primes::new(3);

    let mut factors_of_14 = cache.prime_factors(14);
    assert_eq!(factors_of_14.next(), Some(2));
    assert_eq!(factors_of_14.next(), None);
    assert_eq!(factors_of_14.remainder(), Some(7));

    let mut factors_of_15 = cache.prime_factors(15);
    assert_eq!(factors_of_15.next(), Some(3));
    assert_eq!(factors_of_15.next(), Some(5));
    assert!(factors_of_15.remainder().is_none());

    let mut factors_of_270 = cache.prime_factors(2 * 3 * 3 * 3 * 5);
    assert_eq!(factors_of_270.next(), Some(2));
    assert_eq!(factors_of_270.next(), Some(3));
    assert_eq!(factors_of_270.next(), Some(5));
}

#[test]
fn mod_check_next_prime() {
    let cache = Primes::new(100);
    assert_eq!(cache.next_prime(0), Some(2));
    assert_eq!(cache.next_prime(400), Some(401));
    assert_eq!(cache.next_prime(540), Some(541));
    assert_eq!(cache.next_prime(541), None);

    const N: usize = 31;
    const NEXT_PRIME: [u32; N] = [
        2, 2, 3, 5, 5, 7, 7, 11, 11, 11, 11, 13, 13, 17, 17, 17, 17, 19, 19, 23, 23, 23, 23,
        29, 29, 29, 29, 29, 29, 31, 31,
    ];
    let p = Primes::new(N);
    for (n, next) in NEXT_PRIME.iter().enumerate().take(N) {
        assert_eq!(p.next_prime(n as u32), Some(*next));
    }
}

#[test]
fn mod_verify_into_array() {
    let p = Primes::new(10);
    assert_eq!(p.into_array(), TEN_PRIMES);
}

#[test]
fn mod_verify_as_slice() {
    let p = Primes::new(10);
    assert_eq!(p.as_slice(), &TEN_PRIMES);
}

#[test]
fn mod_verify_as_array() {
    let p = Primes::new(10);
    assert_eq!(p.as_array().as_slice(), &TEN_PRIMES);
}

#[test]
fn mod_check_get() {
    let p = Primes::new(10);
    for (n, wanted) in TEN_PRIMES.iter().enumerate().take(10) {
        assert_eq!(p.get(n), Some(wanted));
    }
    for n in 11..20 {
        assert!(p.get(n).is_none());
    }
}

#[test]
fn mod_check_last_and_len() {
    for n in 1..=9usize {
        let p = Primes::new(n);
        assert_eq!(*p.last(), TEN_PRIMES[n - 1]);
        assert_eq!(p.len(), n);
        assert_eq!(*p.last(), p.as_slice()[n - 1]);
    }
}

#[test]
fn mod_check_count_primes_leq() {
    const N: usize = 79;
    const PRIME_COUNTS: [usize; N] = [
        0, 0, 1, 2, 2, 3, 3, 4, 4, 4, 4, 5, 5, 6, 6, 6, 6, 7, 7, 8, 8, 8, 8, 9, 9, 9, 9, 9, 9,
        10, 10, 11, 11, 11, 11, 11, 11, 12, 12, 12, 12, 13, 13, 14, 14, 14, 14, 15, 15, 15, 15,
        15, 15, 16, 16, 16, 16, 16, 16, 17, 17, 18, 18, 18, 18, 18, 18, 19, 19, 19, 19, 20, 20,
        21, 21, 21, 21, 21, 21,
    ];
    let p = Primes::new(N);
    for (n, count) in PRIME_COUNTS.iter().enumerate().take(N) {
        assert_eq!(p.count_primes_leq(n as u32), Some(*count));
    }
    for n in *p.last() + 1..*p.last() * 2 {
        assert!(p.count_primes_leq(n).is_none());
    }
}

#[test]
fn mod_check_iter() {
    let p = Primes::new(10);
    let mut it = p.iter();
    for p2 in TEN_PRIMES.iter() {
        assert_eq!(it.next(), Some(*p2));
    }
    assert_eq!(it.next(), None);
}

#[test]
fn check_totient() {
    const TOTIENTS: [u32; 101] = [
        0, 1, 1, 2, 2, 4, 2, 6, 4, 6, 4, 10, 4, 12, 6, 8, 8, 16, 6, 18, 8, 12, 10, 22, 8, 20,
        12, 18, 12, 28, 8, 30, 16, 20, 16, 24, 12, 36, 18, 24, 16, 40, 12, 42, 20, 24, 22, 46,
        16, 42, 20, 32, 24, 52, 18, 40, 24, 36, 28, 58, 16, 60, 30, 36, 32, 48, 20, 66, 32, 44,
        24, 70, 24, 72, 36, 40, 36, 60, 24, 78, 32, 54, 40, 82, 24, 64, 42, 56, 40, 88, 24, 72,
        44, 60, 46, 72, 32, 96, 42, 60, 40,
    ];

    let small_cache = Primes::new(3);
    let big_cache = Primes::new(100);
    let next_outside: u32 = next_prime(*big_cache.last() as u64).unwrap() as u32;

    assert_eq!(small_cache.totient(6), Ok(2));
    assert_eq!(
        small_cache.totient(2 * 5 * 5 * 7 * 7),
        Err(PartialTotient {
            totient_using_known_primes: 20,
            product_of_unknown_prime_factors: 49
        })
    );

    for (i, totient) in TOTIENTS.into_iter().enumerate() {
        assert_eq!(big_cache.totient(i as u32), Ok(totient));
        if i != 0 {
            assert_eq!(
                big_cache.totient((i as u32) * next_outside),
                Err(PartialTotient {
                    totient_using_known_primes: totient,
                    product_of_unknown_prime_factors: next_outside
                })
            );
        }
    }
}
