use const_primes::{
    is_prime, next_prime, previous_prime, primes, sieve, ArraySection, ExtendingPrimes,
    PrimeFactorization, Primes, RestrictedArray,
};
use const_primes::largest_prime_lt;
use const_primes::smallest_prime_gt;
use const_primes::SegmentedGenerationResult;

/// The single-number test agrees with a reference sieve on the first
/// 10 000 integers.
#[test]
fn check_is_prime_against_sieve() {
    let flags = sieve(10_000);
    for (n, flag) in flags.iter().enumerate() {
        assert_eq!(is_prime(n as u64), *flag, "mismatch at {n}");
        assert_eq!(const_primes::trial::is_prime(n as u32), *flag);
    }
}

#[test]
fn check_cache_scenarios() {
    let cache = Primes::new(100);
    assert_eq!(cache.is_prime(541), Some(true));
    assert_eq!(cache.is_prime(42), Some(false));
    assert_eq!(cache.is_prime(1000), None);
    assert_eq!(cache.count_primes_leq(200), Some(46));
    assert_eq!(cache.count_primes_leq(11), Some(5));
    assert_eq!(cache.count_primes_leq(1_000), None);
}

#[test]
fn check_largest_u64_prime() {
    assert!(is_prime(18_446_744_073_709_551_557));
}

#[test]
fn check_new_is_idempotent() {
    let a = Primes::new(50);
    let b = Primes::new(50);
    assert_eq!(a, b);
    assert_eq!(a.binary_search(101), b.binary_search(101));
    assert_eq!(a.binary_search(100), b.binary_search(100));
}

#[test]
fn check_neighbour_searches() {
    assert_eq!(previous_prime(400), Some(397));
    assert_eq!(previous_prime(2), None);
    assert_eq!(next_prime(400), Some(401));
    assert_eq!(next_prime(0), Some(2));
    assert_eq!(next_prime(18_446_744_073_709_551_557), None);
    assert_eq!(largest_prime_lt(3), Some(2));
    assert_eq!(smallest_prime_gt(400), Some(401));
    assert_eq!(smallest_prime_gt(18_446_744_073_709_551_557), None);
}

#[test]
fn check_array_section() {
    let section = ArraySection::new(vec![0, 1, 2, 0], 1, 3);
    assert_eq!(section.as_slice(), &[1, 2]);
    assert_eq!(section.len(), 2);
    assert!(!section.is_empty());
    assert!(!section.section_is_full_array());
    assert_eq!(section.get(0), Some(&1));
    assert_eq!(section.get(1), Some(&2));
    assert_eq!(section.get(2), None);
    assert_eq!(section.start(), 1);
    assert_eq!(section.end(), 3);
    assert!(section.try_as_full_array().is_none());
    let mut it = section.iter();
    assert_eq!(it.len(), 2);
    assert_eq!(it.next(), Some(1));
    assert_eq!(it.next(), Some(2));
    assert_eq!(it.next(), None);
    let full = ArraySection::new(vec![5, 6], 0, 2);
    assert!(full.section_is_full_array());
    assert_eq!(full.try_as_full_array(), Some(&vec![5, 6]));
    let mut into = full.into_iter();
    assert_eq!(into.next(), Some(5));
    assert_eq!(into.next(), Some(6));
    assert_eq!(into.next(), None);
}

#[test]
fn check_restricted_array() {
    let restricted = RestrictedArray::new(1, 3, vec![9, 7, 5, 3]);
    assert_eq!(restricted.as_slice(), &[7, 5]);
    assert_eq!(restricted.len(), 2);
    assert!(!restricted.is_fully_visible());
    assert_eq!(restricted.get(1), Some(&5));
    assert_eq!(restricted.get(2), None);
    let mut it = const_primes::RestrictedArrayIntoIter::new(restricted);
    assert_eq!(it.len(), 2);
    assert_eq!(it.next(), Some(7));
    assert_eq!(it.next(), Some(5));
    assert_eq!(it.next(), None);
}

#[test]
fn check_extending_primes() {
    let empty = ExtendingPrimes::new(0);
    assert!(empty.is_empty());
    assert_eq!(empty.len(), 0);
    assert_eq!(empty.is_prime_cached(7), None);

    let cache = ExtendingPrimes::new(25);
    assert_eq!(cache.len(), 25);
    assert!(!cache.is_empty());
    assert_eq!(cache.binary_search_cache(89), Ok(23));
    assert_eq!(cache.binary_search_cache(90), Err(24));
    assert_eq!(cache.is_prime_cached(89), Some(true));
    assert_eq!(cache.is_prime_cached(49), Some(false));
    assert_eq!(cache.is_prime_cached(1_000), None);
    assert_eq!(cache.as_slice()[0], 2);
}

#[test]
fn check_prime_factorization_standalone() {
    let mut f = PrimeFactorization::new(vec![2, 3, 5, 7], 360);
    assert_eq!(f.next(), Some((2, 3)));
    assert_eq!(f.next(), Some((3, 2)));
    assert_eq!(f.next(), Some((5, 1)));
    assert_eq!(f.next(), None);
    assert_eq!(f.remainder(), None);

    let f2 = PrimeFactorization::new(vec![2, 3], 11 * 13);
    assert_eq!(f2.remainder(), Some(143));
}

#[test]
fn check_segmented_generation_result() {
    let complete = SegmentedGenerationResult::Complete(vec![2, 3, 5]);
    assert!(complete.is_complete());
    assert!(!complete.is_partial());
    assert_eq!(complete.len(), 3);
    assert_eq!(complete.as_slice(), &[2, 3, 5]);
    assert_eq!(complete.complete(), Some(vec![2, 3, 5]));

    let partial = SegmentedGenerationResult::Partial(RestrictedArray::new(0, 2, vec![2, 3, 0]));
    assert!(partial.is_partial());
    assert_eq!(partial.len(), 2);
    assert_eq!(partial.as_slice(), &[2, 3]);
    assert!(partial.complete().is_none());
}

/// The windowed sieves agree with the base sieve wherever both are defined.
#[test]
fn check_windowed_sieves_agree_with_base() {
    let base = sieve(100);
    let lt = const_primes::sieve_lt(10, 10, 100).unwrap();
    for i in 0..10 {
        assert_eq!(lt[i], base[90 + i]);
    }
    let geq = const_primes::sieve_geq(10, 12, 50).unwrap();
    for i in 0..10 {
        assert_eq!(geq[i], base[50 + i]);
    }
}

/// Everything `primes` returns is prime, ascending, and gap-free.
#[test]
fn check_generated_primes_are_prime() {
    let ps = primes(200);
    for window in ps.windows(2) {
        assert!(window[0] < window[1]);
    }
    for &p in &ps {
        assert!(is_prime(p as u64));
    }
    let lt = const_primes::primes_lt(10, 40, 1_600).unwrap();
    for &p in &lt {
        assert!(is_prime(p));
        assert!(p < 1_600);
    }
    let geq = const_primes::primes_geq(10, 50, 1_600).unwrap();
    for &p in &geq {
        assert!(is_prime(p));
        assert!(p >= 1_600);
    }
}
