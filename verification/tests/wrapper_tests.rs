use const_primes::Primes;
use std::collections::HashSet;

const TEN_PRIMES: [u32; 10] = [2, 3, 5, 7, 11, 13, 17, 19, 23, 29];

#[test]
fn wrapper_partial_eq_impl() {
    let p1 = Primes::new(3);
    assert_eq!(p1.as_slice(), [2, 3, 5]);
    assert_eq!(p1, p1.clone());
    let v = vec![2, 3, 5];
    assert_eq!(p1.as_slice(), v.as_slice());
}

#[test]
fn clone_impl() {
    let p1 = Primes::new(10);
    let p2 = p1.clone();
    assert_eq!(p1, p2);
}

#[test]
fn hash_impl() {
    let p = Primes::new(10);
    let mut set = HashSet::<Primes>::new();
    set.insert(p.clone());
    let p2: Vec<Primes> = set.drain().collect();
    assert_eq!(p, p2[0]);
}

#[test]
fn wrapper_verify_impl_from_primes_traits() {
    let p = Primes::new(10);
    let arr: Vec<u32> = p.clone().into_array();
    assert_eq!(&arr, p.as_array());
    assert_eq!(arr.as_slice(), p.as_slice());
}

#[test]
fn wrapper_check_into_iter() {
    let mut it = Primes::new(10).into_iter();
    let mut i = 0;
    while let Some(prime) = it.next() {
        assert_eq!(prime, TEN_PRIMES[i]);
        i += 1;
    }
    assert_eq!(i, 10);
}

#[test]
fn check_largest_prime_leq() {
    let cache = Primes::new(100);
    assert_eq!(cache.largest_prime_leq(0), None);
    assert_eq!(cache.largest_prime_leq(400), Some(397));
    assert_eq!(cache.largest_prime_leq(541), Some(541));
    assert_eq!(cache.largest_prime_leq(542), None);
}

#[test]
fn check_smallest_prime_geq() {
    let cache = Primes::new(100);
    assert_eq!(cache.smallest_prime_geq(0), Some(2));
    assert_eq!(cache.smallest_prime_geq(400), Some(401));
    assert_eq!(cache.smallest_prime_geq(541), Some(541));
    assert_eq!(cache.smallest_prime_geq(542), None);

    const N: usize = 32;
    const NEXT_PRIME: [u32; N] = [
        2, 2, 2, 3, 5, 5, 7, 7, 11, 11, 11, 11, 13, 13, 17, 17, 17, 17, 19, 19, 23, 23, 23, 23,
        29, 29, 29, 29, 29, 29, 31, 31,
    ];
    let p = Primes::new(N);
    for n in 0..N {
        assert_eq!(p.smallest_prime_geq(n as u32), Some(NEXT_PRIME[n]));
    }
}

#[test]
fn wrapper_verify_into_array() {
    let p = Primes::new(10);
    assert_eq!(p.into_array(), TEN_PRIMES);
}

#[test]
fn verity_as_slice() {
    let p = Primes::new(10);
    assert_eq!(p.as_slice(), &TEN_PRIMES);
}

#[test]
fn wrapper_verify_as_array() {
    let p = Primes::new(10);
    assert_eq!(p.as_array().as_slice(), &TEN_PRIMES);
}

#[test]
fn wrapper_check_get() {
    let p = Primes::new(10);
    for (n, wanted) in TEN_PRIMES.iter().enumerate() {
        assert_eq!(p.get(n), Some(wanted));
    }
    for n in 11..20 {
        assert!(p.get(n).is_none());
    }
}

#[test]
fn wrapper_check_last_and_len() {
    for n in 1..=9usize {
        let p = Primes::new(n);
        assert_eq!(*p.last(), TEN_PRIMES[n - 1]);
        assert_eq!(p.len(), n);
        assert_eq!(*p.last(), p.as_slice()[n - 1]);
    }
}

#[test]
fn wrapper_check_count_primes_leq() {
    let cache = Primes::new(100);
    assert_eq!(cache.count_primes_leq(500), Some(95));
    assert!(cache.count_primes_leq(1_000).is_none());
}

#[test]
fn wrapper_check_iter() {
    let p = Primes::new(10);
    let mut it = p.iter();
    for p2 in TEN_PRIMES.iter() {
        assert_eq!(it.next(), Some(*p2));
    }
    assert_eq!(it.next(), None);
}

#[test]
fn cache_partial_eq_impl() {
    let p1 = Primes::new(3);
    assert_eq!(p1.as_slice(), [2, 3, 5]);
    assert_eq!(p1, p1.clone());
}

#[test]
fn cache_verify_impl_from_primes_traits() {
    let p = Primes::new(10);
    let arr: Vec<u32> = p.clone().into_array();
    assert_eq!(&arr, p.as_array());
}

#[test]
fn cache_check_into_iter() {
    let mut it = Primes::new(10).into_iter();
    let mut i = 0;
    while let Some(prime) = it.next() {
        assert_eq!(prime, TEN_PRIMES[i]);
        i += 1;
    }
    assert_eq!(i, 10);
}

#[test]
fn cache_test_into_iter() {
    let primes = Primes::new(10);
    let mut it = primes.into_iter();
    for ans in TEN_PRIMES {
        assert_eq!(it.next(), Some(ans));
    }
}

#[test]
fn cache_check_previous_prime() {
    let cache = Primes::new(100);
    const PREVS: [u32; 18] = [2, 3, 3, 5, 5, 7, 7, 7, 7, 11, 11, 13, 13, 13, 13, 17, 17, 19];
    for (i, prev) in PREVS.into_iter().enumerate() {
        assert_eq!(Some(prev), cache.previous_prime(i as u32 + 3));
    }
    assert_eq!(cache.previous_prime(0), None);
    assert_eq!(cache.previous_prime(400), Some(397));
    assert_eq!(cache.previous_prime(541), Some(523));
    assert_eq!(cache.previous_prime(542), None);
}

#[test]
fn cache_check_next_prime() {
    let cache = Primes::new(100);
    assert_eq!(cache.next_prime(0), Some(2));
    assert_eq!(cache.next_prime(400), Some(401));
    assert_eq!(cache.next_prime(540), Some(541));
    assert_eq!(cache.next_prime(541), None);
}

#[test]
fn cache_verify_into_array() {
    let p = Primes::new(10);
    assert_eq!(p.into_array(), TEN_PRIMES);
}

#[test]
fn cache_verify_as_slice() {
    let p = Primes::new(10);
    assert_eq!(p.as_slice(), &TEN_PRIMES);
}

#[test]
fn cache_verify_as_array() {
    let p = Primes::new(10);
    assert_eq!(p.as_array().as_slice(), &TEN_PRIMES);
}

#[test]
fn cache_check_get() {
    let p = Primes::new(10);
    for (n, wanted) in TEN_PRIMES.iter().enumerate() {
        assert_eq!(p.get(n), Some(wanted));
    }
    for n in 11..20 {
        assert!(p.get(n).is_none());
    }
}

#[test]
fn cache_check_last_and_len() {
    for n in 1..=9usize {
        let p = Primes::new(n);
        assert_eq!(*p.last(), TEN_PRIMES[n - 1]);
        assert_eq!(p.len(), n);
        assert_eq!(*p.last(), p.as_slice()[n - 1]);
    }
}

#[test]
fn cache_check_count_primes_leq() {
    const N: usize = 79;
    const PRIME_COUNTS: [usize; N] = [
        0, 0, 1, 2, 2, 3, 3, 4, 4, 4, 4, 5, 5, 6, 6, 6, 6, 7, 7, 8, 8, 8, 8, 9, 9, 9, 9, 9, 9,
        10, 10, 11, 11, 11, 11, 11, 11, 12, 12, 12, 12, 13, 13, 14, 14, 14, 14, 15, 15, 15, 15,
        15, 15, 16, 16, 16, 16, 16, 16, 17, 17, 18, 18, 18, 18, 18, 18, 19, 19, 19, 19, 20, 20,
        21, 21, 21, 21, 21, 21,
    ];
    let p = Primes::new(N);
    for (n, count) in PRIME_COUNTS.iter().enumerate().take(N) {
        assert_eq!(p.count_primes_leq(n as u32), Some(*count));
    }
    for n in *p.last() + 1..*p.last() * 2 {
        assert!(p.count_primes_leq(n).is_none());
    }
}

#[test]
fn cache_check_iter() {
    let p = Primes::new(10);
    let mut it = p.iter();
    for p2 in TEN_PRIMES.iter() {
        assert_eq!(it.next(), Some(*p2));
    }
    assert_eq!(it.next(), None);
}
