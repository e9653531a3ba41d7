use const_primes::{is_prime, isqrt, primes, primes_geq, primes_lt, GenerationError};

#[test]
fn generate_sanity_check_primes_geq() {
    assert_eq!(primes_geq(5, 5, 10), Ok(vec![11, 13, 17, 19, 23]));
    assert_eq!(primes_geq(5, 5, 0), Ok(vec![2, 3, 5, 7, 11]));
    assert_eq!(primes_geq(1, 1, 0), Ok(vec![2]));
    for &prime in primes_geq(2_000, 2_008, 3_998_000).unwrap().as_slice() {
        assert!(is_prime(prime));
    }
    assert_eq!(primes_geq(0, 0, 10), Ok(Vec::new()));
    assert_eq!(primes_geq(3, 3, 2), Ok(vec![2, 3, 5]));
    assert_eq!(
        primes_geq(3, 3, 10),
        Err(GenerationError::TooSmallSieveSize)
    );
    assert_eq!(primes_geq(2, 2, 3), Err(GenerationError::SieveOverrun(4)));
}

#[test]
fn generation_sanity_check_primes_geq() {
    assert_eq!(primes_geq(5, 5, 10), Ok(vec![11, 13, 17, 19, 23]));
    assert_eq!(primes_geq(5, 5, 0), Ok(vec![2, 3, 5, 7, 11]));
    assert_eq!(primes_geq(1, 1, 0), Ok(vec![2]));
    for &prime in primes_geq(2_000, 2_008, 3_998_000).unwrap().as_slice() {
        assert!(is_prime(prime));
    }
}

#[test]
fn sanity_check_primes_lt() {
    assert_eq!(primes_lt(5, 5, 20), Ok(vec![7, 11, 13, 17, 19]));
    assert_eq!(primes_lt(5, 5, 12), Ok(vec![2, 3, 5, 7, 11]));
    assert_eq!(primes_lt(1, 2, 3), Ok(vec![2]));
    assert_eq!(primes_lt(2, 2, 2), Err(GenerationError::TooSmallLimit));
    assert_eq!(primes_lt(2, 2, 5), Err(GenerationError::TooSmallSieveSize));
    assert_eq!(primes_lt(0, 2, 3), Ok(Vec::new()));
    assert_eq!(primes_lt(3, 5, 4), Err(GenerationError::OutOfPrimes));
}

#[test]
fn generate_check_primes_segment() {
    // The sieve sizes are what the size-computing convenience would pick:
    // isqrt(limit) + 1 for `primes_lt` and isqrt(limit) + 1 + n for
    // `primes_geq`.
    let n: usize = 10;
    let lim: u64 = 1_000;
    let geq_mem: usize = isqrt(lim) as usize + 1 + n;
    let lt_mem: usize = isqrt(lim) as usize + 1;

    assert_eq!(
        primes_geq(n, geq_mem, lim),
        Ok(vec![1009, 1013, 1019, 1021, 1031, 1033, 1039, 1049, 1051, 1061])
    );
    assert_eq!(
        primes_lt(n, lt_mem, lim),
        Ok(vec![937, 941, 947, 953, 967, 971, 977, 983, 991, 997])
    );
}

#[test]
fn generation_check_primes_segment() {
    let n: usize = 10;
    let lim: u64 = 1_000;
    assert_eq!(
        primes_geq(n, isqrt(lim) as usize + 1 + n, lim),
        Ok(vec![1009, 1013, 1019, 1021, 1031, 1033, 1039, 1049, 1051, 1061])
    );
    assert_eq!(
        primes_lt(n, isqrt(lim) as usize + 1, lim),
        Ok(vec![937, 941, 947, 953, 967, 971, 977, 983, 991, 997])
    );
}

#[test]
fn check_primes_scenarios() {
    assert_eq!(primes(10), [2, 3, 5, 7, 11, 13, 17, 19, 23, 29]);
    assert_eq!(primes_lt(4, 10, 100), Ok(vec![79, 83, 89, 97]));
    assert_eq!(primes_geq(5, 8, 40), Ok(vec![41, 43, 47, 53, 59]));
}

#[test]
fn check_primes_lt_boundary() {
    // `upper_limit` may be exactly `mem`²; one past it is rejected.
    assert_eq!(primes_lt(1, 4, 16), Ok(vec![13]));
    assert_eq!(primes_lt(1, 4, 17), Err(GenerationError::TooSmallSieveSize));
    // For `primes_geq` the lower limit must lie strictly below `mem`².
    assert_eq!(primes_geq(1, 4, 13), Ok(vec![13]));
    assert_eq!(
        primes_geq(1, 4, 16),
        Err(GenerationError::TooSmallSieveSize)
    );
}
