use const_primes::{sieve, sieve_geq, sieve_lt, SieveError};
use const_primes::sieve::{sieve_segment, SegmentedSieveError};

#[test]
fn sieve_test_consistency_of_sieve_segment() {
    let p = sieve_segment(&sieve(10), 10).unwrap();
    let pp = sieve_segment(&sieve(10), 11).unwrap();
    assert_eq!(p, sieve(10));
    assert_eq!(pp.as_slice(), &sieve(11)[1..]);
    assert_eq!(
        sieve_segment(&vec![false, false, true, true, false], 4),
        Err(SegmentedSieveError)
    );
    assert_eq!(sieve_segment(&sieve(5), 5), Ok(sieve(5)));
}

#[test]
fn sieving_test_consistency_of_sieve_segment() {
    let p = sieve_segment(&sieve(10), 10).unwrap();
    let pp = sieve_segment(&sieve(10), 11).unwrap();
    assert_eq!(p, sieve(10));
    assert_eq!(pp.as_slice(), &sieve(11)[1..]);
}

#[test]
fn test_sieve_lt() {
    assert_eq!(sieve_lt(5, 5, 30), Err(SieveError::TooSmallSieveSize));
    assert_eq!(sieve_lt(5, 5, 4), Err(SieveError::TooSmallLimit));
    assert_eq!(sieve_lt(5, 5, 5), Ok(sieve(5)));
    assert_eq!(sieve_lt(2, 5, 20), Ok(vec![false, true]));
}

#[test]
fn test_sieve() {
    assert_eq!(sieve(0), Vec::<bool>::new());
}

#[test]
fn test_sieve_geq() {
    assert_eq!(sieve_geq(5, 5, u64::MAX), Err(SieveError::TotalDoesntFitU64));
    assert_eq!(sieve_geq(5, 5, 30), Err(SieveError::TooSmallSieveSize));
    assert_eq!(sieve_geq(0, 1, 0), Ok(Vec::new()));
}

#[test]
fn check_sieve_scenario() {
    assert_eq!(
        sieve(10),
        [false, false, true, true, false, true, false, true, false, false]
    );
    let statuses = sieve_lt(5, 6, 30).unwrap();
    //                       25     26     27     28     29
    assert_eq!(statuses, [false, false, false, false, true]);
    let geq = sieve_geq(3, 4, 9).unwrap();
    //                 9      10     11
    assert_eq!(geq, [false, false, true]);
}

#[test]
fn check_prime_pi() {
    let counts = const_primes::prime_pi(10);
    assert_eq!(counts, [0, 0, 1, 2, 2, 3, 3, 4, 4, 4]);
}
