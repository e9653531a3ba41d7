use const_primes::{extras, is_prime, trial};

const FIRST_HUNDRED: [bool; 100] = [false, false, true, true, false, true, false, true, false, false, false, true, false, true, false, false, false, true, false, true, false, false, false, true, false, false, false, false, false, true, false, true, false, false, false, false, false, true, false, false, false, true, false, true, false, false, false, true, false, false, false, false, false, true, false, false, false, false, false, true, false, true, false, false, false, false, false, true, false, false, false, true, false, true, false, false, false, false, false, true, false, false, false, true, false, false, false, false, false, true, false, false, false, false, false, false, false, true, false, false];

#[test]
fn check_check_is_prime() {
    for (x, ans) in FIRST_HUNDRED.into_iter().enumerate() {
        assert_eq!(is_prime(x as u64), ans);
    }
    assert!(is_prime(65_521));
    assert!(is_prime(4_294_967_291));
    assert!(is_prime(18_446_744_073_709_551_557));
    assert!(is_prime(3_474_749_660_401));
    assert!(is_prime(2_039));
    assert!(is_prime(1_373_639));
    assert!(is_prime(9_080_189));
    assert!(is_prime(25_325_981));
    assert!(is_prime(4_759_123_129));
    assert!(is_prime(1_112_004_669_631));
    assert!(is_prime(2_152_302_898_729));
    assert!(is_prime(3_474_749_660_329));
    assert!(is_prime(341_550_071_728_289));
    assert!(is_prime(3_825_123_056_546_412_979));
}

#[test]
fn miller_rabin_check_is_prime() {
    for (x, ans) in FIRST_HUNDRED.into_iter().enumerate() {
        assert_eq!(is_prime(x as u64), ans);
    }
    assert!(is_prime(65521));
    assert!(is_prime(4294967291));
    assert!(is_prime(18446744073709551557));
}

#[test]
fn trial_check_is_prime() {
    for (x, ans) in FIRST_HUNDRED.into_iter().enumerate() {
        assert_eq!(trial::is_prime(x as u32), ans);
    }
}

#[test]
fn extras_check_is_prime() {
    for (x, ans) in FIRST_HUNDRED.into_iter().enumerate() {
        assert_eq!(extras::is_prime(x), ans);
    }
}

#[test]
fn check_primalities() {
    let primality = extras::primalities(10);
    assert_eq!(
        primality,
        [false, false, true, true, false, true, false, true, false, false]
    );
}
