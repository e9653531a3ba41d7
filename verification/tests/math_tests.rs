use const_primes::extras;
use const_primes::isqrt;
use const_primes::{mod_mul, mod_pow};

#[test]
fn imath_check_isqrt() {
    const TEST_CASES: [u64; 100] = [0, 1, 1, 1, 2, 2, 2, 2, 2, 3, 3, 3, 3, 3, 3, 3, 4, 4, 4, 4, 4, 4, 4, 4, 4, 5, 5, 5, 5, 5, 5, 5, 5, 5, 5, 5, 6, 6, 6, 6, 6, 6, 6, 6, 6, 6, 6, 6, 6, 7, 7, 7, 7, 7, 7, 7, 7, 7, 7, 7, 7, 7, 7, 7, 8, 8, 8, 8, 8, 8, 8, 8, 8, 8, 8, 8, 8, 8, 8, 8, 8, 9, 9, 9, 9, 9, 9, 9, 9, 9, 9, 9, 9, 9, 9, 9, 9, 9, 9, 9];
    for (x, ans) in TEST_CASES.into_iter().enumerate() {
        assert_eq!(isqrt(x as u64), ans);
    }
    assert_eq!(
        f64::from(u32::MAX).sqrt().floor() as u64,
        isqrt(u64::from(u32::MAX))
    );
    assert_eq!(isqrt(u64::MAX - 1), 4294967295);
    assert_eq!(isqrt(u64::MAX), 4294967295);
}

#[test]
fn integer_math_check_isqrt() {
    for x in 0..1_000_000u64 {
        assert_eq!(isqrt(x), (x as f64).sqrt().floor() as u64);
    }
    assert_eq!(
        f64::from(u32::MAX).sqrt().floor() as u64,
        isqrt(u64::from(u32::MAX))
    );
    assert_eq!(isqrt(u64::MAX - 1), 4294967295);
    assert_eq!(isqrt(u64::MAX), 4294967295);
}

#[test]
fn lib_check_isqrt() {
    const TEST_CASES: [(u64, u64); 100] = [(0, 0), (1, 1), (2, 1), (3, 1), (4, 2), (5, 2), (6, 2), (7, 2), (8, 2), (9, 3), (10, 3), (11, 3), (12, 3), (13, 3), (14, 3), (15, 3), (16, 4), (17, 4), (18, 4), (19, 4), (20, 4), (21, 4), (22, 4), (23, 4), (24, 4), (25, 5), (26, 5), (27, 5), (28, 5), (29, 5), (30, 5), (31, 5), (32, 5), (33, 5), (34, 5), (35, 5), (36, 6), (37, 6), (38, 6), (39, 6), (40, 6), (41, 6), (42, 6), (43, 6), (44, 6), (45, 6), (46, 6), (47, 6), (48, 6), (49, 7), (50, 7), (51, 7), (52, 7), (53, 7), (54, 7), (55, 7), (56, 7), (57, 7), (58, 7), (59, 7), (60, 7), (61, 7), (62, 7), (63, 7), (64, 8), (65, 8), (66, 8), (67, 8), (68, 8), (69, 8), (70, 8), (71, 8), (72, 8), (73, 8), (74, 8), (75, 8), (76, 8), (77, 8), (78, 8), (79, 8), (80, 8), (81, 9), (82, 9), (83, 9), (84, 9), (85, 9), (86, 9), (87, 9), (88, 9), (89, 9), (90, 9), (91, 9), (92, 9), (93, 9), (94, 9), (95, 9), (96, 9), (97, 9), (98, 9), (99, 9)];
    for (x, ans) in TEST_CASES {
        assert_eq!(isqrt(x), ans);
    }
}

#[test]
fn extras_check_isqrt() {
    const TEST_CASES: [(u32, u32); 100] = [(0, 0), (1, 1), (2, 1), (3, 1), (4, 2), (5, 2), (6, 2), (7, 2), (8, 2), (9, 3), (10, 3), (11, 3), (12, 3), (13, 3), (14, 3), (15, 3), (16, 4), (17, 4), (18, 4), (19, 4), (20, 4), (21, 4), (22, 4), (23, 4), (24, 4), (25, 5), (26, 5), (27, 5), (28, 5), (29, 5), (30, 5), (31, 5), (32, 5), (33, 5), (34, 5), (35, 5), (36, 6), (37, 6), (38, 6), (39, 6), (40, 6), (41, 6), (42, 6), (43, 6), (44, 6), (45, 6), (46, 6), (47, 6), (48, 6), (49, 7), (50, 7), (51, 7), (52, 7), (53, 7), (54, 7), (55, 7), (56, 7), (57, 7), (58, 7), (59, 7), (60, 7), (61, 7), (62, 7), (63, 7), (64, 8), (65, 8), (66, 8), (67, 8), (68, 8), (69, 8), (70, 8), (71, 8), (72, 8), (73, 8), (74, 8), (75, 8), (76, 8), (77, 8), (78, 8), (79, 8), (80, 8), (81, 9), (82, 9), (83, 9), (84, 9), (85, 9), (86, 9), (87, 9), (88, 9), (89, 9), (90, 9), (91, 9), (92, 9), (93, 9), (94, 9), (95, 9), (96, 9), (97, 9), (98, 9), (99, 9)];
    for (x, ans) in TEST_CASES {
        assert_eq!(extras::isqrt(x), ans);
    }
}

#[test]
fn check_mod_pow_and_mod_mul() {
    assert_eq!(mod_mul(7, 8, 5), 1);
    assert_eq!(mod_mul(u64::MAX, u64::MAX, 10), 5);
    assert_eq!(mod_pow(2, 10, 1_000), 24);
    assert_eq!(mod_pow(3, 0, 7), 1);
    assert_eq!(mod_pow(5, 117, 19), 1);
    assert_eq!(mod_pow(2, 64, u64::MAX), 1);
}
