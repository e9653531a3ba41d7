//! A deterministic Miller-Rabin primality test for 64-bit integers.
//!
//! The contract of [`is_prime`] states exactly which decision procedure is
//! run: trial division by a small wheel up to the base-2 logarithm, then one
//! Miller-Rabin round per witness from a fixed table.  The witness table is
//! classically known to make the test agree with true primality for every
//! 64-bit input, but that fact rests on large-scale computation and is not
//! part of the verified contract; [`crate::trial::is_prime`] carries a full
//! primality contract instead.

use vstd::prelude::*;
use vstd::arithmetic::power::{pow, lemma_pow_adds};
use vstd::arithmetic::power2::{pow2, lemma_pow2_unfold, lemma_pow2_strictly_increases};
use vstd::arithmetic::div_mod::{
    lemma_fundamental_div_mod, lemma_mul_mod_noop_general, lemma_small_mod,
};
use vstd::arithmetic::mul::{
    lemma_mul_inequality, lemma_mul_is_commutative, lemma_mul_is_associative,
};
use crate::integer_math::{mod_mul, mod_pow};

verus! {

/// The odd factor that remains after dividing out every factor of two.
pub open spec fn odd_part(m: nat) -> nat
    decreases m,
{
    if m >= 1 && m % 2 == 0 {
        odd_part(m / 2)
    } else {
        m
    }
}

/// How many factors of two `m` contains.
pub open spec fn two_exponent(m: nat) -> nat
    decreases m,
{
    if m >= 1 && m % 2 == 0 {
        1 + two_exponent(m / 2)
    } else {
        0
    }
}

/// The floor of the base-2 logarithm.
pub open spec fn log2(n: nat) -> nat
    decreases n,
{
    if n < 2 {
        0
    } else {
        1 + log2(n / 2)
    }
}

/// `m` splits into its odd part times a power of two.
proof fn lemma_odd_part_decomposition(m: nat)
    requires
        m >= 1,
    ensures
        m == odd_part(m) * pow2(two_exponent(m)),
        odd_part(m) % 2 == 1,
        odd_part(m) >= 1,
    decreases m,
{
    if m % 2 == 0 {
        lemma_fundamental_div_mod(m as int, 2);
        lemma_odd_part_decomposition(m / 2);
        let od = odd_part(m / 2) as int;
        let p = pow2(two_exponent(m / 2)) as int;
        assert(odd_part(m) == od);
        assert(two_exponent(m) == two_exponent(m / 2) + 1);
        lemma_pow2_unfold((two_exponent(m / 2) + 1) as nat);
        assert(m == 2 * (od * p));
        assert(pow2(two_exponent(m)) == 2 * p);
        assert(od * (2 * p) == (od * 2) * p) by {
            lemma_mul_is_associative(od, 2, p);
        }
        assert((od * 2) * p == (2 * od) * p) by {
            lemma_mul_is_commutative(od, 2);
        }
        assert((2 * od) * p == 2 * (od * p)) by {
            lemma_mul_is_associative(2, od, p);
        }
        assert(odd_part(m) * pow2(two_exponent(m)) == od * (2 * p));
    } else {
        assert(pow2(0) == 1) by {
            vstd::arithmetic::power2::lemma2_to64();
        }
        assert(m * 1 == m);
    }
}

/// A Miller-Rabin round with witness `k` accepts `n`.
///
/// With `n - 1` written as `d · 2^s` for odd `d`, the round accepts iff
/// `k^d ≡ 1 (mod n)` or `k^(d·2^j) ≡ n - 1 (mod n)` for some `j ≤ s`.
pub open spec fn mr_round_accepts(n: nat, k: nat) -> bool {
    let d = odd_part((n - 1) as nat);
    let s = two_exponent((n - 1) as nat);
    ||| pow(k as int, d) % (n as int) == 1
    ||| exists|j: nat| j <= s && #[trigger] (pow(k as int, (d * pow2(j)) as nat) % (n as int))
        == n - 1
}

/// The mod-6 wheel finds no divisor of `n` up to its base-2 logarithm.
pub open spec fn wheel_passes(n: nat) -> bool {
    forall|c: nat|
        ((c % 6 == 5 && 5 <= c <= log2(n)) || (c % 6 == 1 && 7 <= c <= log2(n) + 2))
            ==> #[trigger] (n % c) != 0
}

/// The deterministic witness set used for an input of this magnitude.
pub open spec fn mr_witnesses(n: nat) -> Seq<nat> {
    if n <= 2_046 {
        seq![2nat]
    } else if n <= 1_373_652 {
        seq![2nat, 3]
    } else if n <= 9_080_190 {
        seq![31nat, 73]
    } else if n <= 25_326_000 {
        seq![2nat, 3, 5]
    } else if n <= 4_759_123_140 {
        seq![2nat, 7, 61]
    } else if n <= 1_112_004_669_632 {
        seq![2nat, 13, 23, 1_662_803]
    } else if n <= 2_152_302_898_746 {
        seq![2nat, 3, 5, 7, 11]
    } else if n <= 3_474_749_660_382 {
        seq![2nat, 3, 5, 7, 11, 13]
    } else if n <= 341_550_071_728_320 {
        seq![2nat, 3, 5, 7, 11, 13, 17]
    } else if n <= 3_825_123_056_546_413_050 {
        seq![2nat, 3, 5, 7, 11, 13, 17, 19, 23]
    } else {
        seq![2nat, 3, 5, 7, 11, 13, 17, 19, 23, 29, 31, 37]
    }
}

/// What the deterministic test decides for `n`: 2 and 3 are prime, small or
/// obviously composite numbers are not, and otherwise the wheel must find no
/// factor and every witness below `n` must accept.
pub open spec fn miller_rabin_decides(n: nat) -> bool {
    if n == 2 || n == 3 {
        true
    } else if n <= 1 || n % 2 == 0 || n % 3 == 0 {
        false
    } else {
        wheel_passes(n) && forall|i: int|
            0 <= i < mr_witnesses(n).len() && #[trigger] mr_witnesses(n)[i] < n
                ==> mr_round_accepts(n, mr_witnesses(n)[i])
    }
}

/// Once a power of `k` is 1 modulo `n`, all further squarings stay 1.
proof fn lemma_ones_propagate(n: nat, k: nat, d: nat, j0: nat, j1: nat)
    requires
        n >= 2,
        j0 <= j1,
        pow(k as int, (d * pow2(j0)) as nat) % (n as int) == 1,
    ensures
        pow(k as int, (d * pow2(j1)) as nat) % (n as int) == 1,
    decreases j1 - j0,
{
    if j1 > j0 {
        lemma_square_of_pow_mod(n, k, (d * pow2(j0)) as nat);
        lemma_pow2_unfold((j0 + 1) as nat);
        assert(d * pow2(j0 + 1) == (d * pow2(j0)) * 2) by {
            lemma_mul_is_associative(d as int, 2, pow2(j0) as int);
            lemma_mul_is_commutative(2, pow2(j0) as int);
            lemma_mul_is_associative(d as int, pow2(j0) as int, 2);
        }
        assert(pow(k as int, (d * pow2(j0 + 1)) as nat) % (n as int) == (1int * 1int) % (
        n as int));
        lemma_small_mod(1, n);
        lemma_ones_propagate(n, k, d, (j0 + 1) as nat, j1);
    }
}

/// Squaring a power of `k` modulo `n` doubles the exponent.
proof fn lemma_square_of_pow_mod(n: nat, k: nat, e: nat)
    requires
        n >= 1,
    ensures
        ((pow(k as int, e) % (n as int)) * (pow(k as int, e) % (n as int))) % (n as int) == pow(
            k as int,
            (e * 2) as nat,
        ) % (n as int),
{
    lemma_pow_adds(k as int, e, e);
    lemma_mul_mod_noop_general(pow(k as int, e), pow(k as int, e), n as int);
    assert(e + e == e * 2);
}

/// Performs a Miller-Rabin round with the witness `k`.
///
/// `d` must be the odd part of `n - 1`.
fn miller_test(d: u64, n: u64, k: u64) -> (r: bool)
    requires
        n >= 5,
        n % 2 == 1,
        d == odd_part((n - 1) as nat),
    ensures
        r == mr_round_accepts(n as nat, k as nat),
{
    let ghost s = two_exponent((n - 1) as nat);
    proof {
        lemma_odd_part_decomposition((n - 1) as nat);
        assert(d >= 1);
    }
    let mut dd: u64 = d;
    let ghost mut j: nat = 0;
    let mut x: u64 = mod_pow(k, d, n);
    proof {
        assert(pow2(0) == 1) by {
            vstd::arithmetic::power2::lemma2_to64();
        }
        assert(d * pow2(0) == d);
        assert((n - 1) as int % (d as int) == 0) by {
            lemma_mul_is_commutative(d as int, pow2(s) as int);
            vstd::arithmetic::div_mod::lemma_mod_multiples_basic(pow2(s) as int, d as int);
        }
    }
    if x == 1 || x == n - 1 {
        proof {
            if x == n - 1 {
                assert((d as nat) * pow2(0) == d as nat);
                assert(0 <= s && pow(k as int, ((d as nat) * pow2(0)) as nat) % (n as int) == n
                    - 1);
            }
        }
        return true;
    }

    while dd != n - 1
        invariant
            n >= 5,
            d == odd_part((n - 1) as nat),
            s == two_exponent((n - 1) as nat),
            (n - 1) as nat == (d as nat) * pow2(s),
            d >= 1,
            1 <= dd,
            j <= s,
            dd == (d as nat) * pow2(j),
            (n - 1) as int % (dd as int) == 0,
            x == pow(k as int, dd as nat) % (n as int),
            x != 1 || j == 0,
            pow(k as int, d as nat) % (n as int) != 1,
            forall|jj: nat|
                jj <= j ==> #[trigger] (pow(k as int, ((d as nat) * pow2(jj)) as nat) % (
                n as int)) != n - 1,
        decreases n - 1 - dd,
    {
        proof {
            // `dd` properly divides `n - 1`, so doubling it cannot overflow
            // past `n - 1`.
            assert(j < s) by {
                if j == s {
                    assert(dd == n - 1);
                }
                lemma_pow2_strictly_increases(j, s);
                lemma_mul_inequality(pow2(j) as int, pow2(s) as int, d as int);
                lemma_mul_is_commutative(pow2(j) as int, d as int);
                lemma_mul_is_commutative(pow2(s) as int, d as int);
            }
            assert(dd * 2 <= n - 1) by {
                assert(pow2(j + 1) <= pow2(s)) by {
                    if j + 1 < s {
                        lemma_pow2_strictly_increases((j + 1) as nat, s);
                    }
                }
                assert((d as nat) * pow2(j + 1) <= (d as nat) * pow2(s)) by {
                    lemma_mul_inequality(pow2(j + 1) as int, pow2(s) as int, d as int);
                    lemma_mul_is_commutative(pow2(j + 1) as int, d as int);
                    lemma_mul_is_commutative(pow2(s) as int, d as int);
                }
                assert((d as nat) * pow2(j + 1) == dd * 2) by {
                    lemma_pow2_unfold((j + 1) as nat);
                    lemma_mul_is_associative(d as int, 2, pow2(j) as int);
                    lemma_mul_is_commutative(2, pow2(j) as int);
                    lemma_mul_is_associative(d as int, pow2(j) as int, 2);
                }
            }
            lemma_square_of_pow_mod(n as nat, k as nat, dd as nat);
        }
        let ghost old_x = x as int;
        let ghost old_dd = dd as int;
        x = mod_mul(x, x, n);
        dd = dd * 2;
        proof {
            j = j + 1;
            assert(dd == (d as nat) * pow2(j)) by {
                lemma_pow2_unfold(j);
                lemma_mul_is_associative(d as int, 2, pow2((j - 1) as nat) as int);
                lemma_mul_is_commutative(2, pow2((j - 1) as nat) as int);
                lemma_mul_is_associative(d as int, pow2((j - 1) as nat) as int, 2);
            }
            assert(x == pow(k as int, dd as nat) % (n as int)) by {
                assert(old_dd * 2 == dd);
            }
            assert((n - 1) as int % (dd as int) == 0) by {
                assert((n - 1) as nat == dd * pow2((s - j) as nat)) by {
                    vstd::arithmetic::power2::lemma_pow2_adds(j, (s - j) as nat);
                    lemma_mul_is_associative(d as int, pow2(j) as int, pow2((s - j) as nat) as int);
                }
                lemma_mul_is_commutative(dd as int, pow2((s - j) as nat) as int);
                vstd::arithmetic::div_mod::lemma_mod_multiples_basic(
                    pow2((s - j) as nat) as int,
                    dd as int,
                );
            }
        }

        if x == 1 {
            proof {
                // Every later squaring stays 1, and no earlier exponent hit
                // `n - 1`, so no witness exponent accepts.
                assert forall|jj: nat|
                    jj <= s implies #[trigger] (pow(k as int, ((d as nat) * pow2(jj)) as nat) % (
                    n as int)) != n - 1 by {
                    if jj >= j {
                        lemma_ones_propagate(n as nat, k as nat, d as nat, j, jj);
                    }
                }
            }
            return false;
        } else if x == n - 1 {
            proof {
                assert(j <= s && pow(k as int, ((d as nat) * pow2(j)) as nat) % (n as int) == n
                    - 1);
            }
            return true;
        }
    }
    proof {
        assert(j == s) by {
            if j < s {
                lemma_pow2_strictly_increases(j, s);
                vstd::arithmetic::mul::lemma_mul_strict_inequality(
                    pow2(j) as int,
                    pow2(s) as int,
                    d as int,
                );
                lemma_mul_is_commutative(pow2(j) as int, d as int);
                lemma_mul_is_commutative(pow2(s) as int, d as int);
                assert(dd < n - 1);
            }
        }
    }
    false
}

/// The base-2 logarithm of a number below `2^k` is below `k`.
proof fn lemma_log2_bound(n: nat, k: nat)
    requires
        n < pow2(k),
        k >= 1,
    ensures
        log2(n) < k,
    decreases n,
{
    if n >= 2 {
        lemma_pow2_unfold(k);
        assert(k >= 2) by {
            if k == 1 {
                assert(pow2(1) == 2 * pow2(0));
                assert(pow2(0) == 1) by {
                    vstd::arithmetic::power2::lemma2_to64();
                }
            }
        }
        lemma_log2_bound(n / 2, (k - 1) as nat);
    }
}

/// Returns the floor of the base-2 logarithm of `n`.
fn ilog2_u64(n: u64) -> (r: u64)
    requires
        n >= 1,
    ensures
        r == log2(n as nat),
{
    proof {
        vstd::arithmetic::power2::lemma2_to64();
        vstd::arithmetic::power2::lemma2_to64_rest();
        lemma_log2_bound(n as nat, 64);
    }
    let mut m: u64 = n;
    let mut r: u64 = 0;
    while m >= 2
        invariant
            m >= 1,
            r + log2(m as nat) == log2(n as nat),
            log2(n as nat) < 64,
        decreases m,
    {
        m = m / 2;
        r = r + 1;
    }
    r
}

/// Returns whether the deterministic Miller-Rabin test accepts `n`.
///
/// Does trial division with a small wheel up to `log2(n)` and then runs a
/// Miller-Rabin round for every witness in a fixed table keyed by the
/// magnitude of `n`.
pub fn is_prime(n: u64) -> (r: bool)
    ensures
        r == miller_rabin_decides(n as nat),
{
    if n == 2 || n == 3 {
        true
    } else if n <= 1 || n % 2 == 0 || n % 3 == 0 {
        false
    } else {
        // Use a small wheel to check up to log2(n).
        let trial_limit: u64 = ilog2_u64(n);
        proof {
            vstd::arithmetic::power2::lemma2_to64();
            vstd::arithmetic::power2::lemma2_to64_rest();
            lemma_log2_bound(n as nat, 64);
        }
        let mut candidate_factor: u64 = 5;
        while candidate_factor <= trial_limit
            invariant
                n >= 5,
                n % 2 == 1,
                n % 3 != 0,
                trial_limit == log2(n as nat),
                trial_limit < 64,
                candidate_factor % 6 == 5,
                5 <= candidate_factor <= trial_limit + 6,
                forall|c: nat|
                    ((c % 6 == 5 && 5 <= c < candidate_factor) || (c % 6 == 1 && 7 <= c
                        < candidate_factor + 2)) ==> #[trigger] ((n as nat) % c) != 0,
            decreases trial_limit + 6 - candidate_factor,
        {
            if n % candidate_factor == 0 || n % (candidate_factor + 2) == 0 {
                proof {
                    if n % candidate_factor == 0 {
                        assert(!wheel_passes(n as nat)) by {
                            assert((n as nat) % (candidate_factor as nat) == 0);
                        }
                    } else {
                        assert(!wheel_passes(n as nat)) by {
                            assert((n as nat) % ((candidate_factor + 2) as nat) == 0);
                        }
                    }
                }
                return false;
            }
            candidate_factor += 6;
        }
        proof {
            assert(wheel_passes(n as nat)) by {
                assert forall|c: nat|
                    ((c % 6 == 5 && 5 <= c <= log2(n as nat)) || (c % 6 == 1 && 7 <= c <= log2(
                        n as nat,
                    ) + 2)) implies #[trigger] ((n as nat) % c) != 0 by {
                    assert(c < candidate_factor || c < candidate_factor + 2);
                }
            }
        }

        // Find the odd part of n - 1.
        let mut d: u64 = n - 1;
        while d % 2 == 0
            invariant
                d >= 1,
                odd_part(d as nat) == odd_part((n - 1) as nat),
            decreases d,
        {
            d = d / 2;
        }
        proof {
            assert(d == odd_part((n - 1) as nat));
        }

        let witnesses: Vec<u64> = witness_table(n);
        let mut i: usize = 0;
        while i < witnesses.len()
            invariant
                n >= 5,
                n % 2 == 1,
                d == odd_part((n - 1) as nat),
                i <= witnesses.len(),
                witnesses.len() == mr_witnesses(n as nat).len(),
                forall|k: int|
                    0 <= k < witnesses.len() ==> #[trigger] (witnesses@[k] as nat)
                        == mr_witnesses(n as nat)[k],
                forall|k: int|
                    0 <= k < i && mr_witnesses(n as nat)[k] < n ==> #[trigger] mr_round_accepts(
                        n as nat,
                        mr_witnesses(n as nat)[k],
                    ),
            decreases witnesses.len() - i,
        {
            let w: u64 = witnesses[i];
            if w < n {
                if !miller_test(d, n, w) {
                    proof {
                        assert(mr_witnesses(n as nat)[i as int] < n);
                        assert(!mr_round_accepts(n as nat, mr_witnesses(n as nat)[i as int]));
                    }
                    return false;
                }
            }
            i += 1;
        }
        true
    }
}

/// Returns the witness table row for the magnitude of `n`.
fn witness_table(n: u64) -> (r: Vec<u64>)
    ensures
        r@.len() == mr_witnesses(n as nat).len(),
        forall|k: int|
            0 <= k < r@.len() ==> #[trigger] (r@[k] as nat) == mr_witnesses(n as nat)[k],
{
    let mut w: Vec<u64> = Vec::new();
    if n <= 2_046 {
        w.push(2);
    } else if n <= 1_373_652 {
        w.push(2);
        w.push(3);
    } else if n <= 9_080_190 {
        w.push(31);
        w.push(73);
    } else if n <= 25_326_000 {
        w.push(2);
        w.push(3);
        w.push(5);
    } else if n <= 4_759_123_140 {
        w.push(2);
        w.push(7);
        w.push(61);
    } else if n <= 1_112_004_669_632 {
        w.push(2);
        w.push(13);
        w.push(23);
        w.push(1_662_803);
    } else if n <= 2_152_302_898_746 {
        w.push(2);
        w.push(3);
        w.push(5);
        w.push(7);
        w.push(11);
    } else if n <= 3_474_749_660_382 {
        w.push(2);
        w.push(3);
        w.push(5);
        w.push(7);
        w.push(11);
        w.push(13);
    } else if n <= 341_550_071_728_320 {
        w.push(2);
        w.push(3);
        w.push(5);
        w.push(7);
        w.push(11);
        w.push(13);
        w.push(17);
    } else if n <= 3_825_123_056_546_413_050 {
        w.push(2);
        w.push(3);
        w.push(5);
        w.push(7);
        w.push(11);
        w.push(13);
        w.push(17);
        w.push(19);
        w.push(23);
    } else {
        w.push(2);
        w.push(3);
        w.push(5);
        w.push(7);
        w.push(11);
        w.push(13);
        w.push(17);
        w.push(19);
        w.push(23);
        w.push(29);
        w.push(31);
        w.push(37);
    }
    w
}

} // verus!
