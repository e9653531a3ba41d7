//! Overflow-safe arithmetic helpers used by the rest of the crate.

use vstd::prelude::*;
use vstd::arithmetic::power::{pow, lemma_pow_adds, lemma_pow_multiplies, lemma_pow_mod_noop};
use vstd::arithmetic::div_mod::{lemma_mul_mod_noop_general, lemma_mod_bound, lemma_small_mod};

verus! {

/// Returns the largest integer smaller than or equal to `√n`.
///
/// Uses a binary search.
pub fn isqrt(n: u64) -> (r: u64)
    ensures
        r * r <= n,
        n < (r + 1) * (r + 1),
{
    let mut left: u64 = 0;
    let mut right: u64 = 0x1_0000_0000;
    while left + 1 < right
        invariant
            left < right <= 0x1_0000_0000,
            left * left <= n,
            n < right * right,
        decreases right - left,
    {
        let mid: u64 = left + (right - left) / 2;
        proof {
            vstd::arithmetic::mul::lemma_mul_upper_bound(
                mid as int,
                0xffff_ffff,
                mid as int,
                0xffff_ffff,
            );
        }
        if mid * mid <= n {
            left = mid;
        } else {
            right = mid;
        }
    }
    left
}

/// Calculates `(a * b) % modulo` without overflow, by widening to 128 bits.
pub fn mod_mul(a: u64, b: u64, modulo: u64) -> (r: u64)
    requires
        modulo >= 1,
    ensures
        r == (a * b) % (modulo as int),
        r < modulo,
{
    proof {
        lemma_mod_bound(a as int * b as int, modulo as int);
        vstd::arithmetic::mul::lemma_mul_upper_bound(
            a as int,
            0xffff_ffff_ffff_ffff,
            b as int,
            0xffff_ffff_ffff_ffff,
        );
    }
    ((a as u128 * b as u128) % modulo as u128) as u64
}

/// Calculates `(base ^ exp) % modulo` without overflow, by binary
/// exponentiation.
///
/// An exponent of zero yields 1, whatever the modulus.
pub fn mod_pow(base: u64, exp: u64, modulo: u64) -> (r: u64)
    requires
        modulo >= 1,
    ensures
        exp > 0 ==> r == pow(base as int, exp as nat) % (modulo as int),
        exp == 0 ==> r == 1,
{
    let mut res: u64 = 1;
    let mut b: u64 = base % modulo;
    let mut e: u64 = exp;
    proof {
        lemma_pow_mod_noop(base as int, exp as nat, modulo as int);
        lemma_mul_mod_noop_general(1, pow(b as int, e as nat), modulo as int);
    }
    while e > 0
        invariant
            modulo >= 1,
            b < modulo,
            e <= exp,
            exp == 0 ==> res == 1,
            e == 0 && exp > 0 ==> res < modulo,
            (res * pow(b as int, e as nat)) % (modulo as int) == pow(
                base as int,
                exp as nat,
            ) % (modulo as int),
        decreases e,
    {
        let ghost old_res = res as int;
        let ghost old_b = b as int;
        let ghost old_e = e as nat;
        if e % 2 == 1 {
            res = mod_mul(res, b, modulo);
            proof {
                // (res * b) % m combined with pow(b, e - 1) equals res * pow(b, e).
                lemma_pow_adds(old_b, 1, (old_e - 1) as nat);
                assert(pow(old_b, 1) == old_b) by {
                    vstd::arithmetic::power::lemma_pow1(old_b);
                }
                lemma_mul_mod_noop_general(
                    old_res * old_b,
                    pow(old_b, (old_e - 1) as nat),
                    modulo as int,
                );
                assert((old_res * old_b) * pow(old_b, (old_e - 1) as nat) == old_res * pow(
                    old_b,
                    old_e,
                )) by {
                    assert(old_b * pow(old_b, (old_e - 1) as nat) == pow(old_b, old_e));
                    vstd::arithmetic::mul::lemma_mul_is_associative(
                        old_res,
                        old_b,
                        pow(old_b, (old_e - 1) as nat),
                    );
                }
                assert((res * pow(old_b, (old_e - 1) as nat)) % (modulo as int) == (old_res * pow(
                    old_b,
                    old_e,
                )) % (modulo as int));
            }
        } else {
            proof {
                assert(res * pow(old_b, old_e) == old_res * pow(old_b, old_e));
            }
        }
        let ghost mid_res = res as int;
        let ghost mid_e = (if old_e % 2 == 1 { old_e - 1 } else { old_e as int }) as nat;
        proof {
            assert((mid_res * pow(old_b, mid_e)) % (modulo as int) == pow(base as int, exp as nat)
                % (modulo as int));
        }
        b = mod_mul(b, b, modulo);
        e = e / 2;
        proof {
            // pow(b*b, e/2) == pow(b, e) when e is even.
            lemma_pow_multiplies(old_b, 2, (old_e / 2) as nat);
            lemma_pow_adds(old_b, 1, 1);
            assert(pow(old_b, 1) == old_b) by {
                vstd::arithmetic::power::lemma_pow1(old_b);
            }
            assert(pow(old_b, 2) == old_b * old_b);
            assert(pow(old_b * old_b, (old_e / 2) as nat) == pow(old_b, mid_e)) by {
                assert(2 * (old_e / 2) == mid_e);
            }
            // Reducing the base mod m does not change the result mod m.
            lemma_pow_mod_noop(old_b * old_b, (old_e / 2) as nat, modulo as int);
            lemma_mul_mod_noop_general(
                mid_res,
                pow((old_b * old_b) % (modulo as int), (old_e / 2) as nat),
                modulo as int,
            );
            lemma_mul_mod_noop_general(
                mid_res,
                pow(old_b * old_b, (old_e / 2) as nat),
                modulo as int,
            );
            assert((res * pow(b as int, e as nat)) % (modulo as int) == pow(
                base as int,
                exp as nat,
            ) % (modulo as int));
        }
    }
    proof {
        if exp > 0 {
            assert(res < modulo);
            assert(pow(b as int, 0) == 1) by {
                vstd::arithmetic::power::lemma_pow0(b as int);
            }
            lemma_small_mod(res as nat, modulo as nat);
        }
    }
    res
}

} // verus!
