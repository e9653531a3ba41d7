//! Sieve-backed helpers for single queries.

use vstd::prelude::*;
use crate::sieve::sieve;
use crate::primality::is_prime_spec;

verus! {

/// Returns whether `n` is prime, by sieving the integers up to `n`.
pub fn is_prime(n: usize) -> (r: bool)
    requires
        n < usize::MAX,
    ensures
        r == is_prime_spec(n as nat),
{
    let flags: Vec<bool> = sieve(n + 1);
    proof {
        assert(flags@[n as int] == is_prime_spec((0 + n) as nat));
    }
    flags[n]
}

/// Returns a vector that describes whether the number at each index is
/// prime.
pub fn primalities(n: usize) -> (r: Vec<bool>)
    ensures
        r@.len() == n,
        forall|i: int| 0 <= i < n ==> #[trigger] r@[i] == is_prime_spec(i as nat),
{
    let flags: Vec<bool> = sieve(n);
    proof {
        assert forall|i: int| 0 <= i < n implies #[trigger] flags@[i] == is_prime_spec(
            i as nat,
        ) by {
            assert(flags@[i] == is_prime_spec((0 + i) as nat));
        }
    }
    flags
}

/// Returns the largest integer smaller than or equal to `√n`.
pub fn isqrt(n: u32) -> (r: u32)
    ensures
        r * r <= n,
        n < (r + 1) * (r + 1),
{
    let root: u64 = crate::integer_math::isqrt(n as u64);
    proof {
        assert(root <= 0xffff) by {
            if root >= 0x1_0000 {
                vstd::arithmetic::mul::lemma_mul_upper_bound(
                    0x1_0000,
                    root as int,
                    0x1_0000,
                    root as int,
                );
            }
        }
    }
    root as u32
}

} // verus!
