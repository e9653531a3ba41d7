//! Strict-neighbour prime searches.

use vstd::prelude::*;
use crate::check::miller_rabin_decides;
use crate::search::{largest_u64_prime, next_prime, previous_prime};

verus! {

/// Returns the largest number smaller than `n` that the deterministic test
/// accepts, if there is one.
pub fn largest_prime_lt(n: u64) -> (r: Option<u64>)
    ensures
        match r {
            Some(p) => {
                &&& p < n
                &&& miller_rabin_decides(p as nat)
                &&& forall|v: nat| p < v < n ==> !miller_rabin_decides(v)
            },
            None => n <= 2,
        },
{
    previous_prime(n)
}

/// Returns the smallest number greater than `n` that the deterministic test
/// accepts, if there is one that can be represented by a `u64`.
pub fn smallest_prime_gt(n: u64) -> (r: Option<u64>)
    ensures
        match r {
            Some(p) => {
                &&& p > n
                &&& miller_rabin_decides(p as nat)
                &&& forall|v: nat| n < v < p ==> !miller_rabin_decides(v)
            },
            None => n >= largest_u64_prime() || forall|v: nat|
                n < v <= u64::MAX ==> !miller_rabin_decides(v),
        },
{
    next_prime(n)
}

} // verus!
