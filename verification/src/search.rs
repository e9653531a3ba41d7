//! Searching for the primes that neighbour a given number, as decided by
//! the deterministic Miller-Rabin test.

use vstd::prelude::*;
use crate::check::{is_prime, miller_rabin_decides};

verus! {

/// The largest prime that fits in a `u64`.
pub open spec fn largest_u64_prime() -> nat {
    18_446_744_073_709_551_557
}

/// Returns the largest number smaller than `n` that the deterministic test
/// accepts, if there is one.
pub fn previous_prime(n: u64) -> (r: Option<u64>)
    ensures
        match r {
            Some(p) => {
                &&& p < n
                &&& miller_rabin_decides(p as nat)
                &&& forall|v: nat| p < v < n ==> !miller_rabin_decides(v)
            },
            None => n <= 2,
        },
{
    if n <= 2 {
        None
    } else if n == 3 {
        Some(2)
    } else {
        let mut c: u64 = n - 1;
        if c % 2 == 0 {
            proof {
                assert(!miller_rabin_decides(c as nat));
            }
            c = c - 1;
        }
        while c > 2 && !is_prime(c)
            invariant
                3 <= n,
                c < n,
                c % 2 == 1,
                c >= 1,
                forall|v: nat| c < v < n ==> !miller_rabin_decides(v),
            decreases c,
        {
            proof {
                assert(!miller_rabin_decides(c as nat));
                assert(c >= 3) by {
                    if c == 1 {
                    }
                }
                assert forall|v: nat| c - 2 < v < n implies !miller_rabin_decides(v) by {
                    if v == c - 1 {
                        assert(v % 2 == 0);
                        if v > 3 {
                            assert(!miller_rabin_decides(v));
                        } else {
                            assert(v == 2 && c == 3);
                        }
                    }
                }
            }
            c = c - 2;
        }
        if c > 2 {
            Some(c)
        } else {
            proof {
                // Unreachable: stepping down through the odd numbers stops
                // at 3, which the test accepts.
                assert(c == 1);
                assert(miller_rabin_decides(3));
                assert(false);
            }
            None
        }
    }
}

/// Returns the smallest number greater than `n` that the deterministic test
/// accepts, if there is one that can be represented by a `u64`.
pub fn next_prime(n: u64) -> (r: Option<u64>)
    ensures
        match r {
            Some(p) => {
                &&& p > n
                &&& miller_rabin_decides(p as nat)
                &&& forall|v: nat| n < v < p ==> !miller_rabin_decides(v)
            },
            None => n >= largest_u64_prime() || forall|v: nat|
                n < v <= u64::MAX ==> !miller_rabin_decides(v),
        },
{
    if n >= 18_446_744_073_709_551_557 {
        None
    } else if n <= 1 {
        proof {
            assert(miller_rabin_decides(2));
        }
        Some(2)
    } else {
        let mut c: u64 = n + 1;
        if c % 2 == 0 {
            if c == 2 {
                proof {
                    assert(miller_rabin_decides(2));
                }
                return Some(2);
            }
            proof {
                assert(!miller_rabin_decides(c as nat));
            }
            c = c + 1;
        }
        while c < u64::MAX && !is_prime(c)
            invariant
                2 <= n,
                n < c,
                c % 2 == 1,
                forall|v: nat| n < v < c ==> !miller_rabin_decides(v),
            decreases u64::MAX - c,
        {
            proof {
                assert(!miller_rabin_decides(c as nat));
                assert forall|v: nat| n < v < c + 2 implies !miller_rabin_decides(v) by {
                    if v == c + 1 {
                        assert(v % 2 == 0 && v > 3);
                        assert(!miller_rabin_decides(v));
                    }
                }
            }
            c = c + 2;
        }
        if is_prime(c) {
            Some(c)
        } else {
            proof {
                assert(c == u64::MAX);
                assert forall|v: nat| n < v <= u64::MAX implies !miller_rabin_decides(v) by {
                    if v == u64::MAX {
                        assert(v % 3 == 0);
                        assert(!miller_rabin_decides(v));
                    }
                }
            }
            None
        }
    }
}

} // verus!
