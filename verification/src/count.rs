//! Prime counting.

use vstd::prelude::*;
use crate::sieve::sieve;
use crate::primality::{is_sieve_of, prime_count_below};

verus! {

/// Returns a vector of size `n` where the value at a given index is how
/// many primes are less than or equal to the index.
pub fn prime_pi(n: usize) -> (r: Vec<usize>)
    ensures
        r@.len() == n,
        forall|i: int| 0 <= i < n ==> #[trigger] r@[i] == prime_count_below((i + 1) as nat),
{
    let flags: Vec<bool> = sieve(n);
    let mut counts: Vec<usize> = Vec::new();
    let mut count: usize = 0;
    let mut i: usize = 0;
    while i < n
        invariant
            flags.len() == n,
            is_sieve_of(flags@, 0),
            i <= n,
            counts@.len() == i,
            count == prime_count_below(i as nat),
            count <= i,
            forall|k: int|
                0 <= k < i ==> #[trigger] counts@[k] == prime_count_below((k + 1) as nat),
        decreases n - i,
    {
        proof {
            assert(flags@[i as int] == crate::primality::is_prime_spec((0 + i) as nat));
        }
        if flags[i] {
            count += 1;
        }
        counts.push(count);
        i += 1;
    }
    counts
}

} // verus!
