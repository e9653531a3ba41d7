//! A prime cache that may also be empty, holding its table in a growable
//! vector.

use vstd::prelude::*;
use crate::generation::{primes, u32_prime_bound};
use crate::primality::{
    first_primes, is_prime_spec, prime_count_below, u32s_as_nats, lemma_first_primes_contains,
};

verus! {

/// A cache of the first primes that is allowed to hold none at all.
pub struct ExtendingPrimes {
    primes: Vec<u32>,
}

impl View for ExtendingPrimes {
    type V = Seq<u32>;

    closed spec fn view(&self) -> Seq<u32> {
        self.primes@
    }
}

impl ExtendingPrimes {
    /// The table lists the first primes in ascending order.
    #[verifier::type_invariant]
    spec fn wf(self) -> bool {
        first_primes(u32s_as_nats(self.primes@))
    }

    /// Generates a new instance that holds the first `n` primes; `n` may be
    /// zero.
    pub fn new(n: usize) -> (r: Self)
        requires
            n <= prime_count_below(u32_prime_bound()),
        ensures
            r@.len() == n,
            first_primes(u32s_as_nats(r@)),
    {
        Self { primes: primes(n) }
    }

    /// Returns a slice over the cached primes.
    pub fn as_slice(&self) -> (r: &[u32])
        ensures
            r@ == self@,
    {
        self.primes.as_slice()
    }

    /// Searches the cached primes for the given value.
    ///
    /// Returns `Ok` with the index of a match, or `Err` with the insertion
    /// point that would keep the table sorted.
    pub fn binary_search_cache(&self, prime: u32) -> (r: Result<usize, usize>)
        ensures
            match r {
                Ok(i) => 0 <= i < self@.len() && self@[i as int] == prime,
                Err(i) => {
                    &&& 0 <= i <= self@.len()
                    &&& !self@.contains(prime)
                    &&& forall|k: int| 0 <= k < i ==> #[trigger] self@[k] < prime
                    &&& forall|k: int| i <= k < self@.len() ==> #[trigger] self@[k] > prime
                },
            },
    {
        proof {
            use_type_invariant(self);
        }
        let mut left: usize = 0;
        let mut right: usize = self.primes.len();
        while left < right
            invariant
                left <= right <= self.primes.len(),
                self@ == self.primes@,
                first_primes(u32s_as_nats(self.primes@)),
                forall|k: int| 0 <= k < left ==> #[trigger] self.primes@[k] < prime,
                forall|k: int|
                    right <= k < self.primes@.len() ==> #[trigger] self.primes@[k] > prime,
            decreases right - left,
        {
            let mid: usize = left + (right - left) / 2;
            let candidate: u32 = self.primes[mid];
            if candidate < prime {
                proof {
                    assert forall|k: int| 0 <= k < mid + 1 implies #[trigger] self.primes@[k]
                        < prime by {
                        if k < mid {
                            assert(u32s_as_nats(self.primes@)[k] < u32s_as_nats(
                                self.primes@,
                            )[mid as int]);
                        }
                    }
                }
                left = mid + 1;
            } else if candidate > prime {
                proof {
                    assert forall|k: int|
                        mid <= k < self.primes@.len() implies #[trigger] self.primes@[k]
                        > prime by {
                        if k > mid {
                            assert(u32s_as_nats(self.primes@)[mid as int] < u32s_as_nats(
                                self.primes@,
                            )[k]);
                        }
                    }
                }
                right = mid;
            } else {
                return Ok(mid);
            }
        }
        proof {
            if self@.contains(prime) {
                let k = choose|k: int| 0 <= k < self@.len() && self@[k] == prime;
            }
        }
        Err(left)
    }

    /// Returns whether `number` is prime, if the cache reaches far enough to
    /// tell; `None` otherwise.
    pub fn is_prime_cached(&self, number: u32) -> (r: Option<bool>)
        ensures
            match r {
                Some(b) => self@.len() >= 1 && number <= self@[self@.len() - 1] && b
                    == is_prime_spec(number as nat),
                None => self@.len() == 0 || number > self@[self@.len() - 1],
            },
    {
        proof {
            use_type_invariant(self);
        }
        let ghost s = u32s_as_nats(self.primes@);
        let len: usize = self.primes.len();
        match self.binary_search_cache(number) {
            Ok(i) => {
                proof {
                    assert(is_prime_spec(s[i as int]));
                    if i < len - 1 {
                        assert(s[i as int] < s[len - 1]);
                    }
                }
                Some(true)
            },
            Err(i) => {
                if i < len {
                    proof {
                        assert(number < self@[i as int]);
                        assert(s[i as int] <= s[len - 1]) by {
                            if i < len - 1 {
                                assert(s[i as int] < s[len - 1]);
                            }
                        }
                        if is_prime_spec(number as nat) {
                            lemma_first_primes_contains(s, number as nat);
                            let k = choose|k: int| 0 <= k < s.len() && s[k] == number as nat;
                            assert(self@[k] == number);
                            assert(self@.contains(number));
                        }
                    }
                    Some(false)
                } else {
                    None
                }
            },
        }
    }

    /// Returns the number of primes in the cache.
    pub fn len(&self) -> (r: usize)
        ensures
            r == self@.len(),
    {
        self.primes.len()
    }

    /// Returns whether the cache holds no primes at all.
    pub fn is_empty(&self) -> (r: bool)
        ensures
            r == (self@.len() == 0),
    {
        self.primes.is_empty()
    }
}

} // verus!
