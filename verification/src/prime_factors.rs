//! Walking the prime factors of a number with the primes of a cache.

use vstd::prelude::*;
use vstd::arithmetic::power::pow;
use vstd::arithmetic::div_mod::lemma_fundamental_div_mod;
use vstd::arithmetic::mul::{lemma_mul_is_associative, lemma_mul_ordering};
use crate::cache::{multiplicity, strip};

verus! {

/// The first index at or after `k` whose prime divides `n`, or the length
/// of `s` if there is none.
pub open spec fn next_factor_index(s: Seq<u32>, k: int, n: nat) -> int
    decreases s.len() - k,
{
    if k < 0 || k >= s.len() {
        s.len() as int
    } else if n % (s[k] as nat) == 0 {
        k
    } else {
        next_factor_index(s, k + 1, n)
    }
}

/// What remains of `n` after dividing out every factor found at or after
/// index `k`.
pub open spec fn remaining_cofactor(s: Seq<u32>, k: int, n: nat) -> nat
    decreases s.len() - k,
{
    if k < 0 || k >= s.len() {
        n
    } else {
        remaining_cofactor(s, k + 1, strip(n, s[k] as nat))
    }
}

/// Skipping a prime that does not divide the number leaves the final
/// cofactor unchanged.
proof fn lemma_remaining_step(s: Seq<u32>, k: int, n: nat)
    requires
        0 <= k < s.len(),
    ensures
        remaining_cofactor(s, k, n) == remaining_cofactor(s, k + 1, strip(n, s[k] as nat)),
{
}

/// Divides every factor `p` out of `n`.
///
/// Returns the stripped number and how many times `p` divided it.
fn divide_out(n: u32, p: u32) -> (r: (u32, u32))
    requires
        n >= 1,
        p >= 2,
    ensures
        r.0 as nat == strip(n as nat, p as nat),
        r.1 as nat == multiplicity(n as nat, p as nat),
        r.0 >= 1,
        r.1 <= 32,
{
    let mut current: u32 = n;
    let mut count: u32 = 0;
    proof {
        assert(pow(p as int, 0) == 1) by {
            vstd::arithmetic::power::lemma_pow0(p as int);
        }
    }
    while current % p == 0
        invariant
            2 <= p,
            1 <= current <= n,
            multiplicity(current as nat, p as nat) + count == multiplicity(n as nat, p as nat),
            strip(current as nat, p as nat) == strip(n as nat, p as nat),
            pow(p as int, count as nat) * current == n,
            count <= 32,
        decreases current,
    {
        proof {
            lemma_fundamental_div_mod(current as int, p as int);
            assert(current / p >= 1) by {
                if current / p == 0 {
                    assert(current as int == p * 0);
                }
            }
            assert(pow(p as int, (count + 1) as nat) * (current / p) as int == n) by {
                vstd::arithmetic::power::lemma_pow_adds(p as int, count as nat, 1);
                assert(pow(p as int, 1) == p) by {
                    vstd::arithmetic::power::lemma_pow1(p as int);
                }
                lemma_mul_is_associative(pow(p as int, count as nat), p as int, (current
                    / p) as int);
            }
            assert(count < 32) by {
                if count >= 32 {
                    crate::cache::lemma_pow_exceeds(p as nat, count as nat);
                    lemma_mul_ordering(pow(p as int, count as nat), current as int);
                }
            }
        }
        current = current / p;
        count += 1;
    }
    (current, count)
}

/// An iterator-like cursor over the prime factors of a number and their
/// multiplicities, drawn from a list of cached primes.
pub struct PrimeFactorization {
    primes_cache: Vec<u32>,
    cache_index: usize,
    number: u32,
}

impl View for PrimeFactorization {
    type V = (Seq<u32>, int, nat);

    closed spec fn view(&self) -> (Seq<u32>, int, nat) {
        (self.primes_cache@, self.cache_index as int, self.number as nat)
    }
}

impl PrimeFactorization {
    /// The cursor position stays within the cache and the number stays
    /// positive.
    #[verifier::type_invariant]
    spec fn wf(self) -> bool {
        &&& self.cache_index <= self.primes_cache@.len()
        &&& self.number >= 1
        &&& forall|k: int|
            0 <= k < self.primes_cache@.len() ==> #[trigger] self.primes_cache@[k] >= 2
    }

    /// Starts a factorization of `number` over the given ascending primes.
    pub fn new(primes_cache: Vec<u32>, number: u32) -> (r: Self)
        requires
            number >= 1,
            forall|k: int| 0 <= k < primes_cache@.len() ==> #[trigger] primes_cache@[k] >= 2,
        ensures
            r@ == (primes_cache@, 0int, number as nat),
    {
        Self { primes_cache, cache_index: 0, number }
    }

    /// Returns the next prime factor and its multiplicity, advancing the
    /// cursor past it and dividing the factor out of the number.
    pub fn next(&mut self) -> (r: Option<(u32, u32)>)
        ensures
            final(self)@.0 == old(self)@.0,
            ({
                let s = old(self)@.0;
                let k = old(self)@.1;
                let n = old(self)@.2;
                let j = next_factor_index(s, k, n);
                if n <= 1 || j >= s.len() {
                    r is None && final(self)@.2 == n
                } else {
                    &&& r == Some::<(u32, u32)>(
                        (s[j], multiplicity(n, s[j] as nat) as u32),
                    )
                    &&& final(self)@.1 == j + 1
                    &&& final(self)@.2 == strip(n, s[j] as nat)
                }
            }),
    {
        proof {
            use_type_invariant(&*self);
        }
        let ghost s = self.primes_cache@;
        let ghost k0 = self.cache_index as int;
        let ghost n0 = self.number as nat;
        if self.number == 1 {
            return None;
        }
        let len: usize = self.primes_cache.len();
        while self.cache_index < len
            invariant
                self.primes_cache@ == s,
                s == old(self)@.0,
                k0 == old(self)@.1,
                n0 == old(self)@.2,
                self.number as nat == n0,
                n0 >= 2,
                len == s.len(),
                0 <= k0 <= self.cache_index as int <= len,
                forall|k: int| 0 <= k < s.len() ==> #[trigger] s[k] >= 2,
                next_factor_index(s, k0, n0) == next_factor_index(
                    s,
                    self.cache_index as int,
                    n0,
                ),
            decreases len - self.cache_index,
        {
            let i: usize = self.cache_index;
            let p: u32 = self.primes_cache[i];
            if self.number % p == 0 {
                proof {
                    assert(next_factor_index(s, i as int, n0) == i as int);
                }
                let (stripped, count) = divide_out(self.number, p);
                self.number = stripped;
                self.cache_index = i + 1;
                return Some((p, count));
            }
            self.cache_index = i + 1;
            proof {
                assert(next_factor_index(s, i as int, n0) == next_factor_index(
                    s,
                    i + 1,
                    n0,
                ));
            }
        }
        proof {
            assert(next_factor_index(s, k0, n0) == s.len() as int);
        }
        None
    }

    /// If the number contains prime factors larger than every prime in the
    /// cache, returns their product.
    pub fn remainder(self) -> (r: Option<u32>)
        ensures
            ({
                let rem = remaining_cofactor(self@.0, self@.1, self@.2);
                if rem > 1 {
                    r == Some::<u32>(rem as u32)
                } else {
                    r is None
                }
            }),
    {
        proof {
            use_type_invariant(&self);
        }
        let ghost s = self@.0;
        let ghost k0 = self@.1;
        let ghost n0 = self@.2;
        let mut it = self;
        while it.cache_index < it.primes_cache.len()
            invariant
                it.wf(),
                it.primes_cache@ == s,
                it.cache_index as int >= 0,
                remaining_cofactor(s, it.cache_index as int, it.number as nat)
                    == remaining_cofactor(s, k0, n0),
            decreases it.primes_cache@.len() - it.cache_index,
        {
            let i: usize = it.cache_index;
            let p: u32 = it.primes_cache[i];
            proof {
                lemma_remaining_step(s, i as int, it.number as nat);
            }
            let (stripped, _count) = divide_out(it.number, p);
            it.number = stripped;
            it.cache_index = i + 1;
        }
        if it.number > 1 {
            Some(it.number)
        } else {
            None
        }
    }
}

/// An iterator-like cursor over the distinct prime factors of a number,
/// drawn from a list of cached primes.
pub struct PrimeFactors {
    primes_cache: Vec<u32>,
    cache_index: usize,
    number: u32,
}

impl View for PrimeFactors {
    type V = (Seq<u32>, int, nat);

    closed spec fn view(&self) -> (Seq<u32>, int, nat) {
        (self.primes_cache@, self.cache_index as int, self.number as nat)
    }
}

impl PrimeFactors {
    /// The cursor position stays within the cache and the number stays
    /// positive.
    #[verifier::type_invariant]
    spec fn wf(self) -> bool {
        &&& self.cache_index <= self.primes_cache@.len()
        &&& self.number >= 1
        &&& forall|k: int|
            0 <= k < self.primes_cache@.len() ==> #[trigger] self.primes_cache@[k] >= 2
    }

    /// Starts walking the distinct prime factors of `number` over the given
    /// ascending primes.
    pub fn new(primes_cache: Vec<u32>, number: u32) -> (r: Self)
        requires
            number >= 1,
            forall|k: int| 0 <= k < primes_cache@.len() ==> #[trigger] primes_cache@[k] >= 2,
        ensures
            r@ == (primes_cache@, 0int, number as nat),
    {
        Self { primes_cache, cache_index: 0, number }
    }

    /// Returns the next cached prime that divides the number, advancing the
    /// cursor past it.  The number itself is left untouched.
    pub fn next(&mut self) -> (r: Option<u32>)
        ensures
            final(self)@.0 == old(self)@.0,
            final(self)@.2 == old(self)@.2,
            ({
                let s = old(self)@.0;
                let k = old(self)@.1;
                let n = old(self)@.2;
                let j = next_factor_index(s, k, n);
                if j >= s.len() {
                    r is None
                } else {
                    r == Some::<u32>(s[j]) && final(self)@.1 == j + 1
                }
            }),
    {
        proof {
            use_type_invariant(&*self);
        }
        let ghost s = self.primes_cache@;
        let ghost k0 = self.cache_index as int;
        let ghost n0 = self.number as nat;
        let len: usize = self.primes_cache.len();
        while self.cache_index < len
            invariant
                self.primes_cache@ == s,
                s == old(self)@.0,
                k0 == old(self)@.1,
                n0 == old(self)@.2,
                self.number as nat == n0,
                self.number >= 1,
                len == s.len(),
                0 <= k0 <= self.cache_index as int <= len,
                forall|k: int| 0 <= k < s.len() ==> #[trigger] s[k] >= 2,
                next_factor_index(s, k0, n0) == next_factor_index(
                    s,
                    self.cache_index as int,
                    n0,
                ),
            decreases len - self.cache_index,
        {
            let i: usize = self.cache_index;
            let p: u32 = self.primes_cache[i];
            self.cache_index = i + 1;
            if self.number % p == 0 {
                proof {
                    assert(next_factor_index(s, i as int, n0) == i as int);
                }
                return Some(p);
            }
            proof {
                assert(next_factor_index(s, i as int, n0) == next_factor_index(
                    s,
                    i + 1,
                    n0,
                ));
            }
        }
        proof {
            assert(next_factor_index(s, k0, n0) == s.len() as int);
        }
        None
    }

    /// If the number contains prime factors larger than every prime in the
    /// cache, returns their product.
    ///
    /// The number was never divided while walking, so this does the
    /// dividing work that [`PrimeFactorization`] would have done, over the
    /// whole cache.
    pub fn remainder(self) -> (r: Option<u32>)
        ensures
            ({
                let rem = remaining_cofactor(self@.0, 0, self@.2);
                if rem > 1 {
                    r == Some::<u32>(rem as u32)
                } else {
                    r is None
                }
            }),
    {
        proof {
            use_type_invariant(&self);
        }
        let it = PrimeFactorization {
            primes_cache: self.primes_cache,
            cache_index: 0,
            number: self.number,
        };
        it.remainder()
    }
}

} // verus!
