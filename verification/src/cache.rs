//! A cache of the first primes, answering number-theoretic queries against
//! its table by binary search.

use vstd::prelude::*;
use vstd::std_specs::cmp::PartialEqSpec;
use vstd::arithmetic::power::{pow, lemma_pow_adds};
use vstd::arithmetic::power2::pow2;
use vstd::arithmetic::div_mod::lemma_fundamental_div_mod;
use vstd::arithmetic::mul::{
    lemma_mul_is_associative, lemma_mul_is_commutative, lemma_mul_inequality,
    lemma_mul_ordering,
};
use crate::generation::{primes, u32_prime_bound};
use crate::primality::{
    first_primes, is_prime_spec, prime_count_below, u32s_as_nats,
    lemma_first_primes_contains, lemma_first_primes_count, lemma_first_primes_count_between,
    lemma_first_primes_starts_at_two, lemma_count_past_composites,
};

verus! {

/// A wrapper around a vector that holds the first `n` primes, in ascending
/// order.  Can use those primes for related computations.
#[derive(Debug, Eq, Hash)]
pub struct Primes {
    primes: Vec<u32>,
}

impl Clone for Primes {
    /// Returns a cache with an identical table.
    fn clone(&self) -> (r: Self)
        ensures
            r@ == self@,
    {
        proof {
            use_type_invariant(self);
        }
        Primes { primes: clone_primes(&self.primes) }
    }
}

impl PartialEq for Primes {
    /// Two caches are equal when their tables are.
    fn eq(&self, other: &Primes) -> (r: bool) {
        let r: bool = self.primes == other.primes;
        proof {
            if r {
                assert(self.primes@ =~= other.primes@);
            } else {
                if self@ == other@ {
                    assert(self.primes.eq_spec(&other.primes));
                }
            }
        }
        r
    }
}

impl vstd::std_specs::cmp::PartialEqSpecImpl for Primes {
    open spec fn obeys_eq_spec() -> bool {
        true
    }

    open spec fn eq_spec(&self, other: &Primes) -> bool {
        self@ == other@
    }
}

impl View for Primes {
    type V = Seq<u32>;

    closed spec fn view(&self) -> Seq<u32> {
        self.primes@
    }
}

impl Primes {
    /// The table is non-empty and lists the first primes in ascending
    /// order.
    #[verifier::type_invariant]
    pub open spec fn wf(self) -> bool {
        &&& self@.len() >= 1
        &&& first_primes(u32s_as_nats(self@))
    }

    /// Generates a new instance that contains the first `n` primes.
    ///
    /// The number of primes must be at least 1, and small enough that they
    /// all fit in a `u32` (any `n` up to 203 280 221 works).
    #[verifier::rlimit(50)]
    pub fn new(n: usize) -> (r: Self)
        requires
            1 <= n <= prime_count_below(u32_prime_bound()),
        ensures
            r@.len() == n,
            first_primes(u32s_as_nats(r@)),
    {
        Self { primes: primes(n) }
    }

    /// Searches the underlying vector of primes for the target integer.
    ///
    /// If the target is found, returns `Ok` with the index of the matching
    /// element; otherwise returns `Err` with the index at which the target
    /// could be inserted while maintaining the sorted order (which is the
    /// length of the table if the target is larger than every prime in it).
    pub fn binary_search(&self, target: u32) -> (r: Result<usize, usize>)
        ensures
            binary_search_result(self@, target, r),
    {
        proof {
            use_type_invariant(self);
        }
        let mut size: usize = self.primes.len();
        let mut left: usize = 0;
        let mut right: usize = size;
        while left < right
            invariant
                left <= right <= self.primes.len(),
                size == right - left,
                self@ == self.primes@,
                first_primes(u32s_as_nats(self.primes@)),
                forall|k: int| 0 <= k < left ==> #[trigger] self.primes@[k] < target,
                forall|k: int|
                    right <= k < self.primes@.len() ==> #[trigger] self.primes@[k] > target,
            decreases right - left,
        {
            let mid: usize = left + size / 2;
            let candidate: u32 = self.primes[mid];
            if candidate < target {
                proof {
                    assert forall|k: int| 0 <= k < mid + 1 implies #[trigger] self.primes@[k]
                        < target by {
                        if k < mid {
                            assert(u32s_as_nats(self.primes@)[k] < u32s_as_nats(
                                self.primes@,
                            )[mid as int]);
                        }
                    }
                }
                left = mid + 1;
            } else if candidate > target {
                proof {
                    assert forall|k: int|
                        mid <= k < self.primes@.len() implies #[trigger] self.primes@[k]
                        > target by {
                        if k > mid {
                            assert(u32s_as_nats(self.primes@)[mid as int] < u32s_as_nats(
                                self.primes@,
                            )[k]);
                        }
                    }
                }
                right = mid;
            } else {
                return Ok(mid);
            }
            size = right - left;
        }
        proof {
            if self@.contains(target) {
                let k = choose|k: int| 0 <= k < self@.len() && self@[k] == target;
            }
        }
        Err(left)
    }

    /// Returns whether `n` is prime, if `n` is no larger than the largest
    /// prime in `self`; `None` otherwise.
    pub fn is_prime(&self, n: u32) -> (r: Option<bool>)
        ensures
            self@.len() >= 1,
            match r {
                Some(b) => n <= self@[self@.len() - 1] && b == is_prime_spec(n as nat),
                None => n > self@[self@.len() - 1],
            },
    {
        proof {
            use_type_invariant(self);
        }
        let ghost s = u32s_as_nats(self.primes@);
        let len: usize = self.primes.len();
        match self.binary_search(n) {
            Ok(i) => {
                proof {
                    assert(s[i as int] == n as nat);
                    assert(is_prime_spec(s[i as int]));
                    if i < len - 1 {
                        assert(s[i as int] < s[len - 1]);
                    }
                }
                Some(true)
            },
            Err(i) => {
                if i < len {
                    proof {
                        assert((self@[i as int] as nat) == s[i as int]);
                        assert(n < self@[i as int]);
                        assert(s[i as int] <= s[len - 1]) by {
                            if i < len - 1 {
                                assert(s[i as int] < s[len - 1]);
                            }
                        }
                        if is_prime_spec(n as nat) {
                            lemma_first_primes_contains(s, n as nat);
                            let k = choose|k: int| 0 <= k < s.len() && s[k] == n as nat;
                            assert(self@[k] == n);
                            assert(self@.contains(n));
                        }
                    }
                    Some(false)
                } else {
                    proof {
                        assert(self@[len - 1] < n);
                    }
                    None
                }
            },
        }
    }

    /// Returns the number of primes less than or equal to `n`, if `n` is no
    /// larger than the largest prime in `self`; `None` otherwise.
    pub fn count_primes_leq(&self, n: u32) -> (r: Option<usize>)
        ensures
            self@.len() >= 1,
            match r {
                Some(c) => n <= self@[self@.len() - 1] && c == prime_count_below(n as nat + 1),
                None => n > self@[self@.len() - 1],
            },
    {
        proof {
            use_type_invariant(self);
        }
        let ghost s = u32s_as_nats(self.primes@);
        let len: usize = self.primes.len();
        match self.binary_search(n) {
            Ok(i) => {
                proof {
                    assert(s[i as int] == n as nat);
                    lemma_first_primes_count(s, i as int);
                    if i < len - 1 {
                        assert(s[i as int] < s[len - 1]);
                    }
                }
                Some(i + 1)
            },
            Err(i) => {
                if i < len {
                    proof {
                        assert(n < self@[i as int]);
                        assert(s[i as int] <= s[len - 1]) by {
                            if i < len - 1 {
                                assert(s[i as int] < s[len - 1]);
                            }
                        }
                        if i == 0 {
                            assert forall|w: nat| 0 <= w < n as nat + 1 implies !is_prime_spec(
                                w,
                            ) by {
                                assert(w < s[0]);
                            }
                            lemma_count_past_composites(0, n as nat + 1);
                        } else {
                            assert(self@[i - 1] < n);
                            assert(s[i - 1] == self@[i - 1] as nat);
                            lemma_first_primes_count_between(s, i - 1, n as nat);
                        }
                    }
                    Some(i)
                } else {
                    None
                }
            },
        }
    }

    /// Returns the largest prime smaller than `n`, if `n` is larger than 2
    /// and no larger than the largest prime in `self`.
    pub fn previous_prime(&self, n: u32) -> (r: Option<u32>)
        ensures
            self@.len() >= 1,
            match r {
                Some(p) => {
                    &&& 2 < n <= self@[self@.len() - 1]
                    &&& is_prime_spec(p as nat)
                    &&& p < n
                    &&& forall|v: nat| p < v < n ==> !is_prime_spec(v)
                },
                None => n <= 2 || n > self@[self@.len() - 1],
            },
    {
        proof {
            use_type_invariant(self);
        }
        if n <= 2 {
            return None;
        }
        let ghost s = u32s_as_nats(self.primes@);
        let len: usize = self.primes.len();
        proof {
            lemma_first_primes_starts_at_two(s);
        }
        let i: usize = match self.binary_search(n) {
            Ok(i) => i,
            Err(i) => i,
        };
        proof {
            assert(i > 0) by {
                if i == 0 {
                    assert(s[0] == 2);
                }
            }
        }
        if i < len {
            let p: u32 = self.primes[i - 1];
            proof {
                assert(s[i - 1] == p as nat);
                assert(is_prime_spec(s[i - 1]));
                assert(p < n) by {
                    assert(self@[i - 1] < n || (i - 1 < i && self@[i as int] == n));
                    if self@[i as int] == n {
                        assert(s[i - 1] < s[i as int]);
                    }
                }
                assert forall|v: nat| p < v < n implies !is_prime_spec(v) by {
                    assert(s[i - 1] < v < s[i as int]);
                }
                assert(n <= self@[len - 1]) by {
                    if i < len - 1 {
                        assert(s[i as int] < s[len - 1]);
                    }
                    assert(n <= self@[i as int]);
                }
            }
            Some(p)
        } else {
            proof {
                assert(self@[len - 1] < n);
            }
            None
        }
    }

    /// Returns the smallest prime greater than `n`, if `n` is smaller than
    /// the largest prime in `self`.
    pub fn next_prime(&self, n: u32) -> (r: Option<u32>)
        ensures
            self@.len() >= 1,
            match r {
                Some(p) => {
                    &&& n < self@[self@.len() - 1]
                    &&& is_prime_spec(p as nat)
                    &&& p > n
                    &&& forall|v: nat| n < v < p ==> !is_prime_spec(v)
                },
                None => n >= self@[self@.len() - 1],
            },
    {
        proof {
            use_type_invariant(self);
        }
        let ghost s = u32s_as_nats(self.primes@);
        let len: usize = self.primes.len();
        match self.binary_search(n) {
            Ok(i) => {
                if i + 1 < len {
                    let p: u32 = self.primes[i + 1];
                    proof {
                        assert(s[i + 1] == p as nat);
                        assert(s[i as int] < s[i + 1]);
                        assert forall|v: nat| n < v < p implies !is_prime_spec(v) by {
                            assert(s[i as int] < v < s[i + 1]);
                        }
                        if i + 1 < len - 1 {
                            assert(s[i + 1] < s[len - 1]);
                        }
                    }
                    Some(p)
                } else {
                    proof {
                        assert(i == len - 1);
                        assert(self@[len - 1] == n);
                    }
                    None
                }
            },
            Err(i) => {
                if i < len {
                    let p: u32 = self.primes[i];
                    proof {
                        assert(s[i as int] == p as nat);
                        assert(n < p);
                        assert forall|v: nat| n < v < p implies !is_prime_spec(v) by {
                            if i == 0 {
                                assert(v < s[0]);
                            } else {
                                assert(self@[i - 1] < n);
                                assert(s[i - 1] < v < s[i as int]);
                            }
                        }
                        if i < len - 1 {
                            assert(s[i as int] < s[len - 1]);
                        }
                    }
                    Some(p)
                } else {
                    proof {
                        assert(self@[len - 1] < n);
                    }
                    None
                }
            },
        }
    }

    /// Returns the largest prime less than or equal to `n`, if `n` is at
    /// least 2 and no larger than the largest prime in `self`.
    pub fn largest_prime_leq(&self, n: u32) -> (r: Option<u32>)
        ensures
            self@.len() >= 1,
            match r {
                Some(p) => {
                    &&& 2 <= n <= self@[self@.len() - 1]
                    &&& is_prime_spec(p as nat)
                    &&& p <= n
                    &&& forall|v: nat| p < v <= n ==> !is_prime_spec(v)
                },
                None => n <= 1 || n > self@[self@.len() - 1],
            },
    {
        proof {
            use_type_invariant(self);
        }
        if n <= 1 {
            return None;
        }
        let ghost s = u32s_as_nats(self.primes@);
        let len: usize = self.primes.len();
        proof {
            lemma_first_primes_starts_at_two(s);
        }
        match self.binary_search(n) {
            Ok(i) => {
                proof {
                    if i < len - 1 {
                        assert(s[i as int] < s[len - 1]);
                    }
                    assert(is_prime_spec(s[i as int]));
                }
                Some(self.primes[i])
            },
            Err(i) => {
                proof {
                    assert(i > 0) by {
                        if i == 0 {
                            assert(s[0] == 2);
                        }
                    }
                }
                if i < len {
                    let p: u32 = self.primes[i - 1];
                    proof {
                        assert(s[i - 1] == p as nat);
                        assert(is_prime_spec(s[i - 1]));
                        assert(self@[i - 1] < n);
                        assert forall|v: nat| p < v <= n implies !is_prime_spec(v) by {
                            assert(s[i - 1] < v < s[i as int]);
                        }
                        if i < len - 1 {
                            assert(s[i as int] < s[len - 1]);
                        }
                    }
                    Some(p)
                } else {
                    proof {
                        assert(self@[len - 1] < n);
                    }
                    None
                }
            },
        }
    }

    /// Returns the smallest prime greater than or equal to `n`, if `n` is no
    /// larger than the largest prime in `self`.
    pub fn smallest_prime_geq(&self, n: u32) -> (r: Option<u32>)
        ensures
            self@.len() >= 1,
            match r {
                Some(p) => {
                    &&& n <= self@[self@.len() - 1]
                    &&& is_prime_spec(p as nat)
                    &&& p >= n
                    &&& forall|v: nat| n <= v < p ==> !is_prime_spec(v)
                },
                None => n > self@[self@.len() - 1],
            },
    {
        proof {
            use_type_invariant(self);
        }
        let ghost s = u32s_as_nats(self.primes@);
        let len: usize = self.primes.len();
        match self.binary_search(n) {
            Ok(i) => {
                proof {
                    if i < len - 1 {
                        assert(s[i as int] < s[len - 1]);
                    }
                    assert(is_prime_spec(s[i as int]));
                }
                Some(self.primes[i])
            },
            Err(i) => {
                if i < len {
                    let p: u32 = self.primes[i];
                    proof {
                        assert(s[i as int] == p as nat);
                        assert(is_prime_spec(s[i as int]));
                        assert forall|v: nat| n <= v < p implies !is_prime_spec(v) by {
                            if i == 0 {
                                lemma_first_primes_starts_at_two(s);
                                assert(v < s[0]);
                            } else {
                                assert(self@[i - 1] < n);
                                assert(s[i - 1] < v < s[i as int]);
                            }
                        }
                        if i < len - 1 {
                            assert(s[i as int] < s[len - 1]);
                        }
                    }
                    Some(p)
                } else {
                    proof {
                        assert(self@[len - 1] < n);
                    }
                    None
                }
            },
        }
    }

    /// Converts `self` into a vector holding the primes.
    pub fn into_array(self) -> (r: Vec<u32>)
        ensures
            r@ == self@,
    {
        self.primes
    }

    /// Returns a reference to the underlying vector.
    pub fn as_array(&self) -> (r: &Vec<u32>)
        ensures
            r@ == self@,
    {
        &self.primes
    }

    /// Returns a slice that contains the entire underlying vector.
    pub fn as_slice(&self) -> (r: &[u32])
        ensures
            r@ == self@,
    {
        self.primes.as_slice()
    }

    /// Returns a reference to the element at the given index, if it is
    /// within bounds.
    pub fn get(&self, index: usize) -> (r: Option<&u32>)
        ensures
            match r {
                Some(p) => index < self@.len() && *p == self@[index as int],
                None => index >= self@.len(),
            },
    {
        if index < self.primes.len() {
            Some(&self.primes[index])
        } else {
            None
        }
    }

    /// Returns a reference to the last prime in `self`.  This is also the
    /// largest prime in `self`.
    pub fn last(&self) -> (r: &u32)
        ensures
            self@.len() >= 1,
            *r == self@[self@.len() - 1],
    {
        proof {
            use_type_invariant(self);
        }
        &self.primes[self.primes.len() - 1]
    }

    /// Returns the number of primes in `self`.
    pub fn len(&self) -> (r: usize)
        ensures
            r == self@.len(),
    {
        self.primes.len()
    }

    /// Returns a cursor over the prime factors of the given number in
    /// increasing order, together with their multiplicities.
    ///
    /// Factors beyond the largest prime of the cache are not yielded, but
    /// their product can be retrieved with
    /// [`remainder`](crate::prime_factors::PrimeFactorization::remainder).
    pub fn prime_factorization(&self, number: u32) -> (r:
        crate::prime_factors::PrimeFactorization)
        requires
            number >= 1,
        ensures
            r@ == (self@, 0int, number as nat),
    {
        proof {
            use_type_invariant(self);
            assert forall|k: int| 0 <= k < self.primes@.len() implies #[trigger] self.primes@[k]
                >= 2 by {
                assert(is_prime_spec(u32s_as_nats(self.primes@)[k]));
            }
        }
        crate::prime_factors::PrimeFactorization::new(clone_primes(&self.primes), number)
    }

    /// Returns a cursor over the distinct prime factors of the given number
    /// in increasing order.
    ///
    /// Factors beyond the largest prime of the cache are not yielded, but
    /// their product can be retrieved with
    /// [`remainder`](crate::prime_factors::PrimeFactors::remainder).
    pub fn prime_factors(&self, number: u32) -> (r: crate::prime_factors::PrimeFactors)
        requires
            number >= 1,
        ensures
            r@ == (self@, 0int, number as nat),
    {
        proof {
            use_type_invariant(self);
            assert forall|k: int| 0 <= k < self.primes@.len() implies #[trigger] self.primes@[k]
                >= 2 by {
                assert(is_prime_spec(u32s_as_nats(self.primes@)[k]));
            }
        }
        crate::prime_factors::PrimeFactors::new(clone_primes(&self.primes), number)
    }

    /// Returns a cursor over the primes of the cache, from the smallest up.
    pub fn iter(&self) -> (r: PrimesIter)
        ensures
            r@ == (self@, 0int),
    {
        PrimesIter { items: clone_primes(&self.primes), pos: 0 }
    }

    /// Converts `self` into an owning cursor over its primes, from the
    /// smallest up.
    pub fn into_iter(self) -> (r: PrimesIntoIter)
        ensures
            r@ == (self@, 0int),
    {
        PrimesIntoIter { items: self.primes, pos: 0 }
    }

    /// Returns the value of the Euler totient function of `n`, computed as
    /// the product of `p^(k-1)·(p-1)` over the factors `p^k` of `n` whose
    /// base is a prime of the cache.
    ///
    /// # Errors
    ///
    /// If `n` has prime factors beyond the cache, the product computed from
    /// the cached primes alone is returned, together with the product of the
    /// remaining factors.
    pub fn totient(&self, n: u32) -> (r: Result<u32, PartialTotient>)
        ensures
            n == 0 ==> r == Ok::<u32, PartialTotient>(0),
            n >= 1 ==> {
                let s = u32s_as_nats(self@);
                if totient_remainder(s, n as nat) == 1 {
                    r == Ok::<u32, PartialTotient>(totient_acc(s, n as nat) as u32)
                } else {
                    r == Err::<u32, PartialTotient>(
                        PartialTotient {
                            totient_using_known_primes: totient_acc(s, n as nat) as u32,
                            product_of_unknown_prime_factors: totient_remainder(
                                s,
                                n as nat,
                            ) as u32,
                        },
                    )
                }
            },
    {
        proof {
            use_type_invariant(self);
        }
        if n == 0 {
            return Ok(0);
        }
        let ghost s = u32s_as_nats(self.primes@);
        let len: usize = self.primes.len();
        let mut current: u32 = n;
        let mut ans: u32 = 1;
        let mut i: usize = 0;
        proof {
            assert(s.subrange(0, s.len() as int) =~= s);
        }
        while i < len && current > 1
            invariant
                self@.len() == len,
                s == u32s_as_nats(self@),
                first_primes(s),
                i <= len,
                1 <= current <= n,
                1 <= ans,
                ans * current <= n,
                totient_acc(s, n as nat) == ans * totient_acc(
                    s.subrange(i as int, len as int),
                    current as nat,
                ),
                totient_remainder(s, n as nat) == totient_remainder(
                    s.subrange(i as int, len as int),
                    current as nat,
                ),
            decreases len - i,
        {
            let ghost tail = s.subrange(i as int, len as int);
            let ghost entry = current as nat;
            let p: u32 = self.primes[i];
            proof {
                assert(s[i as int] == p as nat);
                assert(is_prime_spec(s[i as int]));
                assert(p >= 2);
                assert(tail[0] == p as nat);
                assert(tail.drop_first() =~= s.subrange(i + 1, len as int));
            }
            let mut count: u32 = 0;
            proof {
                lemma_pow_properties(p as nat, 0);
                assert(pow(p as int, 0) == 1) by {
                    vstd::arithmetic::power::lemma_pow0(p as int);
                }
            }
            while current % p == 0
                invariant
                    2 <= p,
                    1 <= current,
                    multiplicity(current as nat, p as nat) + count == multiplicity(
                        entry,
                        p as nat,
                    ),
                    strip(current as nat, p as nat) == strip(entry, p as nat),
                    pow(p as int, count as nat) * current == entry,
                    current <= entry <= 0xffff_ffff,
                    count <= 32,
                decreases current,
            {
                proof {
                    lemma_fundamental_div_mod(current as int, p as int);
                    assert(current / p >= 1) by {
                        if current / p == 0 {
                            assert(current as int == p * 0);
                        }
                    }
                    assert(pow(p as int, (count + 1) as nat) * (current / p) as int
                        == entry) by {
                        lemma_pow_unfold_right(p as nat, (count + 1) as nat);
                        lemma_mul_is_associative(
                            pow(p as int, count as nat),
                            p as int,
                            (current / p) as int,
                        );
                    }
                    assert(count < 32) by {
                        if count >= 32 {
                            lemma_pow_properties(p as nat, count as nat);
                            vstd::arithmetic::power2::lemma2_to64();
                            assert(pow2(count as nat) >= pow2(32)) by {
                                if count > 32 {
                                    vstd::arithmetic::power2::lemma_pow2_strictly_increases(
                                        32,
                                        count as nat,
                                    );
                                }
                            }
                            assert(pow(p as int, count as nat) >= pow2(count as nat));
                            lemma_mul_ordering(pow(p as int, count as nat), current as int);
                        }
                    }
                }
                current = current / p;
                count += 1;
            }
            if count > 0 {
                // The contribution of this prime: p^(count-1) * (p - 1).
                let mut phi_part: u64 = (p - 1) as u64;
                let mut k: u32 = 1;
                proof {
                    assert(pow(p as int, 0) == 1) by {
                        vstd::arithmetic::power::lemma_pow0(p as int);
                    }
                    assert(phi_part == 1 * ((p - 1) as int));
                    assert(phi_part == pow(p as int, 0) * (p - 1));
                    lemma_pow_bounds_chain(p as nat, count as nat, entry, current as nat);
                }
                while k < count
                    invariant
                        2 <= p,
                        1 <= k <= count,
                        1 <= phi_part,
                        phi_part == pow(p as int, (k - 1) as nat) * (p - 1),
                        forall|e: nat| e <= count ==> #[trigger] pow(p as int, e) <= entry,
                        entry <= u32::MAX,
                        count <= 32,
                    decreases count - k,
                {
                    proof {
                        lemma_pow_unfold_right(p as nat, k as nat);
                        assert(phi_part * p == pow(p as int, k as nat) * (p - 1)) by {
                            lemma_mul_is_associative(
                                pow(p as int, (k - 1) as nat),
                                (p - 1) as int,
                                p as int,
                            );
                            lemma_mul_is_commutative((p - 1) as int, p as int);
                            lemma_mul_is_associative(
                                pow(p as int, (k - 1) as nat),
                                p as int,
                                (p - 1) as int,
                            );
                        }
                        assert(pow(p as int, k as nat) * (p - 1) < pow(p as int, k as nat)
                            * p) by {
                            lemma_pow_positive_helper(p as nat, k as nat);
                            vstd::arithmetic::mul::lemma_mul_left_inequality(
                                pow(p as int, k as nat),
                                (p - 1) as int,
                                p as int,
                            );
                        }
                        lemma_pow_unfold_right(p as nat, (k + 1) as nat);
                        assert(pow(p as int, (k + 1) as nat) <= entry);
                        lemma_pow_positive_helper(p as nat, k as nat);
                        vstd::arithmetic::mul::lemma_mul_increases(
                            pow(p as int, k as nat),
                            (p - 1) as int,
                        );
                    }
                    phi_part = phi_part * p as u64;
                    k += 1;
                }
                let ghost old_ans = ans as int;
                proof {
                    // phi_part == p^(count-1) * (p-1) < p^count <= entry.
                    assert(phi_part < pow(p as int, count as nat)) by {
                        lemma_pow_unfold_right(p as nat, count as nat);
                        lemma_pow_positive_helper(p as nat, (count - 1) as nat);
                        vstd::arithmetic::mul::lemma_mul_left_inequality(
                            pow(p as int, (count - 1) as nat),
                            (p - 1) as int,
                            p as int,
                        );
                    }
                    assert(phi_part <= 0xffff_ffff);
                    // ans * phi_part <= ans * entry <= n.
                    assert(ans * phi_part <= n) by {
                        lemma_totient_step_bound(
                            ans as int,
                            phi_part as int,
                            current as int,
                            pow(p as int, count as nat),
                            entry as int,
                            n as int,
                        );
                    }
                }
                let ans64: u64 = ans as u64 * phi_part;
                ans = ans64 as u32;
                proof {
                    vstd::arithmetic::mul::lemma_mul_increases(old_ans, phi_part as int);
                    assert(current as nat == strip(entry, p as nat));
                    assert(count as nat == multiplicity(entry, p as nat));
                    lemma_totient_acc_unfold(tail, entry, count as nat, phi_part as nat);
                    let rest = totient_acc(tail.drop_first(), strip(entry, p as nat));
                    vstd::arithmetic::mul::lemma_mul_is_associative(
                        old_ans,
                        phi_part as int,
                        rest as int,
                    );
                    assert((ans * current) as int <= n) by {
                        lemma_totient_reduced_bound(
                            old_ans,
                            current as int,
                            pow(p as int, count as nat),
                            entry as int,
                            n as int,
                            phi_part as int,
                        );
                    }
                }
            } else {
                proof {
                    assert(current as nat == strip(entry, p as nat));
                    lemma_totient_acc_unfold(tail, entry, 0, 1);
                }
            }
            i += 1;
        }
        proof {
            let sub = s.subrange(i as int, len as int);
            if current == 1 {
                lemma_totient_acc_one(sub);
            } else {
                assert(i == len);
                assert(sub =~= Seq::<nat>::empty());
                assert(totient_acc(sub, current as nat) == 1);
                assert(totient_remainder(sub, current as nat) == current);
            }
            assert(totient_acc(s, n as nat) == ans * 1);
            assert(ans * 1 == ans);
            assert(s == u32s_as_nats(self@));
        }
        if current == 1 {
            Ok(ans)
        } else {
            Err(
                PartialTotient {
                    totient_using_known_primes: ans,
                    product_of_unknown_prime_factors: current,
                },
            )
        }
    }
}

/// What [`Primes::binary_search`] promises of its result.
pub open spec fn binary_search_result(s: Seq<u32>, target: u32, r: Result<usize, usize>) -> bool {
    match r {
        Ok(i) => 0 <= i < s.len() && s[i as int] == target,
        Err(i) => {
            &&& 0 <= i <= s.len()
            &&& !s.contains(target)
            &&& forall|k: int| 0 <= k < i ==> #[trigger] s[k] < target
            &&& forall|k: int| i <= k < s.len() ==> #[trigger] s[k] > target
        },
    }
}


/// A binary search over a strictly ascending table is stable: any two
/// results that meet the contract for the same table and target are equal.
pub proof fn lemma_binary_search_stable(
    s: Seq<u32>,
    target: u32,
    r1: Result<usize, usize>,
    r2: Result<usize, usize>,
)
    requires
        forall|i: int, j: int| 0 <= i < j < s.len() ==> s[i] < s[j],
        binary_search_result(s, target, r1),
        binary_search_result(s, target, r2),
    ensures
        r1 == r2,
{
    match (r1, r2) {
        (Ok(i1), Ok(i2)) => {
            if i1 < i2 {
                assert(s[i1 as int] < s[i2 as int]);
            }
            if i2 < i1 {
                assert(s[i2 as int] < s[i1 as int]);
            }
        },
        (Ok(i1), Err(_)) => {
            assert(s[i1 as int] == target);
            assert(s.contains(target));
        },
        (Err(_), Ok(i2)) => {
            assert(s[i2 as int] == target);
            assert(s.contains(target));
        },
        (Err(i1), Err(i2)) => {
            if i1 < i2 {
                assert(s[i1 as int] < target);
                assert(s[i1 as int] > target);
            }
            if i2 < i1 {
                assert(s[i2 as int] < target);
                assert(s[i2 as int] > target);
            }
        },
    }
}

/// Copies the primes of a cache into a fresh vector.
fn clone_primes(v: &Vec<u32>) -> (r: Vec<u32>)
    ensures
        r@ == v@,
{
    let mut out: Vec<u32> = Vec::new();
    let mut i: usize = 0;
    while i < v.len()
        invariant
            i <= v.len(),
            out@.len() == i,
            forall|k: int| 0 <= k < i ==> #[trigger] out@[k] == v@[k],
        decreases v.len() - i,
    {
        out.push(v[i]);
        i += 1;
    }
    proof {
        assert(out@ =~= v@);
    }
    out
}

/// A cursor over the primes of a cache, from the smallest up.
pub struct PrimesIter {
    items: Vec<u32>,
    pos: usize,
}

impl View for PrimesIter {
    type V = (Seq<u32>, int);

    closed spec fn view(&self) -> (Seq<u32>, int) {
        (self.items@, self.pos as int)
    }
}

impl PrimesIter {
    /// The cursor stays within the table.
    #[verifier::type_invariant]
    spec fn wf(self) -> bool {
        self.pos <= self.items@.len()
    }

    /// Returns the next prime, advancing the cursor.
    pub fn next(&mut self) -> (r: Option<u32>)
        ensures
            final(self)@.0 == old(self)@.0,
            if old(self)@.1 < old(self)@.0.len() {
                r == Some::<u32>(old(self)@.0[old(self)@.1]) && final(self)@.1 == old(self)@.1
                    + 1
            } else {
                r is None && final(self)@.1 == old(self)@.1
            },
    {
        proof {
            use_type_invariant(&*self);
        }
        if self.pos < self.items.len() {
            let v: u32 = self.items[self.pos];
            self.pos = self.pos + 1;
            Some(v)
        } else {
            None
        }
    }

    /// Returns the primes that have not been yielded yet.
    pub fn as_slice(&self) -> (r: &[u32])
        ensures
            r@ == self@.0.subrange(self@.1, self@.0.len() as int),
    {
        proof {
            use_type_invariant(self);
        }
        &self.items.as_slice()[self.pos..self.items.len()]
    }

    /// Returns how many primes have not been yielded yet.
    pub fn len(&self) -> (r: usize)
        ensures
            r == self@.0.len() - self@.1,
    {
        proof {
            use_type_invariant(self);
        }
        self.items.len() - self.pos
    }
}

/// An owning cursor over the primes of a cache, from the smallest up.
pub struct PrimesIntoIter {
    items: Vec<u32>,
    pos: usize,
}

impl View for PrimesIntoIter {
    type V = (Seq<u32>, int);

    closed spec fn view(&self) -> (Seq<u32>, int) {
        (self.items@, self.pos as int)
    }
}

impl PrimesIntoIter {
    /// The cursor stays within the table.
    #[verifier::type_invariant]
    spec fn wf(self) -> bool {
        self.pos <= self.items@.len()
    }

    /// Returns the next prime, advancing the cursor.
    pub fn next(&mut self) -> (r: Option<u32>)
        ensures
            final(self)@.0 == old(self)@.0,
            if old(self)@.1 < old(self)@.0.len() {
                r == Some::<u32>(old(self)@.0[old(self)@.1]) && final(self)@.1 == old(self)@.1
                    + 1
            } else {
                r is None && final(self)@.1 == old(self)@.1
            },
    {
        proof {
            use_type_invariant(&*self);
        }
        if self.pos < self.items.len() {
            let v: u32 = self.items[self.pos];
            self.pos = self.pos + 1;
            Some(v)
        } else {
            None
        }
    }

    /// Returns the primes that have not been yielded yet.
    pub fn as_slice(&self) -> (r: &[u32])
        ensures
            r@ == self@.0.subrange(self@.1, self@.0.len() as int),
    {
        proof {
            use_type_invariant(self);
        }
        &self.items.as_slice()[self.pos..self.items.len()]
    }

    /// Returns how many primes have not been yielded yet.
    pub fn len(&self) -> (r: usize)
        ensures
            r == self@.0.len() - self@.1,
    {
        proof {
            use_type_invariant(self);
        }
        self.items.len() - self.pos
    }
}

/// Contains the result of a partially successful evaluation of the
/// [`totient`](Primes::totient) function.
#[derive(Debug, Clone, Copy, PartialEq, Eq, Hash, Structural)]
pub struct PartialTotient {
    /// The result of computing the totient function with only the primes in
    /// the related [`Primes`] struct.
    pub totient_using_known_primes: u32,
    /// The product of all remaining prime factors of the number.
    pub product_of_unknown_prime_factors: u32,
}

/// How many times the factor `p` divides `n`.
pub open spec fn multiplicity(n: nat, p: nat) -> nat
    decreases n,
    via multiplicity_decreases
{
    if p >= 2 && n >= 1 && n % p == 0 {
        1 + multiplicity(n / p, p)
    } else {
        0
    }
}

#[via_fn]
proof fn multiplicity_decreases(n: nat, p: nat) {
    if p >= 2 && n >= 1 && n % p == 0 {
        vstd::arithmetic::div_mod::lemma_div_is_strictly_smaller(n as int, p as int);
    }
}

/// `n` with every factor `p` divided out.
pub open spec fn strip(n: nat, p: nat) -> nat
    decreases n,
    via strip_decreases
{
    if p >= 2 && n >= 1 && n % p == 0 {
        strip(n / p, p)
    } else {
        n
    }
}

#[via_fn]
proof fn strip_decreases(n: nat, p: nat) {
    if p >= 2 && n >= 1 && n % p == 0 {
        vstd::arithmetic::div_mod::lemma_div_is_strictly_smaller(n as int, p as int);
    }
}

/// The product of `p^(k-1)·(p-1)` over the factors `p^k` of `n` with `p`
/// drawn from the list `s`, dividing each factor out of `n` as the list is
/// walked.
pub open spec fn totient_acc(s: Seq<nat>, n: nat) -> nat
    decreases s.len(),
{
    if s.len() == 0 {
        1
    } else {
        let p = s[0];
        let c = multiplicity(n, p);
        (if c > 0 {
            (pow(p as int, (c - 1) as nat) * (p - 1)) as nat
        } else {
            1nat
        }) * totient_acc(s.drop_first(), strip(n, p))
    }
}

/// What remains of `n` after dividing out every factor drawn from the list
/// `s`.
pub open spec fn totient_remainder(s: Seq<nat>, n: nat) -> nat
    decreases s.len(),
{
    if s.len() == 0 {
        n
    } else {
        totient_remainder(s.drop_first(), strip(n, s[0]))
    }
}

/// Nothing remains to contribute once the number is down to 1.
proof fn lemma_totient_acc_one(s: Seq<nat>)
    ensures
        totient_acc(s, 1) == 1,
        totient_remainder(s, 1) == 1,
    decreases s.len(),
{
    if s.len() > 0 {
        let p = s[0];
        assert(multiplicity(1, p) == 0) by {
            if p >= 2 {
                vstd::arithmetic::div_mod::lemma_small_mod(1, p);
            }
        }
        assert(strip(1, p) == 1) by {
            if p >= 2 {
                vstd::arithmetic::div_mod::lemma_small_mod(1, p);
            }
        }
        lemma_totient_acc_one(s.drop_first());
    }
}

/// `pow` grows by one factor on the right.
proof fn lemma_pow_unfold_right(b: nat, e: nat)
    requires
        e >= 1,
    ensures
        pow(b as int, e) == pow(b as int, (e - 1) as nat) * b,
{
    lemma_pow_adds(b as int, (e - 1) as nat, 1);
    assert(pow(b as int, 1) == b) by {
        vstd::arithmetic::power::lemma_pow1(b as int);
    }
}

/// Powers of a base of at least 2 dominate powers of two.
proof fn lemma_pow_properties(b: nat, e: nat)
    requires
        b >= 2,
    ensures
        pow(b as int, e) >= pow2(e),
        pow(b as int, e) >= 1,
    decreases e,
{
    vstd::arithmetic::power2::lemma_pow2(e);
    vstd::arithmetic::power::lemma_pow_increases_converse(2, e, e);
    assert(pow2(e) == pow(2, e));
    lemma_pow_base_monotone(2, b, e);
    vstd::arithmetic::power::lemma_pow_positive(b as int, e);
}

/// A power of a base of at least 2 with an exponent of at least 32 exceeds
/// every `u32`.
pub proof fn lemma_pow_exceeds(p: nat, e: nat)
    requires
        p >= 2,
        e >= 32,
    ensures
        pow(p as int, e) > 0xffff_ffff,
{
    lemma_pow_properties(p, e);
    vstd::arithmetic::power2::lemma2_to64();
    assert(pow2(e) >= pow2(32)) by {
        if e > 32 {
            vstd::arithmetic::power2::lemma_pow2_strictly_increases(32, e);
        }
    }
}

/// `pow` is monotone in the base.
proof fn lemma_pow_base_monotone(b1: nat, b2: nat, e: nat)
    requires
        1 <= b1 <= b2,
    ensures
        pow(b1 as int, e) <= pow(b2 as int, e),
    decreases e,
{
    if e == 0 {
        vstd::arithmetic::power::lemma_pow0(b1 as int);
        vstd::arithmetic::power::lemma_pow0(b2 as int);
    } else {
        lemma_pow_base_monotone(b1, b2, (e - 1) as nat);
        lemma_pow_unfold_right(b1, e);
        lemma_pow_unfold_right(b2, e);
        vstd::arithmetic::power::lemma_pow_positive(b1 as int, (e - 1) as nat);
        vstd::arithmetic::power::lemma_pow_positive(b2 as int, (e - 1) as nat);
        vstd::arithmetic::mul::lemma_mul_upper_bound(
            pow(b1 as int, (e - 1) as nat),
            pow(b2 as int, (e - 1) as nat),
            b1 as int,
            b2 as int,
        );
    }
}

/// A positive power.
proof fn lemma_pow_positive_helper(b: nat, e: nat)
    requires
        b >= 1,
    ensures
        pow(b as int, e) >= 1,
{
    vstd::arithmetic::power::lemma_pow_positive(b as int, e);
}

/// All powers up to the multiplicity stay below the number they divide.
proof fn lemma_pow_bounds_chain(p: nat, count: nat, entry: nat, cof: nat)
    requires
        p >= 2,
        entry >= 1,
        pow(p as int, count) * cof == entry,
        cof >= 1,
    ensures
        forall|e: nat| e <= count ==> #[trigger] pow(p as int, e) <= entry,
{
    assert forall|e: nat| e <= count implies #[trigger] pow(p as int, e) <= entry by {
        vstd::arithmetic::power::lemma_pow_increases(p, e, count);
        assert(pow(p as int, count) <= entry) by {
            lemma_pow_positive_helper(p, count);
            vstd::arithmetic::mul::lemma_mul_ordering(pow(p as int, count), cof as int);
        }
    }
}

/// Bound for one totient accumulation step: the new accumulator fits.
proof fn lemma_totient_step_bound(
    ans: int,
    phi_part: int,
    current: int,
    p_pow: int,
    entry: int,
    n: int,
)
    requires
        ans >= 1,
        phi_part >= 1,
        current >= 1,
        phi_part < p_pow,
        p_pow * current == entry,
        ans * entry <= n,
    ensures
        ans * phi_part <= n,
{
    assert(phi_part <= p_pow * current) by {
        vstd::arithmetic::mul::lemma_mul_ordering(p_pow, current);
    }
    vstd::arithmetic::mul::lemma_mul_left_inequality(ans, phi_part, p_pow * current);
    assert(ans * (p_pow * current) == ans * entry);
}

/// Bound after one totient accumulation step: the product of the new
/// accumulator and the reduced number still fits.
proof fn lemma_totient_reduced_bound(
    ans: int,
    current: int,
    p_pow: int,
    entry: int,
    n: int,
    phi_part: int,
)
    requires
        ans >= 1,
        phi_part >= 1,
        current >= 1,
        phi_part < p_pow,
        p_pow * current == entry,
        ans * entry <= n,
    ensures
        (ans * phi_part) * current <= n,
{
    assert(phi_part * current <= p_pow * current) by {
        vstd::arithmetic::mul::lemma_mul_inequality(phi_part, p_pow, current);
    }
    vstd::arithmetic::mul::lemma_mul_left_inequality(ans, phi_part * current, p_pow * current);
    vstd::arithmetic::mul::lemma_mul_is_associative(ans, phi_part, current);
    assert(ans * (p_pow * current) == ans * entry);
}

/// One step of the totient accumulator: processing the head prime splits
/// off its contribution.
proof fn lemma_totient_acc_unfold(tail: Seq<nat>, entry: nat, count: nat, phi_part: nat)
    requires
        tail.len() >= 1,
        count == multiplicity(entry, tail[0]),
        count > 0 ==> phi_part == pow(tail[0] as int, (count - 1) as nat) * (tail[0] - 1),
        count == 0 ==> phi_part == 1,
        tail[0] >= 2,
    ensures
        totient_acc(tail, entry) == phi_part * totient_acc(
            tail.drop_first(),
            strip(entry, tail[0]),
        ),
        totient_remainder(tail, entry) == totient_remainder(
            tail.drop_first(),
            strip(entry, tail[0]),
        ),
{
}

} // verus!
