//! Prime sieves: the base sieve of Eratosthenes, the segmented sieve, and
//! windowed primality queries built on them.

use vstd::prelude::*;
use vstd::pervasive::VecAdditionalExecFns;
use vstd::arithmetic::mul::{
    lemma_mul_inequality, lemma_mul_strict_inequality, lemma_mul_upper_bound,
    lemma_mul_is_distributive_add, lemma_mul_is_commutative,
};
use vstd::arithmetic::div_mod::{
    lemma_fundamental_div_mod, lemma_mod_multiples_basic,
};
use crate::integer_math::isqrt;
use crate::primality::{
    is_prime_spec, is_sieve_of, lemma_composite_has_small_prime_factor,
};

verus! {

/// The prime `p` strikes index `i` during the passes below `m`: `i` is a
/// multiple of `p` no smaller than its square.
spec fn strikes(p: nat, i: nat, m: nat) -> bool {
    is_prime_spec(p) && p < m && p * p <= i && i % p == 0
}

/// The state of the base sieve once every number below `m` has been
/// processed: index `i` is struck out iff it is 0, 1, or struck by a prime
/// smaller than `m`.
spec fn struck(i: nat, m: nat) -> bool {
    i < 2 || exists|p: nat| #[trigger] strikes(p, i, m)
}

/// The extra indices struck during the pass for the prime `m` itself, up to
/// an exclusive bound `upto` on the indices marked so far.
spec fn pass_marked(i: nat, m: nat, upto: int) -> bool {
    m * m <= i && i < upto && i % m == 0
}

/// Two distinct multiples of `p` are at least `p` apart.
proof fn lemma_multiple_gap(p: nat, m: nat, i: nat)
    requires
        p >= 1,
        m % p == 0,
        i % p == 0,
        m < i,
    ensures
        m + p <= i,
{
    let a = m as int / p as int;
    let b = i as int / p as int;
    lemma_fundamental_div_mod(m as int, p as int);
    lemma_fundamental_div_mod(i as int, p as int);
    assert(m as int == p * a);
    assert(i as int == p * b);
    assert(a < b) by {
        if b <= a {
            lemma_mul_inequality(b, a, p as int);
            lemma_mul_is_commutative(p as int, a);
            lemma_mul_is_commutative(p as int, b);
        }
    }
    lemma_mul_inequality(a + 1, b, p as int);
    lemma_mul_is_distributive_add(p as int, a, 1);
    lemma_mul_is_commutative(p as int, a + 1);
    lemma_mul_is_commutative(p as int, b);
}

/// A number that is struck out is not prime.
proof fn lemma_struck_not_prime(i: nat, m: nat)
    requires
        struck(i, m),
    ensures
        !is_prime_spec(i),
{
    if i >= 2 {
        let p = choose|p: nat| #[trigger] strikes(p, i, m);
        assert(p < i) by {
            lemma_mul_inequality(2, p as int, p as int);
            assert(2 * p <= p * p);
        }
        assert(1 < p < i && i % p == 0);
    }
}

/// Once every number up to the square root of `i` has been processed, the
/// struck flag of `i` decides primality.
proof fn lemma_struck_decides(i: nat, m: nat)
    requires
        m * m > i,
    ensures
        struck(i, m) == !is_prime_spec(i),
{
    if struck(i, m) {
        lemma_struck_not_prime(i, m);
    } else if i >= 2 && !is_prime_spec(i) {
        lemma_composite_has_small_prime_factor(i);
        let p = choose|p: nat|
            is_prime_spec(p) && p * p <= i && #[trigger] (i % p) == 0;
        assert(p < m) by {
            if p >= m {
                lemma_mul_upper_bound(m as int, p as int, m as int, p as int);
            }
        }
        assert(strikes(p, i, m));
    }
}

/// Processing the number `m` strikes exactly the qualifying multiples of `m`
/// when `m` is prime, and nothing when it is composite.
proof fn lemma_struck_step(i: nat, m: nat)
    ensures
        struck(i, m + 1) == (struck(i, m) || (is_prime_spec(m) && m * m <= i && i % m == 0)),
{
    if struck(i, m + 1) && i >= 2 {
        let p = choose|p: nat| #[trigger] strikes(p, i, m + 1);
        if p < m {
            assert(strikes(p, i, m));
            assert(struck(i, m));
        } else {
            assert(p == m);
        }
    }
    if struck(i, m) && i >= 2 {
        let p = choose|p: nat| #[trigger] strikes(p, i, m);
        assert(strikes(p, i, m + 1));
    }
    if is_prime_spec(m) && m * m <= i && i % m == 0 {
        assert(strikes(m, i, m + 1));
    }
}

/// The error returned by [`sieve_segment`] if the upper limit of the window
/// is smaller than the length of the base sieve.
#[derive(Debug, Clone, Copy, PartialEq, Eq, Structural)]
pub struct SegmentedSieveError;

/// The prime `p` strikes the value `v` during a segment pass over primes
/// smaller than `bound`: `v` is a multiple of `p` other than `p` itself.
spec fn seg_strikes(p: nat, v: nat, bound: nat) -> bool {
    is_prime_spec(p) && p < bound && v % p == 0 && v != p
}

/// A value `v` is struck out in the segment once the primes below `bound`
/// have been processed.
spec fn seg_struck(v: nat, bound: nat) -> bool {
    exists|p: nat| #[trigger] seg_strikes(p, v, bound)
}

/// The extra values struck while processing the prime `p` itself, up to an
/// exclusive bound `upto` on the values marked so far.
spec fn seg_pass_marked(v: nat, p: nat, upto: int) -> bool {
    v % p == 0 && v != p && v < upto
}

/// A struck value is not prime.
proof fn lemma_seg_struck_not_prime(v: nat, bound: nat)
    requires
        seg_struck(v, bound),
    ensures
        !is_prime_spec(v),
{
    let p = choose|p: nat| #[trigger] seg_strikes(p, v, bound);
    if v >= 2 {
        assert(p <= v) by {
            if p > v {
                vstd::arithmetic::div_mod::lemma_small_mod(v, p);
            }
        }
        assert(1 < p < v && v % p == 0);
    } else {
        if v == 1 {
            vstd::arithmetic::div_mod::lemma_small_mod(1, p);
        }
    }
}

/// Below the square of `bound`, the struck flag decides primality for every
/// value of at least 2.
proof fn lemma_seg_struck_decides(v: nat, bound: nat)
    requires
        2 <= v,
        v < bound * bound,
    ensures
        seg_struck(v, bound) == !is_prime_spec(v),
{
    if seg_struck(v, bound) {
        lemma_seg_struck_not_prime(v, bound);
    } else if !is_prime_spec(v) {
        lemma_composite_has_small_prime_factor(v);
        let p = choose|p: nat|
            is_prime_spec(p) && p * p <= v && #[trigger] (v % p) == 0;
        assert(p < bound) by {
            if p >= bound {
                lemma_mul_upper_bound(bound as int, p as int, bound as int, p as int);
            }
        }
        assert(v != p) by {
            if v == p {
                assert(v % v == 0);
                assert(is_prime_spec(v));
            }
        }
        assert(seg_strikes(p, v, bound));
    }
}

/// Uses the primality flags of the first `L` integers in `base_sieve` to
/// sieve the window `[upper_limit - L, upper_limit)`, where `L` is the
/// length of the base sieve.
///
/// The result is guaranteed accurate only for window values below `L`².  A
/// flag that is false is sound for every window value: that value is
/// certainly not prime.
///
/// # Errors
///
/// Returns an error if `upper_limit` is smaller than the length of the base
/// sieve.
pub fn sieve_segment(base_sieve: &Vec<bool>, upper_limit: u64) -> (r: Result<
    Vec<bool>,
    SegmentedSieveError,
>)
    requires
        is_sieve_of(base_sieve@, 0),
    ensures
        match r {
            Ok(seg) => {
                let len = base_sieve@.len();
                let lower = upper_limit - len;
                &&& upper_limit >= len
                &&& seg@.len() == len
                &&& forall|j: int|
                    0 <= j < len && lower + j < len * len ==> #[trigger] seg@[j]
                        == is_prime_spec((lower + j) as nat)
                &&& forall|j: int|
                    0 <= j < len && #[trigger] seg@[j] == false ==> !is_prime_spec(
                        (lower + j) as nat,
                    )
            },
            Err(e) => upper_limit < base_sieve@.len(),
        },
{
    let len: usize = base_sieve.len();
    if upper_limit < len as u64 {
        return Err(SegmentedSieveError);
    }
    let lower_limit: u64 = upper_limit - len as u64;

    if lower_limit == 0 {
        // The window coincides with the base sieve's own range.
        let copy = base_sieve.clone();
        proof {
            assert forall|j: int| 0 <= j < len implies #[trigger] copy@[j] == base_sieve@[j] by {
                assert(cloned::<bool>(base_sieve@[j], copy@[j]));
            }
        }
        return Ok(copy);
    }

    let mut segment_sieve: Vec<bool> = vec![true; len];
    proof {
        assert(forall|j: int| 0 <= j < len ==> segment_sieve@[j] == true);
    }
    if lower_limit == 1 {
        // 1 is not a multiple of any prime, yet it is not prime either.
        if len > 0 {
            segment_sieve.set(0, false);
        }
    }

    let ghost lower = lower_limit as nat;
    let mut i: usize = 0;
    proof {
        assert forall|j: int|
            0 <= j < len implies #[trigger] segment_sieve@[j] == !((lower_limit == 1 && j == 0)
                || seg_struck((lower + j) as nat, 0)) by {
            if seg_struck((lower + j) as nat, 0) {
                let p = choose|p: nat| #[trigger] seg_strikes(p, (lower + j) as nat, 0);
            }
        }
    }
    while i < len
        invariant
            segment_sieve.len() == len,
            len == base_sieve@.len(),
            is_sieve_of(base_sieve@, 0),
            lower == lower_limit,
            lower >= 1,
            upper_limit == lower + len,
            i <= len,
            forall|j: int|
                0 <= j < len ==> #[trigger] segment_sieve@[j] == !((lower_limit == 1 && j == 0)
                    || seg_struck((lower + j) as nat, i as nat)),
        decreases len - i,
    {
        if base_sieve[i] {
            proof {
                assert(is_prime_spec(i as nat));
                lemma_fundamental_div_mod(lower_limit as int, i as int);
                vstd::arithmetic::div_mod::lemma_mod_bound(lower_limit as int, i as int);
                lemma_mul_is_commutative(lower_limit as int / i as int, i as int);
            }
            let prime: u64 = i as u64;

            // Find the smallest multiple of the prime that is at least
            // `lower_limit`, skipping the prime itself.
            let mut composite: u64 = (lower_limit / prime) * prime;
            proof {
                assert(composite <= lower_limit);
                assert(composite % prime == 0) by {
                    lemma_mod_multiples_basic(lower_limit as int / prime as int, prime as int);
                }
            }
            if composite < lower_limit {
                proof {
                    let q = lower_limit as int / prime as int;
                    lemma_mul_is_distributive_add(prime as int, q, 1);
                    lemma_mod_multiples_basic(q + 1, prime as int);
                    lemma_mul_is_commutative(prime as int, q + 1);
                    assert((composite + prime) % (prime as int) == 0);
                    assert(composite + prime >= lower_limit) by {
                        lemma_fundamental_div_mod(lower_limit as int, prime as int);
                        vstd::arithmetic::div_mod::lemma_mod_bound(
                            lower_limit as int,
                            prime as int,
                        );
                    }
                }
                composite += prime;
            }
            proof {
                assert(composite >= lower_limit);
                assert(composite % prime == 0);
                // No multiple of `prime` other than possibly `prime` itself
                // lies in `[lower_limit, composite)`.
                assert forall|v: nat|
                    lower <= v < composite && #[trigger] (v % (prime as nat)) == 0 implies v
                    >= composite by {
                    lemma_multiple_gap(prime as nat, v, composite as nat);
                }
            }
            if composite == prime {
                if prime <= upper_limit - 1 - composite {
                    composite += prime;
                    proof {
                        assert(composite % prime == 0) by {
                            assert(composite as int == 2 * prime);
                            lemma_mul_is_commutative(2, prime as int);
                            lemma_mod_multiples_basic(2, prime as int);
                        }
                    }
                } else {
                    composite = upper_limit;
                }
                proof {
                    // The only multiple of `prime` in `[lower_limit, composite)`
                    // is `prime` itself.
                    assert forall|v: nat|
                        lower <= v < composite && v != prime && #[trigger] (v % (
                        prime as nat)) == 0 implies false by {
                        if v > prime {
                            lemma_multiple_gap(prime as nat, prime as nat, v);
                        } else {
                            lemma_multiple_gap(prime as nat, v, prime as nat);
                        }
                    }
                }
            }
            proof {
                assert(composite > prime) by {
                    if composite == upper_limit {
                        assert(prime < len <= upper_limit - 1);
                    } else if composite <= prime {
                        vstd::arithmetic::div_mod::lemma_small_mod(
                            composite as nat,
                            prime as nat,
                        );
                    }
                }
                assert forall|j: int|
                    0 <= j < len implies #[trigger] segment_sieve@[j] == !((lower_limit == 1
                        && j == 0) || seg_struck((lower + j) as nat, i as nat)
                        || seg_pass_marked((lower + j) as nat, i as nat, composite as int)) by {
                    assert(!seg_pass_marked((lower + j) as nat, i as nat, composite as int))
                        by {
                        let v = (lower + j) as nat;
                        if v % (i as nat) == 0 && v != i as nat && v < composite {
                            assert(v >= composite);
                        }
                    }
                }
            }
            while composite < upper_limit
                invariant
                    segment_sieve.len() == len,
                    len == base_sieve@.len(),
                    lower == lower_limit,
                    lower >= 1,
                    upper_limit == lower + len,
                    0 <= i < len,
                    prime == i as u64,
                    is_prime_spec(i as nat),
                    composite % prime == 0 || composite == upper_limit,
                    composite > prime,
                    lower_limit <= composite,
                    forall|j: int|
                        0 <= j < len ==> #[trigger] segment_sieve@[j] == !((lower_limit == 1
                            && j == 0) || seg_struck((lower + j) as nat, i as nat)
                            || seg_pass_marked((lower + j) as nat, i as nat, composite as int)),
                decreases upper_limit - composite,
            {
                segment_sieve.set((composite - lower_limit) as usize, false);
                let ghost old_composite = composite as int;
                proof {
                    assert(old_composite % (prime as int) == 0);
                }
                if prime <= upper_limit - 1 - composite {
                    composite += prime;
                    proof {
                        assert(composite % prime == 0) by {
                            lemma_fundamental_div_mod(old_composite, prime as int);
                            let q = old_composite / prime as int;
                            lemma_mul_is_distributive_add(prime as int, q, 1);
                            lemma_mul_is_commutative(prime as int, q + 1);
                            lemma_mod_multiples_basic(q + 1, prime as int);
                        }
                    }
                } else {
                    proof {
                        assert(old_composite + prime >= upper_limit);
                    }
                    composite = upper_limit;
                }
                proof {
                    assert forall|j: int|
                        0 <= j < len implies #[trigger] segment_sieve@[j] == !((lower_limit
                            == 1 && j == 0) || seg_struck((lower + j) as nat, i as nat)
                            || seg_pass_marked((lower + j) as nat, i as nat, composite as int))
                        by {
                        let v = (lower + j) as nat;
                        if v == old_composite {
                            assert(seg_pass_marked(v, i as nat, composite as int));
                            assert(segment_sieve@[j] == false);
                        } else if old_composite < v < composite {
                            assert(!seg_pass_marked(v, i as nat, composite as int)) by {
                                if v % (i as nat) == 0 {
                                    lemma_multiple_gap(prime as nat, old_composite as nat, v);
                                }
                            }
                        } else {
                            assert(seg_pass_marked(v, i as nat, composite as int)
                                == seg_pass_marked(v, i as nat, old_composite));
                        }
                    }
                }
            }
            proof {
                assert forall|j: int|
                    0 <= j < len implies #[trigger] segment_sieve@[j] == !((lower_limit == 1
                        && j == 0) || seg_struck((lower + j) as nat, (i + 1) as nat)) by {
                    let v = (lower + j) as nat;
                    assert(seg_struck(v, (i + 1) as nat) == (seg_struck(v, i as nat)
                        || seg_pass_marked(v, i as nat, composite as int))) by {
                        if seg_struck(v, (i + 1) as nat) {
                            let p = choose|p: nat| #[trigger] seg_strikes(p, v, (i + 1) as nat);
                            if p < i as nat {
                                assert(seg_strikes(p, v, i as nat));
                            } else {
                                assert(p == i as nat);
                                assert(v < upper_limit <= composite);
                                assert(seg_pass_marked(v, i as nat, composite as int));
                            }
                        }
                        if seg_struck(v, i as nat) {
                            let p = choose|p: nat| #[trigger] seg_strikes(p, v, i as nat);
                            assert(seg_strikes(p, v, (i + 1) as nat));
                        }
                        if seg_pass_marked(v, i as nat, composite as int) {
                            assert(seg_strikes(i as nat, v, (i + 1) as nat));
                        }
                    }
                }
            }
        } else {
            proof {
                assert(!is_prime_spec(i as nat));
                assert forall|j: int|
                    0 <= j < len implies #[trigger] segment_sieve@[j] == !((lower_limit == 1
                        && j == 0) || seg_struck((lower + j) as nat, (i + 1) as nat)) by {
                    let v = (lower + j) as nat;
                    if seg_struck(v, (i + 1) as nat) {
                        let p = choose|p: nat| #[trigger] seg_strikes(p, v, (i + 1) as nat);
                        assert(p != i as nat);
                        assert(seg_strikes(p, v, i as nat));
                    }
                    if seg_struck(v, i as nat) {
                        let p = choose|p: nat| #[trigger] seg_strikes(p, v, i as nat);
                        assert(seg_strikes(p, v, (i + 1) as nat));
                    }
                }
            }
        }
        i += 1;
    }
    proof {
        assert forall|j: int|
            0 <= j < len && lower + j < len * len implies #[trigger] segment_sieve@[j]
            == is_prime_spec((lower + j) as nat) by {
            let v = (lower + j) as nat;
            if v >= 2 {
                lemma_seg_struck_decides(v, len as nat);
                assert(!(lower_limit == 1 && j == 0));
            } else {
                assert(v == 1 && lower_limit == 1 && j == 0);
                assert(segment_sieve@[j] == false);
            }
        }
        assert forall|j: int|
            0 <= j < len && #[trigger] segment_sieve@[j] == false implies !is_prime_spec(
            (lower + j) as nat,
        ) by {
            let v = (lower + j) as nat;
            if !(lower_limit == 1 && j == 0) {
                lemma_seg_struck_not_prime(v, len as nat);
            }
        }
    }
    Ok(segment_sieve)
}

/// Returns a vector of length `n` where the value at a given index indicates
/// whether that index is a prime number.
pub fn sieve(n: usize) -> (r: Vec<bool>)
    ensures
        r.len() == n,
        is_sieve_of(r@, 0),
{
    let mut s: Vec<bool> = vec![true; n];
    proof {
        assert(forall|i: int| 0 <= i < n ==> s@[i] == true);
    }
    if n > 0 {
        s.set(0, false);
    }
    if n > 1 {
        s.set(1, false);
    }
    let bound: u64 = isqrt(n as u64);
    let mut number: usize = 2;
    proof {
        assert(n <= 1 || bound < n) by {
            if n >= 2 && bound >= n {
                lemma_mul_upper_bound(n as int, bound as int, n as int, bound as int);
                lemma_mul_strict_inequality(1, n as int, n as int);
            }
        }
        assert forall|i: int| 0 <= i < n implies #[trigger] s@[i] == !struck(i as nat, 2) by {
            if i >= 2 {
                if struck(i as nat, 2) {
                    let p = choose|p: nat| #[trigger] strikes(p, i as nat, 2);
                }
            }
        }
    }
    while number as u64 <= bound
        invariant
            s.len() == n,
            2 <= number,
            bound * bound <= n,
            n < (bound + 1) * (bound + 1),
            n <= 1 || bound < n,
            forall|i: int| 0 <= i < n ==> #[trigger] s@[i] == !struck(i as nat, number as nat),
        decreases bound + 1 - number,
    {
        proof {
            assert(number < n) by {
                lemma_mul_strict_inequality(1, bound as int, bound as int);
            }
        }
        if s[number] {
            // `number` is unmarked, so by the invariant it is prime.
            proof {
                assert(number * number > number) by {
                    lemma_mul_strict_inequality(1, number as int, number as int);
                }
                lemma_struck_decides(number as nat, number as nat);
                assert(is_prime_spec(number as nat));
                lemma_mul_upper_bound(number as int, bound as int, number as int, bound as int);
            }
            let mut composite: usize = number * number;
            proof {
                lemma_mul_is_commutative(number as int, number as int);
                lemma_mod_multiples_basic(number as int, number as int);
            }
            while composite < n
                invariant
                    s.len() == n,
                    2 <= number < n,
                    is_prime_spec(number as nat),
                    composite % number == 0 || composite == n,
                    number * number <= composite,
                    forall|i: int|
                        0 <= i < n ==> #[trigger] s@[i] == !(struck(i as nat, number as nat)
                            || pass_marked(i as nat, number as nat, composite as int)),
                decreases n - composite,
            {
                s.set(composite, false);
                let ghost old_composite = composite as int;
                proof {
                    assert(old_composite % (number as int) == 0);
                }
                if number <= n - 1 - composite {
                    composite = composite + number;
                    proof {
                        assert(composite % number == 0) by {
                            lemma_fundamental_div_mod(old_composite, number as int);
                            let q = old_composite / number as int;
                            assert(old_composite == number * q);
                            lemma_mul_is_distributive_add(number as int, q, 1);
                            assert(composite as int == number * (q + 1));
                            lemma_mul_is_commutative(number as int, q + 1);
                            lemma_mod_multiples_basic(q + 1, number as int);
                        }
                    }
                } else {
                    proof {
                        assert(old_composite + number >= n);
                    }
                    composite = n;
                }
                proof {
                    assert forall|i: int|
                        0 <= i < n implies #[trigger] s@[i] == !(struck(i as nat, number as nat)
                            || pass_marked(i as nat, number as nat, composite as int)) by {
                        if i == old_composite {
                            assert(pass_marked(i as nat, number as nat, composite as int));
                            assert(s@[i] == false);
                        } else if old_composite < i < composite {
                            // No multiple of `number` lies strictly between
                            // two adjacent multiples.
                            assert(!pass_marked(i as nat, number as nat, composite as int)) by {
                                if (i as nat) % (number as nat) == 0 {
                                    lemma_multiple_gap(
                                        number as nat,
                                        old_composite as nat,
                                        i as nat,
                                    );
                                }
                            }
                            assert(!pass_marked(i as nat, number as nat, old_composite));
                        } else {
                            assert(pass_marked(i as nat, number as nat, composite as int)
                                == pass_marked(i as nat, number as nat, old_composite));
                        }
                    }
                }
            }
            proof {
                assert forall|i: int|
                    0 <= i < n implies #[trigger] s@[i] == !struck(
                    i as nat,
                    (number + 1) as nat,
                ) by {
                    lemma_struck_step(i as nat, number as nat);
                    assert(pass_marked(i as nat, number as nat, composite as int) == (
                    number * number <= i && (i as nat) % (number as nat) == 0));
                }
            }
        } else {
            // `number` is marked, so it is composite and strikes nothing new.
            proof {
                assert(struck(number as nat, number as nat));
                lemma_struck_not_prime(number as nat, number as nat);
                assert forall|i: int|
                    0 <= i < n implies #[trigger] s@[i] == !struck(
                    i as nat,
                    (number + 1) as nat,
                ) by {
                    lemma_struck_step(i as nat, number as nat);
                }
            }
        }
        number += 1;
    }
    proof {
        assert forall|i: int| 0 <= i < n implies #[trigger] s@[i] == is_prime_spec(
            (0 + i) as nat,
        ) by {
            assert(number * number > i) by {
                assert(number as u64 > bound);
                lemma_mul_inequality(bound as int + 1, number as int, bound as int + 1);
                lemma_mul_inequality(bound as int + 1, number as int, number as int);
            }
            lemma_struck_decides(i as nat, number as nat);
        }
    }
    s
}

/// Consistency of the windowed sieves with the base sieve: a window of
/// flags that matches primality index-for-index agrees with any base sieve
/// that covers the same values.
///
/// The results of [`sieve_lt`], [`sieve_geq`] and [`sieve_segment`] (below
/// the square of the base length) all satisfy the hypothesis on `win` by
/// their contracts, so each of them agrees with [`sieve`] wherever both are
/// defined.
pub proof fn lemma_windowed_agrees_with_base(win: Seq<bool>, base: Seq<bool>, lower: nat)
    requires
        is_sieve_of(base, 0),
        forall|j: int| 0 <= j < win.len() ==> #[trigger] win[j] == is_prime_spec(
            (lower + j) as nat,
        ),
        lower + win.len() <= base.len(),
    ensures
        forall|j: int| 0 <= j < win.len() ==> #[trigger] win[j] == base[lower + j],
{
    assert forall|j: int| 0 <= j < win.len() implies #[trigger] win[j] == base[lower + j] by {
        assert(base[lower + j] == is_prime_spec((0 + (lower + j)) as nat));
    }
}

/// Two sieves of the same range hold the same flags.
pub proof fn lemma_sieve_unique(a: Seq<bool>, b: Seq<bool>, offset: nat)
    requires
        is_sieve_of(a, offset),
        is_sieve_of(b, offset),
        a.len() == b.len(),
    ensures
        a =~= b,
{
}

/// The error returned by [`sieve_lt`] and [`sieve_geq`] if the input is
/// invalid or does not work to sieve the requested range.
#[derive(Debug, Clone, Copy, PartialEq, Eq, Hash, Structural)]
pub enum SieveError {
    /// The limit was less than `N` (for `sieve_lt`).
    TooSmallLimit,
    /// `MEM`² was smaller than the largest requested value.
    TooSmallSieveSize,
    /// `limit + MEM` did not fit in a `u64` (for `sieve_geq`).
    TotalDoesntFitU64,
}

/// Returns a vector of `n` flags where the value at a given index indicates
/// whether `upper_limit - n + index` is prime.
///
/// Uses a sieve of size `mem` during evaluation; `mem`² must be at least
/// `upper_limit` for the sieve to certify the whole requested range.
///
/// # Errors
///
/// Returns an error if `upper_limit` is larger than `mem`², or smaller than
/// `n`.
pub fn sieve_lt(n: usize, mem: usize, upper_limit: u64) -> (r: Result<Vec<bool>, SieveError>)
    requires
        mem >= n,
        mem * mem <= u64::MAX,
    ensures
        match r {
            Ok(s) => {
                &&& upper_limit <= mem * mem
                &&& upper_limit >= n
                &&& s@.len() == n
                &&& forall|i: int|
                    0 <= i < n ==> #[trigger] s@[i] == is_prime_spec(
                        (upper_limit - n + i) as nat,
                    )
            },
            Err(e) => {
                &&& (e == SieveError::TooSmallSieveSize <==> upper_limit > mem * mem)
                &&& (e == SieveError::TooSmallLimit <==> upper_limit <= mem * mem
                    && upper_limit < n)
                &&& e != SieveError::TotalDoesntFitU64
            },
        },
{
    let mem64: u64 = mem as u64;
    let mem_sqr: u64 = mem64 * mem64;

    if upper_limit > mem_sqr {
        return Err(SieveError::TooSmallSieveSize);
    }

    let n64: u64 = n as u64;

    if upper_limit < n64 {
        return Err(SieveError::TooSmallLimit);
    }

    if n == 0 {
        return Ok(Vec::new());
    }

    if upper_limit == n64 {
        // The window is exactly the base range of a sieve of size `n`.
        return Ok(sieve(n));
    }

    let base_sieve: Vec<bool> = sieve(mem);

    let mut ans: Vec<bool> = vec![false; n];
    match sieve_segment(&base_sieve, upper_limit) {
        Ok(upper_sieve) => {
            let mut i: usize = 0;
            while i < n
                invariant
                    ans.len() == n,
                    upper_sieve.len() == mem,
                    n <= mem,
                    i <= n,
                    n <= upper_limit <= mem * mem,
                    upper_limit >= mem,
                    forall|j: int|
                        0 <= j < mem && (upper_limit - mem + j) < mem * mem
                            ==> #[trigger] upper_sieve@[j] == is_prime_spec(
                            (upper_limit - mem + j) as nat,
                        ),
                    forall|j: int|
                        0 <= j < i ==> #[trigger] ans@[j] == is_prime_spec(
                            (upper_limit - n + j) as nat,
                        ),
                decreases n - i,
            {
                let flag: bool = base_or_seg_flag(&upper_sieve, mem - n + i);
                ans.set(i, flag);
                i += 1;
            }
            Ok(ans)
        },
        Err(_) => {
            // The sieve is longer than the window's upper limit: read the
            // flags straight out of the base sieve instead.
            let mut i: usize = 0;
            while i < n
                invariant
                    ans.len() == n,
                    base_sieve.len() == mem,
                    n <= mem,
                    i <= n,
                    n <= upper_limit < mem,
                    is_sieve_of(base_sieve@, 0),
                    forall|j: int|
                        0 <= j < i ==> #[trigger] ans@[j] == is_prime_spec(
                            (upper_limit - n + j) as nat,
                        ),
                decreases n - i,
            {
                let idx: usize = upper_limit as usize - n + i;
                let flag: bool = base_or_seg_flag(&base_sieve, idx);
                ans.set(i, flag);
                i += 1;
            }
            proof {
                vstd::arithmetic::mul::lemma_mul_increases(mem as int, mem as int);
            }
            Ok(ans)
        },
    }
}

/// Reads one flag out of a sieve vector.
fn base_or_seg_flag(s: &Vec<bool>, i: usize) -> (r: bool)
    requires
        i < s.len(),
    ensures
        r == s@[i as int],
{
    s[i]
}

/// Returns a vector of `n` flags where the value at a given index indicates
/// whether `lower_limit + index` is prime.
///
/// Uses a sieve of size `mem` during evaluation; `mem`² must be at least
/// `lower_limit + mem` for the sieve to certify the whole requested range.
///
/// # Errors
///
/// Returns an error if `mem + lower_limit` is larger than `mem`² or does not
/// fit in a `u64`.
pub fn sieve_geq(n: usize, mem: usize, lower_limit: u64) -> (r: Result<Vec<bool>, SieveError>)
    requires
        mem >= n,
        mem * mem <= u64::MAX,
    ensures
        match r {
            Ok(s) => {
                &&& lower_limit + mem <= mem * mem
                &&& s@.len() == n
                &&& forall|i: int|
                    0 <= i < n ==> #[trigger] s@[i] == is_prime_spec((lower_limit + i) as nat)
            },
            Err(e) => {
                &&& (e == SieveError::TotalDoesntFitU64 <==> lower_limit + mem > u64::MAX)
                &&& (e == SieveError::TooSmallSieveSize <==> lower_limit + mem <= u64::MAX
                    && lower_limit + mem > mem * mem)
                &&& e != SieveError::TooSmallLimit
            },
        },
{
    let mem64: u64 = mem as u64;
    let mem_sqr: u64 = mem64 * mem64;

    if lower_limit > u64::MAX - mem64 {
        return Err(SieveError::TotalDoesntFitU64);
    }
    let upper_limit: u64 = mem64 + lower_limit;

    if upper_limit > mem_sqr {
        return Err(SieveError::TooSmallSieveSize);
    }

    if n == 0 {
        return Ok(Vec::new());
    }

    // If `lower_limit` is zero this is the same as just calling `sieve`.
    if lower_limit == 0 {
        return Ok(sieve(n));
    }

    let base_sieve: Vec<bool> = sieve(mem);

    let upper_sieve: Vec<bool> = match sieve_segment(&base_sieve, upper_limit) {
        Ok(s) => s,
        Err(_) => {
            // `upper_limit` is at least `mem`, so the segment sieve cannot
            // reject it.
            proof {
                assert(false);
            }
            return Err(SieveError::TooSmallLimit);
        },
    };

    let mut ans: Vec<bool> = vec![false; n];
    let mut i: usize = 0;
    while i < n
        invariant
            ans.len() == n,
            upper_sieve.len() == mem,
            n <= mem,
            i <= n,
            lower_limit >= 1,
            upper_limit == lower_limit + mem,
            upper_limit <= mem * mem,
            forall|j: int|
                0 <= j < mem && (lower_limit + j) < mem * mem ==> #[trigger] upper_sieve@[j]
                    == is_prime_spec((lower_limit + j) as nat),
            forall|j: int|
                0 <= j < i ==> #[trigger] ans@[j] == is_prime_spec((lower_limit + j) as nat),
        decreases n - i,
    {
        let flag: bool = base_or_seg_flag(&upper_sieve, i);
        ans.set(i, flag);
        i += 1;
    }
    Ok(ans)
}

} // verus!
