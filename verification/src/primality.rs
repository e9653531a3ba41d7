//! The mathematical notion of primality that the contracts of this crate are
//! stated against, together with the number-theoretic lemmas shared by the
//! sieve and trial-division proofs.

use vstd::prelude::*;
use vstd::arithmetic::div_mod::{
    lemma_fundamental_div_mod, lemma_mod_multiples_basic, lemma_mod_self_0,
};
use vstd::arithmetic::mul::{
    lemma_mul_inequality, lemma_mul_is_commutative, lemma_mul_is_associative,
    lemma_mul_strict_inequality,
};

verus! {

/// `n` is prime: it is at least 2 and no integer strictly between 1 and `n`
/// divides it.
pub open spec fn is_prime_spec(n: nat) -> bool {
    n >= 2 && forall|d: nat| 1 < d < n ==> #[trigger] (n % d) != 0
}

/// The number of primes in `[0, n)`.
pub open spec fn prime_count_below(n: nat) -> nat
    decreases n,
{
    if n == 0 {
        0
    } else {
        prime_count_below((n - 1) as nat) + if is_prime_spec((n - 1) as nat) {
            1nat
        } else {
            0nat
        }
    }
}

/// Every element of `s` is prime.
pub open spec fn all_primes(s: Seq<nat>) -> bool {
    forall|i: int| 0 <= i < s.len() ==> is_prime_spec(#[trigger] s[i])
}

/// The elements of `s` are strictly ascending.
pub open spec fn strictly_ascending(s: Seq<nat>) -> bool {
    forall|i: int, j: int| 0 <= i < j < s.len() ==> s[i] < s[j]
}

/// `s` lists consecutive primes: it is strictly ascending, every element is
/// prime, and no prime falls strictly between two adjacent elements.
pub open spec fn consecutive_primes(s: Seq<nat>) -> bool {
    &&& all_primes(s)
    &&& strictly_ascending(s)
    &&& forall|i: int, v: nat|
        0 <= i < s.len() - 1 && #[trigger] s[i] < v < s[i + 1] ==> !#[trigger] is_prime_spec(v)
}

/// `s` lists the first `s.len()` primes, in ascending order.
pub open spec fn first_primes(s: Seq<nat>) -> bool {
    &&& consecutive_primes(s)
    &&& s.len() > 0 ==> forall|v: nat| v < s[0] ==> !is_prime_spec(v)
}

/// `s` holds the prime flag of each of the integers `offset`, `offset + 1`,
/// ..., `offset + s.len() - 1`.
pub open spec fn is_sieve_of(s: Seq<bool>, offset: nat) -> bool {
    forall|i: int| 0 <= i < s.len() ==> #[trigger] s[i] == is_prime_spec((offset + i) as nat)
}

/// The natural numbers written in a sequence of `u32` values.
pub open spec fn u32s_as_nats(s: Seq<u32>) -> Seq<nat> {
    s.map_values(|x: u32| x as nat)
}

/// The natural numbers written in a sequence of `u64` values.
pub open spec fn u64s_as_nats(s: Seq<u64>) -> Seq<nat> {
    s.map_values(|x: u64| x as nat)
}

/// `s` lists exactly the primes below `bound`, in ascending order.
pub open spec fn lists_primes_below(s: Seq<nat>, bound: nat) -> bool {
    &&& strictly_ascending(s)
    &&& all_primes(s)
    &&& forall|i: int| 0 <= i < s.len() ==> #[trigger] s[i] < bound
    &&& forall|v: nat| v < bound && is_prime_spec(v) ==> #[trigger] s.contains(v)
}

/// `s` lists exactly the primes in the half-open range `[lo, hi)`, in
/// ascending order.
pub open spec fn primes_in_range(s: Seq<nat>, lo: nat, hi: nat) -> bool {
    &&& strictly_ascending(s)
    &&& all_primes(s)
    &&& forall|i: int| 0 <= i < s.len() ==> lo <= #[trigger] s[i] < hi
    &&& forall|v: nat| lo <= v < hi && is_prime_spec(v) ==> #[trigger] s.contains(v)
}

/// A sequence that lists exactly the primes below some bound lists the first
/// primes.
pub proof fn lemma_lists_primes_below_is_first_primes(s: Seq<nat>, bound: nat)
    requires
        lists_primes_below(s, bound),
    ensures
        first_primes(s),
{
    assert forall|i: int, v: nat|
        0 <= i < s.len() - 1 && #[trigger] s[i] < v < s[i + 1] implies !#[trigger] is_prime_spec(
        v,
    ) by {
        if is_prime_spec(v) {
            assert(v < bound);
            assert(s.contains(v));
            let k = choose|k: int| 0 <= k < s.len() && s[k] == v;
            if k <= i {
                assert(s[k] <= s[i]);
            } else {
                assert(s[k] >= s[i + 1]);
            }
        }
    }
    if s.len() > 0 {
        assert forall|v: nat| v < s[0] implies !is_prime_spec(v) by {
            if is_prime_spec(v) {
                assert(v < bound);
                assert(s.contains(v));
                let k = choose|k: int| 0 <= k < s.len() && s[k] == v;
                assert(s[k] >= s[0]);
            }
        }
    }
}

/// There are no more primes below `n` than there are numbers below `n`.
pub proof fn lemma_prime_count_le(n: nat)
    ensures
        prime_count_below(n) <= n,
    decreases n,
{
    if n > 0 {
        lemma_prime_count_le((n - 1) as nat);
    }
}

/// The two smallest primes.
pub proof fn lemma_two_and_three_prime()
    ensures
        is_prime_spec(2),
        is_prime_spec(3),
{
    assert forall|d: nat| 1 < d < 2 implies #[trigger] (2nat % d) != 0 by {
    }
    assert forall|d: nat| 1 < d < 3 implies #[trigger] (3nat % d) != 0 by {
        assert(d == 2);
        assert(3nat % 2 == 1);
    }
}

/// Counting past one prime adds exactly one.
pub proof fn lemma_count_past_prime(bound: nat, v: nat)
    requires
        bound <= v,
        is_prime_spec(v),
        forall|w: nat| bound <= w < v ==> !is_prime_spec(w),
    ensures
        prime_count_below(v + 1) == prime_count_below(bound) + 1,
    decreases v - bound,
{
    if v == bound {
    } else {
        lemma_count_past_prime((bound + 1) as nat, v);
    }
}

/// Counting over non-primes adds nothing.
pub proof fn lemma_count_past_composites(bound: nat, upper: nat)
    requires
        bound <= upper,
        forall|w: nat| bound <= w < upper ==> !is_prime_spec(w),
    ensures
        prime_count_below(upper) == prime_count_below(bound),
    decreases upper - bound,
{
    if upper > bound {
        lemma_count_past_composites(bound, (upper - 1) as nat);
    }
}

/// A sequence that lists the first primes starts at 2.
pub proof fn lemma_first_primes_starts_at_two(s: Seq<nat>)
    requires
        first_primes(s),
        s.len() >= 1,
    ensures
        s[0] == 2,
{
    lemma_two_and_three_prime();
    assert(is_prime_spec(s[0]));
    if s[0] > 2 {
        assert(!is_prime_spec(2));
    }
}

/// A prefix of a sequence that lists the first primes also lists the first
/// primes.
pub proof fn lemma_first_primes_prefix(s: Seq<nat>, k: int)
    requires
        first_primes(s),
        0 <= k <= s.len(),
    ensures
        first_primes(s.subrange(0, k)),
{
    let t = s.subrange(0, k);
    assert forall|i: int, v: nat|
        0 <= i < t.len() - 1 && #[trigger] t[i] < v < t[i + 1] implies !#[trigger] is_prime_spec(
        v,
    ) by {
        assert(t[i] == s[i] && t[i + 1] == s[i + 1]);
    }
    if t.len() > 0 {
        assert(t[0] == s[0]);
    }
}

/// A sequence that lists the first primes contains every prime up to its
/// largest element.
pub proof fn lemma_first_primes_contains(s: Seq<nat>, v: nat)
    requires
        first_primes(s),
        s.len() >= 1,
        is_prime_spec(v),
        v <= s[s.len() - 1],
    ensures
        s.contains(v),
    decreases s.len(),
{
    let n = s.len() as int;
    if v == s[n - 1] {
        assert(s[n - 1] == v);
    } else if n == 1 {
        assert(v < s[0]);
    } else if v > s[n - 2] {
        assert(s[n - 2] < v < s[n - 1]);
    } else {
        lemma_first_primes_prefix(s, n - 1);
        let t = s.subrange(0, n - 1);
        lemma_first_primes_contains(t, v);
        let k = choose|k: int| 0 <= k < t.len() && t[k] == v;
        assert(s[k] == v);
    }
}

/// Entry by entry, two lists of the first primes cannot differ.
proof fn lemma_first_primes_unique_upto(s1: Seq<nat>, s2: Seq<nat>, i: int)
    requires
        first_primes(s1),
        first_primes(s2),
        0 <= i < s1.len(),
        i < s2.len(),
    ensures
        s1[i] == s2[i],
    decreases i,
{
    if i == 0 {
        lemma_first_primes_starts_at_two(s1);
        lemma_first_primes_starts_at_two(s2);
    } else {
        lemma_first_primes_unique_upto(s1, s2, i - 1);
        if s1[i] < s2[i] {
            assert(s2[i - 1] == s1[i - 1] < s1[i]);
            assert(is_prime_spec(s1[i]));
            assert(s2[i - 1] < s1[i] < s2[i]);
        } else if s2[i] < s1[i] {
            assert(s1[i - 1] == s2[i - 1] < s2[i]);
            assert(is_prime_spec(s2[i]));
            assert(s1[i - 1] < s2[i] < s1[i]);
        }
    }
}

/// Listing the first primes is deterministic: two lists of the same length
/// are equal.
pub proof fn lemma_first_primes_unique(s1: Seq<nat>, s2: Seq<nat>)
    requires
        first_primes(s1),
        first_primes(s2),
        s1.len() == s2.len(),
    ensures
        s1 =~= s2,
{
    assert forall|i: int| 0 <= i < s1.len() implies s1[i] == s2[i] by {
        lemma_first_primes_unique_upto(s1, s2, i);
    }
}

/// Building a prime table is deterministic: two `u32` tables that both
/// list the first primes and have the same length are identical.
/// Instantiated with the views of two caches built by
/// [`Primes::new`](crate::cache::Primes::new), whose contract supplies both
/// hypotheses, this says that building the cache twice with the same size
/// yields identical tables.
pub proof fn lemma_prime_tables_identical(t1: Seq<u32>, t2: Seq<u32>)
    requires
        first_primes(u32s_as_nats(t1)),
        first_primes(u32s_as_nats(t2)),
        t1.len() == t2.len(),
    ensures
        t1 =~= t2,
{
    lemma_first_primes_unique(u32s_as_nats(t1), u32s_as_nats(t2));
    lemma_u32_seqs_with_equal_nats_equal(t1, t2);
}

/// Two `u32` sequences with the same numbers in them are equal.
proof fn lemma_u32_seqs_with_equal_nats_equal(t1: Seq<u32>, t2: Seq<u32>)
    requires
        u32s_as_nats(t1) == u32s_as_nats(t2),
        t1.len() == t2.len(),
    ensures
        t1 =~= t2,
{
    assert forall|i: int| 0 <= i < t1.len() implies t1[i] == t2[i] by {
        assert(u32s_as_nats(t1)[i] == t1[i] as nat);
        assert(u32s_as_nats(t2)[i] == t2[i] as nat);
    }
}

/// The position of a prime in a list of the first primes gives the prime
/// count up to it.
pub proof fn lemma_first_primes_count(s: Seq<nat>, i: int)
    requires
        first_primes(s),
        0 <= i < s.len(),
    ensures
        prime_count_below((s[i] + 1) as nat) == i + 1,
    decreases i,
{
    if i == 0 {
        assert forall|w: nat| 0 <= w < s[0] implies !is_prime_spec(w) by {
        }
        lemma_count_past_composites(0, s[0]);
        assert(prime_count_below((s[0] + 1) as nat) == prime_count_below(s[0]) + 1);
    } else {
        lemma_first_primes_count(s, i - 1);
        lemma_count_past_prime((s[i - 1] + 1) as nat, s[i]);
    }
}

/// The prime count just past a value bracketed by two adjacent entries of a
/// list of the first primes.
pub proof fn lemma_first_primes_count_between(s: Seq<nat>, i: int, v: nat)
    requires
        first_primes(s),
        0 <= i < s.len(),
        s[i] <= v,
        v > s[i] ==> i + 1 < s.len() && v < s[i + 1],
    ensures
        prime_count_below((v + 1) as nat) == i + 1,
{
    lemma_first_primes_count(s, i);
    if v > s[i] {
        lemma_count_past_composites((s[i] + 1) as nat, (v + 1) as nat);
    }
}

/// Divisibility is transitive: if `k` divides `d` and `d` divides `n`, then
/// `k` divides `n`.
pub proof fn lemma_divides_transitive(n: nat, d: nat, k: nat)
    requires
        d >= 1,
        k >= 1,
        n % d == 0,
        d % k == 0,
    ensures
        n % k == 0,
{
    let a = n as int / d as int;
    let b = d as int / k as int;
    lemma_fundamental_div_mod(n as int, d as int);
    lemma_fundamental_div_mod(d as int, k as int);
    assert(n as int == d as int * a);
    assert(d as int == k as int * b);
    assert(n as int == (k as int * b) * a);
    lemma_mul_is_associative(k as int, b, a);
    lemma_mul_is_commutative(k as int, b * a);
    assert(n as int == (b * a) * k as int);
    lemma_mod_multiples_basic(b * a, k as int);
}

/// A composite number has a divisor no larger than its square root.
pub proof fn lemma_composite_has_small_factor(n: nat)
    requires
        n >= 2,
        !is_prime_spec(n),
    ensures
        exists|d: nat| 1 < d && d * d <= n && #[trigger] (n % d) == 0,
{
    let d = choose|d: nat| 1 < d < n && #[trigger] (n % d) != 0 == false;
    assert(1 < d < n && n % d == 0);
    let e = (n / d) as nat;
    lemma_fundamental_div_mod(n as int, d as int);
    assert(n == d * e);
    assert(e >= 1) by {
        if e == 0 {
            assert(n == d * 0);
        }
    }
    assert(e >= 2) by {
        if e == 1 {
            assert(n == d * 1);
        }
    }
    if d * d <= n {
        assert(1 < d && d * d <= n && n % d == 0);
    } else {
        // d * d > n == d * e forces e < d, hence e * e < e * d == n.
        assert(e < d) by {
            if d <= e {
                lemma_mul_inequality(d as int, e as int, d as int);
            }
        }
        lemma_mul_strict_inequality(e as int, d as int, e as int);
        assert(e * e < d * e);
        lemma_mul_is_commutative(d as int, e as int);
        assert(n % e == 0) by {
            assert(n == e * d);
            lemma_mul_is_commutative(e as int, d as int);
            lemma_mod_multiples_basic(d as int, e as int);
        }
        assert(1 < e && e * e <= n && n % e == 0);
    }
}

/// Every integer at least 2 has a prime divisor no larger than itself.
pub proof fn lemma_has_prime_factor(n: nat)
    requires
        n >= 2,
    ensures
        exists|p: nat| is_prime_spec(p) && p <= n && #[trigger] (n % p) == 0,
    decreases n,
{
    if is_prime_spec(n) {
        lemma_mod_self_0(n as int);
        assert(is_prime_spec(n) && n <= n && n % n == 0);
    } else {
        lemma_composite_has_small_factor(n);
        let d = choose|d: nat| 1 < d && d * d <= n && #[trigger] (n % d) == 0;
        assert(d < n) by {
            lemma_mul_inequality(2, d as int, d as int);
            assert(2 * d <= d * d);
        }
        lemma_has_prime_factor(d);
        let p = choose|p: nat| is_prime_spec(p) && p <= d && #[trigger] (d % p) == 0;
        lemma_divides_transitive(n, d, p);
        assert(is_prime_spec(p) && p <= n && n % p == 0);
    }
}

/// A composite number has a prime divisor no larger than its square root.
pub proof fn lemma_composite_has_small_prime_factor(n: nat)
    requires
        n >= 2,
        !is_prime_spec(n),
    ensures
        exists|p: nat| is_prime_spec(p) && p * p <= n && #[trigger] (n % p) == 0,
{
    lemma_composite_has_small_factor(n);
    let d = choose|d: nat| 1 < d && d * d <= n && #[trigger] (n % d) == 0;
    lemma_has_prime_factor(d);
    let p = choose|p: nat| is_prime_spec(p) && p <= d && #[trigger] (d % p) == 0;
    lemma_divides_transitive(n, d, p);
    lemma_mul_inequality(p as int, d as int, p as int);
    lemma_mul_inequality(p as int, d as int, d as int);
    assert(p * p <= d * d);
    assert(is_prime_spec(p) && p * p <= n && n % p == 0);
}

/// The prime count is monotone in its bound.
pub proof fn lemma_prime_count_monotone(m: nat, n: nat)
    requires
        m <= n,
    ensures
        prime_count_below(m) <= prime_count_below(n),
    decreases n - m,
{
    if m < n {
        lemma_prime_count_monotone(m, (n - 1) as nat);
    }
}

} // verus!
