//! Prime generation with a self-bootstrapping segmented sieve.

use vstd::prelude::*;
use vstd::pervasive::VecAdditionalExecFns;
use vstd::arithmetic::mul::{
    lemma_mul_inequality, lemma_mul_is_commutative, lemma_mul_is_distributive_add,
    lemma_mul_upper_bound,
};
use vstd::arithmetic::div_mod::{
    lemma_fundamental_div_mod, lemma_mod_bound, lemma_mod_multiples_basic, lemma_mod_self_0,
};
use crate::sieve::{sieve, sieve_segment};
use crate::primality::{
    is_prime_spec, is_sieve_of, first_primes, lists_primes_below, prime_count_below,
    primes_in_range, u32s_as_nats, u64s_as_nats, lemma_composite_has_small_prime_factor,
    lemma_count_past_composites, lemma_count_past_prime,
    lemma_lists_primes_below_is_first_primes, lemma_prime_count_le,
    lemma_prime_count_monotone, lemma_two_and_three_prime,
};

verus! {

/// The exclusive upper bound below which a prime is sure to fit in a `u32`.
pub open spec fn u32_prime_bound() -> nat {
    0x1_0000_0000
}

/// The value `v` is divisible by one of the first `k` entries of `ps`.
spec fn gen_struck(v: nat, ps: Seq<nat>, k: int) -> bool {
    exists|idx: int| 0 <= idx < k && #[trigger] (v % ps[idx]) == 0
}

/// The value `v` was marked during the pass for the prime `p`: it is a
/// multiple of `p` below the progress bound `upto`.
spec fn gen_pass_marked(v: nat, p: nat, upto: int) -> bool {
    v % p == 0 && v < upto
}

/// The collection boundary after `j` values of the window starting at `low`
/// have been examined, when everything below `scanned` was known before.
spec fn boundary(scanned: nat, low: nat, j: nat) -> nat {
    if low + j <= scanned {
        scanned
    } else {
        (low + j) as nat
    }
}

/// Two distinct multiples of `p` are at least `p` apart.
proof fn lemma_gen_multiple_gap(p: nat, m: nat, i: nat)
    requires
        p >= 1,
        m % p == 0,
        i % p == 0,
        m < i,
    ensures
        m + p <= i,
{
    let a = m as int / p as int;
    let b = i as int / p as int;
    lemma_fundamental_div_mod(m as int, p as int);
    lemma_fundamental_div_mod(i as int, p as int);
    assert(a < b) by {
        if b <= a {
            lemma_mul_inequality(b, a, p as int);
            lemma_mul_is_commutative(p as int, a);
            lemma_mul_is_commutative(p as int, b);
        }
    }
    lemma_mul_inequality(a + 1, b, p as int);
    lemma_mul_is_distributive_add(p as int, a, 1);
    lemma_mul_is_commutative(p as int, a + 1);
    lemma_mul_is_commutative(p as int, b);
}

/// If fewer primes have been collected than exist below `bound`, the
/// collection boundary is still below `bound`.
proof fn lemma_boundary_below(scanned: nat, bound: nat, count: nat)
    requires
        count == prime_count_below(scanned),
        count < prime_count_below(bound),
    ensures
        scanned < bound,
{
    if scanned >= bound {
        lemma_prime_count_monotone(bound, scanned);
    }
}

/// A value struck by one of the primes listed in `ps` and at least as large
/// as all of them is composite.
proof fn lemma_gen_struck_composite(v: nat, ps: Seq<nat>, scanned: nat)
    requires
        lists_primes_below(ps, scanned),
        gen_struck(v, ps, ps.len() as int),
        v >= scanned,
        v >= 2,
    ensures
        !is_prime_spec(v),
{
    let idx = choose|idx: int| 0 <= idx < ps.len() && #[trigger] (v % ps[idx]) == 0;
    let p = ps[idx];
    assert(is_prime_spec(p));
    assert(p < scanned <= v);
    assert(1 < p < v && v % p == 0);
}

/// A prime in the window is never struck out by the primes found before it.
proof fn lemma_prime_not_struck(v: nat, ps: Seq<nat>, scanned: nat)
    requires
        lists_primes_below(ps, scanned),
        is_prime_spec(v),
        v >= scanned,
    ensures
        !gen_struck(v, ps, ps.len() as int),
{
    if gen_struck(v, ps, ps.len() as int) {
        lemma_gen_struck_composite(v, ps, scanned);
    }
}

/// Every composite below the square of `scanned` is struck out by the
/// primes below `scanned`.
proof fn lemma_composite_struck(v: nat, ps: Seq<nat>, scanned: nat)
    requires
        lists_primes_below(ps, scanned),
        ps.len() == prime_count_below(scanned),
        2 <= v,
        !is_prime_spec(v),
        v < scanned * scanned,
    ensures
        gen_struck(v, ps, ps.len() as int),
{
    lemma_composite_has_small_prime_factor(v);
    let p = choose|p: nat| is_prime_spec(p) && p * p <= v && #[trigger] (v % p) == 0;
    assert(p < scanned) by {
        if p >= scanned {
            lemma_mul_upper_bound(scanned as int, p as int, scanned as int, p as int);
        }
    }
    assert(ps.contains(p));
    let k = choose|k: int| 0 <= k < ps.len() && ps[k] == p;
    assert(v % ps[k] == 0);
}

/// Returns the `n` first prime numbers, in ascending order.
///
/// Uses a segmented sieve of Eratosthenes that re-sieves each window of `n`
/// numbers with all the primes found so far.
///
/// The precondition asks that at least `n` primes exist below 2^32, so that
/// every returned prime fits in a `u32`; that holds for every `n` up to
/// 203 280 221.
pub fn primes(n: usize) -> (r: Vec<u32>)
    requires
        n <= prime_count_below(u32_prime_bound()),
    ensures
        r.len() == n,
        first_primes(u32s_as_nats(r@)),
{
    if n == 0 {
        let r: Vec<u32> = Vec::new();
        proof {
            assert(u32s_as_nats(r@) =~= Seq::<nat>::empty());
        }
        return r;
    }
    proof {
        lemma_two_and_three_prime();
    }
    if n == 1 {
        let mut r: Vec<u32> = Vec::new();
        r.push(2);
        proof {
            let s = u32s_as_nats(r@);
            assert(s =~= seq![2nat]);
        }
        return r;
    }
    if n == 2 {
        let mut r: Vec<u32> = Vec::new();
        r.push(2);
        r.push(3);
        proof {
            let s = u32s_as_nats(r@);
            assert(s =~= seq![2nat, 3nat]);
            assert forall|i: int, v: nat|
                0 <= i < s.len() - 1 && #[trigger] s[i] < v < s[i + 1] implies !#[trigger]
            is_prime_spec(v) by {
                assert(i == 0);
            }
        }
        return r;
    }

    let mut primes: Vec<u32> = vec![0u32; n];
    let mut prime_count: usize = 0;

    // Sieve the first `n` integers and collect the primes found there.
    let base_sieve: Vec<bool> = sieve(n);
    let mut number: usize = 0;
    proof {
        assert(u32s_as_nats(primes@.subrange(0, 0)) =~= Seq::<nat>::empty());
    }
    while number < n
        invariant
            primes.len() == n,
            base_sieve.len() == n,
            is_sieve_of(base_sieve@, 0),
            number <= n,
            n <= prime_count_below(u32_prime_bound()),
            prime_count <= number,
            prime_count == prime_count_below(number as nat),
            lists_primes_below(
                u32s_as_nats(primes@.subrange(0, prime_count as int)),
                number as nat,
            ),
        decreases n - number,
    {
        let ghost old_seq = u32s_as_nats(primes@.subrange(0, prime_count as int));
        let ghost pre = primes@;
        if base_sieve[number] {
            proof {
                assert(base_sieve@[number as int] == is_prime_spec((0 + number) as nat));
                lemma_prime_count_le(number as nat);
                lemma_prime_count_le(u32_prime_bound());
                assert(number < 0x1_0000_0000);
            }
            primes.set(prime_count, number as u32);
            prime_count += 1;
            proof {
                let new_seq = u32s_as_nats(primes@.subrange(0, prime_count as int));
                assert(primes@.subrange(0, prime_count as int) =~= pre.subrange(
                    0,
                    prime_count - 1,
                ).push(number as u32));
                assert(new_seq =~= old_seq.push(number as nat));
                assert forall|v: nat|
                    v < number + 1 && is_prime_spec(v) implies #[trigger] new_seq.contains(
                    v,
                ) by {
                    if v < number {
                        assert(old_seq.contains(v));
                        let k = choose|k: int| 0 <= k < old_seq.len() && old_seq[k] == v;
                        assert(new_seq[k] == v);
                    } else {
                        assert(new_seq[new_seq.len() - 1] == v);
                    }
                }
                assert forall|i: int, j: int|
                    0 <= i < j < new_seq.len() implies new_seq[i] < new_seq[j] by {
                    if j < new_seq.len() - 1 {
                        assert(old_seq[i] < old_seq[j]);
                    } else {
                        assert(new_seq[i] == old_seq[i] < number as nat);
                    }
                }
            }
        } else {
            proof {
                assert(base_sieve@[number as int] == is_prime_spec((0 + number) as nat));
                assert forall|v: nat|
                    v < number + 1 && is_prime_spec(v) implies #[trigger] old_seq.contains(
                    v,
                ) by {
                    assert(v != number);
                }
            }
        }
        number += 1;
    }

    if prime_count >= n {
        proof {
            lemma_prime_count_le(n as nat);
            let s = u32s_as_nats(primes@.subrange(0, n as int));
            assert(primes@.subrange(0, n as int) =~= primes@);
            lemma_lists_primes_below_is_first_primes(s, n as nat);
        }
        return primes;
    }

    // For every window of `n` numbers, repeat: sieve the window against all
    // primes found so far, then collect the new primes in it.
    let mut low: u64 = (n - 1) as u64;
    let ghost mut scanned: nat = n as nat;
    while prime_count < n
        invariant
            primes.len() == n,
            3 <= n,
            prime_count <= n,
            n <= prime_count_below(u32_prime_bound()),
            n <= scanned,
            low as int <= 0x1_0000_0000 + n,
            prime_count < n ==> low as nat <= scanned <= low + 1,
            prime_count == prime_count_below(scanned),
            lists_primes_below(u32s_as_nats(primes@.subrange(0, prime_count as int)), scanned),
        decreases u32_prime_bound() + n - low,
    {
        proof {
            lemma_boundary_below(scanned, u32_prime_bound(), prime_count as nat);
            assert(low < u32_prime_bound());
        }
        let high: u64 = low + n as u64;
        let ghost ps = u32s_as_nats(primes@.subrange(0, prime_count as int));
        let ghost n_known = prime_count as int;

        // Sieve the window `[low, high)` with every prime found so far.
        let mut window: Vec<bool> = vec![true; n];
        proof {
            assert(forall|j: int| 0 <= j < n ==> window@[j] == true);
        }
        let mut i: usize = 0;
        while i < prime_count
            invariant
                window.len() == n,
                primes.len() == n,
                i <= n_known <= n,
                n_known == prime_count,
                high == low + n,
                low < 0x1_0000_0000,
                n_known as nat == ps.len(),
                ps == u32s_as_nats(primes@.subrange(0, n_known)),
                lists_primes_below(ps, scanned),
                forall|j: int|
                    0 <= j < n ==> #[trigger] window@[j] == !gen_struck(
                        (low + j) as nat,
                        ps,
                        i as int,
                    ),
            decreases n_known - i,
        {
            proof {
                assert(ps[i as int] == primes@.subrange(0, n_known)[i as int] as nat);
                assert(ps[i as int] == primes@[i as int] as nat);
                assert(is_prime_spec(ps[i as int]));
            }
            let prime: u64 = primes[i] as u64;
            proof {
                assert(prime >= 2);
                lemma_fundamental_div_mod(low as int, prime as int);
                lemma_mod_bound(low as int, prime as int);
                lemma_mul_is_commutative(low as int / prime as int, prime as int);
            }
            let mut composite: u64 = (low / prime) * prime;
            proof {
                assert(composite <= low);
                assert(composite % prime == 0) by {
                    lemma_mod_multiples_basic(low as int / prime as int, prime as int);
                }
            }
            if composite < low {
                proof {
                    let q = low as int / prime as int;
                    lemma_mul_is_distributive_add(prime as int, q, 1);
                    lemma_mul_is_commutative(prime as int, q + 1);
                    lemma_mod_multiples_basic(q + 1, prime as int);
                }
                composite += prime;
            }
            proof {
                assert(composite >= low);
                assert(composite % prime == 0);
                assert forall|v: nat|
                    low <= v < composite && #[trigger] (v % (prime as nat)) == 0 implies false
                    by {
                    lemma_gen_multiple_gap(prime as nat, v, composite as nat);
                }
                assert forall|j: int|
                    0 <= j < n implies #[trigger] window@[j] == !(gen_struck(
                    (low + j) as nat,
                    ps,
                    i as int,
                ) || gen_pass_marked((low + j) as nat, prime as nat, composite as int)) by {
                    let v = (low + j) as nat;
                    if v % (prime as nat) == 0 && v < composite {
                        assert(false);
                    }
                }
            }
            while composite < high
                invariant
                    window.len() == n,
                    high == low + n,
                    prime as nat == ps[i as int],
                    prime >= 2,
                    0 <= i < ps.len(),
                    composite % prime == 0 || composite == high,
                    low <= composite,
                    forall|j: int|
                        0 <= j < n ==> #[trigger] window@[j] == !(gen_struck(
                            (low + j) as nat,
                            ps,
                            i as int,
                        ) || gen_pass_marked((low + j) as nat, prime as nat, composite as int)),
                decreases high - composite,
            {
                window.set((composite - low) as usize, false);
                let ghost old_composite = composite as int;
                proof {
                    assert(old_composite % (prime as int) == 0);
                }
                if prime <= high - 1 - composite {
                    composite += prime;
                    proof {
                        assert(composite % prime == 0) by {
                            lemma_fundamental_div_mod(old_composite, prime as int);
                            let q = old_composite / prime as int;
                            lemma_mul_is_distributive_add(prime as int, q, 1);
                            lemma_mul_is_commutative(prime as int, q + 1);
                            lemma_mod_multiples_basic(q + 1, prime as int);
                        }
                    }
                } else {
                    proof {
                        assert(old_composite + prime >= high);
                    }
                    composite = high;
                }
                proof {
                    assert forall|j: int|
                        0 <= j < n implies #[trigger] window@[j] == !(gen_struck(
                        (low + j) as nat,
                        ps,
                        i as int,
                    ) || gen_pass_marked((low + j) as nat, prime as nat, composite as int)) by {
                        let v = (low + j) as nat;
                        if v == old_composite {
                            assert(gen_pass_marked(v, prime as nat, composite as int));
                            assert(window@[j] == false);
                        } else if old_composite < v < composite {
                            assert(!gen_pass_marked(v, prime as nat, composite as int)) by {
                                if v % (prime as nat) == 0 {
                                    lemma_gen_multiple_gap(
                                        prime as nat,
                                        old_composite as nat,
                                        v,
                                    );
                                }
                            }
                        } else {
                            assert(gen_pass_marked(v, prime as nat, composite as int)
                                == gen_pass_marked(v, prime as nat, old_composite));
                        }
                    }
                }
            }
            proof {
                assert forall|j: int|
                    0 <= j < n implies #[trigger] window@[j] == !gen_struck(
                    (low + j) as nat,
                    ps,
                    i + 1,
                ) by {
                    let v = (low + j) as nat;
                    if gen_struck(v, ps, i + 1) {
                        let idx = choose|idx: int|
                            0 <= idx < i + 1 && #[trigger] (v % ps[idx]) == 0;
                        if idx < i {
                            assert(gen_struck(v, ps, i as int));
                        } else {
                            assert(v % (prime as nat) == 0);
                            assert(v < high <= composite);
                            assert(gen_pass_marked(v, prime as nat, composite as int));
                        }
                    }
                    if gen_struck(v, ps, i as int) {
                        assert(gen_struck(v, ps, i + 1));
                    }
                    if gen_pass_marked(v, prime as nat, composite as int) {
                        assert(v % ps[i as int] == 0);
                        assert(gen_struck(v, ps, i + 1));
                    }
                }
            }
            i += 1;
        }

        // Collect the primes flagged in the window.
        let mut j: usize = 0;
        while j < n && prime_count < n
            invariant
                window.len() == n,
                primes.len() == n,
                3 <= n,
                j <= n,
                prime_count <= n,
                high == low + n,
                low < u32_prime_bound(),
                n <= scanned,
                low as nat <= scanned <= low + 1,
                n <= prime_count_below(u32_prime_bound()),
                0 <= n_known,
                n_known as nat == ps.len(),
                n_known <= prime_count,
                ps == u32s_as_nats(primes@.subrange(0, n_known)),
                lists_primes_below(ps, scanned),
                ps.len() == prime_count_below(scanned),
                forall|jj: int|
                    0 <= jj < n ==> #[trigger] window@[jj] == !gen_struck(
                        (low + jj) as nat,
                        ps,
                        ps.len() as int,
                    ),
                prime_count == prime_count_below(boundary(scanned, low as nat, j as nat)),
                lists_primes_below(
                    u32s_as_nats(primes@.subrange(0, prime_count as int)),
                    boundary(scanned, low as nat, j as nat),
                ),
            decreases n - j,
        {
            let ghost v = (low + j) as nat;
            let ghost bnd = boundary(scanned, low as nat, j as nat);
            let ghost bnd_next = boundary(scanned, low as nat, (j + 1) as nat);
            proof {
                assert(low >= scanned - 1 >= n - 1 >= 2);
                assert(v >= 2);
                // The boundary always reaches the value under examination.
                assert(v <= bnd);
                assert(bnd <= v + 1);
                assert(bnd_next == v + 1);
            }
            if window_flag(&window, j) {
                // The flag is set, so no known prime divides `v`; since every
                // composite this size has a prime factor below `scanned`,
                // `v` is prime, and it is exactly the next one to collect.
                proof {
                    assert(!gen_struck(v, ps, ps.len() as int));
                    assert(is_prime_spec(v)) by {
                        if !is_prime_spec(v) {
                            assert(v < scanned * scanned) by {
                                assert(v < high);
                                assert(high <= 2 * scanned) by {
                                    assert(low <= scanned && n <= scanned);
                                }
                                assert(2 * scanned <= scanned * scanned) by {
                                    lemma_mul_inequality(2, scanned as int, scanned as int);
                                }
                            }
                            lemma_composite_struck(v, ps, scanned);
                        }
                    }
                    // `v` is not an already-collected prime.
                    assert(v >= bnd) by {
                        if v < bnd {
                            assert(bnd == scanned && v == scanned - 1);
                            assert(ps.contains(v));
                            let k = choose|k: int| 0 <= k < ps.len() && ps[k] == v;
                            assert(v % ps[k] == 0) by {
                                lemma_mod_self_0(v as int);
                            }
                            assert(gen_struck(v, ps, ps.len() as int));
                        }
                    }
                    assert(v == bnd);
                    // The new prime fits in a `u32`.
                    assert(v < u32_prime_bound()) by {
                        lemma_boundary_below(bnd, u32_prime_bound(), prime_count as nat);
                    }
                }
                let value: u64 = low + j as u64;
                let ghost pre = primes@;
                let ghost old_seq = u32s_as_nats(primes@.subrange(0, prime_count as int));
                primes.set(prime_count, value as u32);
                prime_count += 1;
                proof {
                    let new_seq = u32s_as_nats(primes@.subrange(0, prime_count as int));
                    assert(new_seq =~= old_seq.push(v));
                    lemma_count_past_prime(bnd, v);
                    assert forall|vv: nat|
                        vv < bnd_next && is_prime_spec(vv) implies #[trigger] new_seq.contains(
                        vv,
                    ) by {
                        if vv < bnd {
                            assert(old_seq.contains(vv));
                            let k = choose|k: int| 0 <= k < old_seq.len() && old_seq[k] == vv;
                            assert(new_seq[k] == vv);
                        } else {
                            assert(vv == v);
                            assert(new_seq[new_seq.len() - 1] == v);
                        }
                    }
                    assert forall|a: int, b: int|
                        0 <= a < b < new_seq.len() implies new_seq[a] < new_seq[b] by {
                        if b < new_seq.len() - 1 {
                            assert(old_seq[a] < old_seq[b]);
                        } else {
                            assert(new_seq[a] == old_seq[a] < bnd <= v);
                        }
                    }
                    assert forall|k: int|
                        0 <= k < n_known implies primes@.subrange(0, n_known)[k]
                        == pre.subrange(0, n_known)[k] by {
                        assert(primes@[k] == pre[k]);
                    }
                    assert(primes@.subrange(0, n_known) =~= pre.subrange(0, n_known));
                }
            } else {
                // The flag is cleared, so a known prime divides `v`: `v` is
                // either composite or a prime that was already collected.
                proof {
                    assert(gen_struck(v, ps, ps.len() as int));
                    if v >= bnd {
                        assert(v == bnd);
                        assert(!is_prime_spec(v)) by {
                            if is_prime_spec(v) {
                                if v >= scanned {
                                    lemma_prime_not_struck(v, ps, scanned);
                                } else {
                                    assert(v == scanned - 1 && bnd == scanned);
                                }
                            }
                        }
                        lemma_count_past_composites(bnd, bnd_next);
                        let s_now = u32s_as_nats(primes@.subrange(0, prime_count as int));
                        assert forall|vv: nat|
                            vv < bnd_next && is_prime_spec(vv) implies #[trigger] s_now
                            .contains(vv) by {
                            assert(vv != v);
                            assert(vv < bnd);
                        }
                    } else {
                        assert(bnd == scanned && v == scanned - 1);
                        assert(bnd_next == v + 1 == scanned);
                    }
                }
            }
            j += 1;
        }

        proof {
            scanned = boundary(scanned, low as nat, j as nat);
            if prime_count < n {
                assert(j == n);
                assert(scanned == high);
            }
        }
        low = high;
    }

    proof {
        let s = u32s_as_nats(primes@.subrange(0, n as int));
        assert(primes@.subrange(0, n as int) =~= primes@);
        lemma_lists_primes_below_is_first_primes(s, scanned);
    }
    primes
}

/// The error returned by [`primes_lt`] and [`primes_geq`] if the input is
/// invalid or does not work to produce the requested primes.
#[derive(Debug, Clone, Copy, PartialEq, Eq, Hash, Structural)]
pub enum GenerationError {
    /// The limit was larger than `MEM`² (or at least `MEM`² for
    /// `primes_geq`).
    TooSmallSieveSize,
    /// The limit was smaller than or equal to 2.
    TooSmallLimit,
    /// Encountered a number at or beyond `MEM`² whose primality the sieve
    /// cannot certify.
    SieveOverrun(u64),
    /// Ran out of primes.
    OutOfPrimes,
}

/// No integer below 3 is prime.
proof fn lemma_no_primes_below_three()
    ensures
        prime_count_below(0) == 0,
        prime_count_below(1) == 0,
        prime_count_below(2) == 0,
{
    assert(prime_count_below(0) == 0);
    assert(prime_count_below(1) == 0);
    assert(prime_count_below(2) == 0);
}

/// Returns the `n` largest primes smaller than `upper_limit`, in ascending
/// order.
///
/// Uses a segmented sieve of size `mem` for computation; only primes below
/// `mem`² can be certified, so `upper_limit` must not exceed it.
///
/// # Errors
///
/// Returns an error if `upper_limit` is at most 2, if it exceeds `mem`², or
/// if fewer than `n` primes exist below it.
pub fn primes_lt(n: usize, mem: usize, upper_limit: u64) -> (r: Result<Vec<u64>, GenerationError>)
    requires
        mem >= n,
        mem >= 1,
        mem * mem <= u64::MAX,
    ensures
        match r {
            Ok(ps) => {
                &&& 2 < upper_limit <= mem * mem
                &&& prime_count_below(upper_limit as nat) >= n
                &&& ps@.len() == n
                &&& n > 0 ==> primes_in_range(
                    u64s_as_nats(ps@),
                    u64s_as_nats(ps@)[0],
                    upper_limit as nat,
                )
            },
            Err(e) => {
                &&& (e == GenerationError::TooSmallLimit <==> upper_limit <= 2)
                &&& (e == GenerationError::TooSmallSieveSize <==> upper_limit > 2
                    && upper_limit > mem * mem)
                &&& (e == GenerationError::OutOfPrimes <==> 2 < upper_limit <= mem * mem
                    && prime_count_below(upper_limit as nat) < n)
                &&& !(e is SieveOverrun)
            },
        },
{
    let mem64: u64 = mem as u64;
    let mem_sqr: u64 = mem64 * mem64;

    if upper_limit <= 2 {
        return Err(GenerationError::TooSmallLimit);
    }
    if upper_limit > mem_sqr {
        return Err(GenerationError::TooSmallSieveSize);
    }

    let mut primes: Vec<u64> = vec![0u64; n];

    if n == 0 {
        proof {
            lemma_prime_count_monotone(0, upper_limit as nat);
        }
        return Ok(primes);
    }

    // This will be used to sieve all the windows.
    let base_sieve: Vec<bool> = sieve(mem);

    let mut count: usize = 0;
    let mut upper: u64 = upper_limit;
    proof {
        assert(primes@.subrange(n as int, n as int) =~= Seq::<u64>::empty());
        assert(u64s_as_nats(primes@.subrange(n as int, n as int)) =~= Seq::<nat>::empty());
    }
    while count < n
        invariant
            primes.len() == n,
            base_sieve.len() == mem,
            is_sieve_of(base_sieve@, 0),
            1 <= n <= mem,
            mem * mem <= u64::MAX,
            2 < upper_limit <= mem * mem,
            upper <= upper_limit,
            count <= n,
            count < n ==> upper > 2,
            count + prime_count_below(upper as nat) == prime_count_below(upper_limit as nat),
            primes_in_range(
                u64s_as_nats(primes@.subrange(n - count, n as int)),
                upper as nat,
                upper_limit as nat,
            ),
        decreases upper,
    {
        match sieve_segment(&base_sieve, upper) {
            Ok(window) => {
                // The window covers `[upper - mem, upper)` and its flags are
                // exact, because every value is below `mem`².
                let ghost bottom = (upper - mem) as nat;
                proof {
                    assert forall|j: int|
                        0 <= j < mem implies #[trigger] window@[j] == is_prime_spec(
                        (bottom + j) as nat,
                    ) by {
                        assert(bottom + j < mem * mem);
                    }
                }
                let scanned: usize = scan_window_down(
                    &window,
                    mem,
                    upper,
                    upper_limit,
                    &mut primes,
                    &mut count,
                    n,
                );
                upper = upper - scanned as u64;
            },
            Err(_) => {
                // The whole sieve is longer than the window: scan the base
                // sieve over `[0, upper)` instead.
                let win_len: usize = upper as usize;
                let scanned: usize = scan_window_down(
                    &base_sieve,
                    win_len,
                    upper,
                    upper_limit,
                    &mut primes,
                    &mut count,
                    n,
                );
                upper = upper - scanned as u64;
            },
        }
        if upper <= 2 && count < n {
            proof {
                lemma_no_primes_below_three();
                lemma_prime_count_monotone(upper as nat, 2);
            }
            return Err(GenerationError::OutOfPrimes);
        }
    }
    proof {
        let s = u64s_as_nats(primes@.subrange(0, n as int));
        assert(primes@.subrange(0, n as int) =~= primes@);
        if n > 0 {
            assert(s.contains(s[0]));
            assert forall|v: nat| s[0] <= v < upper_limit && is_prime_spec(v) implies #[trigger] s
                .contains(v) by {
                assert(upper <= s[0]);
            }
        }
    }
    Ok(primes)
}

/// Scans the flags of the window `[upper - win_len, upper)` from the top
/// down, writing each prime found into `primes` from the back, until the
/// window or the output array is exhausted.  Returns how many values were
/// examined.
fn scan_window_down(
    flags: &Vec<bool>,
    win_len: usize,
    upper: u64,
    upper_limit: u64,
    primes: &mut Vec<u64>,
    count: &mut usize,
    n: usize,
) -> (scanned: usize)
    requires
        win_len <= flags.len(),
        win_len <= upper,
        1 <= win_len,
        old(primes).len() == n,
        *old(count) < n,
        upper <= upper_limit,
        forall|j: int|
            0 <= j < win_len ==> #[trigger] flags@[j] == is_prime_spec(
                (upper - win_len + j) as nat,
            ),
        *old(count) + prime_count_below(upper as nat) == prime_count_below(upper_limit as nat),
        primes_in_range(
            u64s_as_nats(old(primes)@.subrange(n - *old(count), n as int)),
            upper as nat,
            upper_limit as nat,
        ),
    ensures
        final(primes).len() == n,
        *old(count) <= *final(count) <= n,
        1 <= scanned <= win_len,
        *final(count) < n ==> scanned == win_len,
        *final(count) + prime_count_below((upper - scanned) as nat) == prime_count_below(
            upper_limit as nat,
        ),
        primes_in_range(
            u64s_as_nats(final(primes)@.subrange(n - *final(count), n as int)),
            (upper - scanned) as nat,
            upper_limit as nat,
        ),
{
    let mut i: usize = 0;
    while i < win_len && *count < n
        invariant
            primes.len() == n,
            win_len <= flags.len(),
            1 <= win_len <= upper,
            upper <= upper_limit,
            i <= win_len,
            *old(count) <= *count <= n,
            forall|j: int|
                0 <= j < win_len ==> #[trigger] flags@[j] == is_prime_spec(
                    (upper - win_len + j) as nat,
                ),
            *count + prime_count_below((upper - i) as nat) == prime_count_below(
                upper_limit as nat,
            ),
            primes_in_range(
                u64s_as_nats(primes@.subrange(n - *count, n as int)),
                (upper - i) as nat,
                upper_limit as nat,
            ),
        decreases win_len - i,
    {
        let idx: usize = win_len - 1 - i;
        let ghost v = (upper - 1 - i) as nat;
        let ghost old_found = u64s_as_nats(primes@.subrange(n - *count, n as int));
        proof {
            assert(flags@[idx as int] == is_prime_spec(v));
        }
        if window_flag(flags, idx) {
            let value: u64 = upper - 1 - i as u64;
            let ghost pre = primes@;
            let ghost old_count = *count as int;
            primes.set(n - 1 - *count, value);
            *count += 1;
            proof {
                let new_found = u64s_as_nats(primes@.subrange(n - *count, n as int));
                assert(primes@.subrange(n - old_count, n as int) =~= pre.subrange(
                    n - old_count,
                    n as int,
                ));
                assert(new_found =~= seq![v] + old_found);
                assert(new_found[0] == v);
                assert forall|a: int, b: int|
                    0 <= a < b < new_found.len() implies new_found[a] < new_found[b] by {
                    if a > 0 {
                        assert(old_found[a - 1] < old_found[b - 1]);
                    } else {
                        assert(new_found[b] == old_found[b - 1] >= (upper - i) as nat);
                    }
                }
                assert forall|vv: nat|
                    v <= vv < upper_limit && is_prime_spec(vv) implies #[trigger] new_found
                    .contains(vv) by {
                    if vv == v {
                        assert(new_found[0] == vv);
                    } else {
                        assert(old_found.contains(vv));
                        let k = choose|k: int| 0 <= k < old_found.len() && old_found[k] == vv;
                        assert(new_found[k + 1] == vv);
                    }
                }
            }
        } else {
            proof {
                assert(!is_prime_spec(v));
                assert forall|vv: nat|
                    v <= vv < upper_limit && is_prime_spec(vv) implies #[trigger] old_found
                    .contains(vv) by {
                    assert(vv != v);
                }
            }
        }
        i += 1;
    }
    i
}

/// Returns the `n` smallest primes greater than or equal to `lower_limit`,
/// in ascending order.
///
/// Uses a segmented sieve of size `mem` for computation; only primes below
/// `mem`² can be certified.  A `lower_limit` of at most 2 asks for the first
/// `n` primes overall, which are found without consulting the budget.
///
/// # Errors
///
/// Returns an error if `lower_limit` is at least `mem`², or if fewer than
/// `n` primes lie between `lower_limit` and `mem`².
pub fn primes_geq(n: usize, mem: usize, lower_limit: u64) -> (r: Result<
    Vec<u64>,
    GenerationError,
>)
    requires
        mem >= n,
        mem * mem <= u64::MAX,
        lower_limit <= 2 ==> n <= prime_count_below(u32_prime_bound()),
    ensures
        match r {
            Ok(ps) => {
                &&& ps@.len() == n
                &&& (n > 0 && lower_limit <= 2 ==> first_primes(u64s_as_nats(ps@)))
                &&& (n > 0 && lower_limit > 2 ==> {
                    &&& lower_limit < mem * mem
                    &&& prime_count_below((mem * mem) as nat) >= prime_count_below(
                        lower_limit as nat,
                    ) + n
                    &&& primes_in_range(
                        u64s_as_nats(ps@),
                        lower_limit as nat,
                        (u64s_as_nats(ps@)[n - 1] + 1) as nat,
                    )
                })
            },
            Err(e) => {
                &&& n > 0
                &&& lower_limit > 2
                &&& (e == GenerationError::TooSmallSieveSize <==> lower_limit >= mem * mem)
                &&& (e is SieveOverrun <==> lower_limit < mem * mem && prime_count_below(
                    (mem * mem) as nat,
                ) < prime_count_below(lower_limit as nat) + n)
                &&& (e matches GenerationError::SieveOverrun(v) ==> v >= mem * mem)
                &&& e != GenerationError::TooSmallLimit
                &&& e != GenerationError::OutOfPrimes
            },
        },
{
    let mem64: u64 = mem as u64;
    let mem_sqr: u64 = mem64 * mem64;

    if n == 0 {
        return Ok(Vec::new());
    }

    // If `lower_limit` is 2 or less this is the same as asking for the first
    // `n` primes.
    if lower_limit <= 2 {
        let ans32: Vec<u32> = primes(n);
        let mut ans64: Vec<u64> = Vec::new();
        let mut i: usize = 0;
        while i < n
            invariant
                ans32.len() == n,
                i <= n,
                ans64@.len() == i,
                forall|k: int| 0 <= k < i ==> #[trigger] ans64@[k] == ans32@[k] as u64,
            decreases n - i,
        {
            ans64.push(ans32[i] as u64);
            i += 1;
        }
        proof {
            assert(u64s_as_nats(ans64@) =~= u32s_as_nats(ans32@));
        }
        return Ok(ans64);
    }

    if lower_limit >= mem_sqr {
        return Err(GenerationError::TooSmallSieveSize);
    }

    proof {
        assert(mem64 <= 0xffff_ffff) by {
            if mem64 >= 0x1_0000_0000 {
                lemma_mul_upper_bound(0x1_0000_0000, mem as int, 0x1_0000_0000, mem as int);
            }
        }
        assert(mem_sqr + mem64 <= u64::MAX) by {
            lemma_mul_upper_bound(mem as int, 0xffff_ffff, mem as int, 0xffff_ffff);
        }
    }

    let mut primes: Vec<u64> = vec![0u64; n];
    let base_sieve: Vec<bool> = sieve(mem);

    let mut count: usize = 0;
    let mut sieve_limit: u64 = lower_limit;
    proof {
        assert(primes@.subrange(0, 0) =~= Seq::<u64>::empty());
        assert(u64s_as_nats(primes@.subrange(0, 0)) =~= Seq::<nat>::empty());
    }
    while count < n
        invariant
            primes.len() == n,
            base_sieve.len() == mem,
            is_sieve_of(base_sieve@, 0),
            1 <= n <= mem,
            mem * mem <= u64::MAX,
            mem64 == mem,
            mem_sqr == mem * mem,
            mem_sqr + mem64 <= u64::MAX,
            2 < lower_limit < mem * mem,
            lower_limit <= sieve_limit <= mem_sqr + mem64,
            count <= n,
            count + prime_count_below(lower_limit as nat) == prime_count_below(
                sieve_limit as nat,
            ),
            primes_in_range(
                u64s_as_nats(primes@.subrange(0, count as int)),
                lower_limit as nat,
                sieve_limit as nat,
            ),
            forall|k: int|
                0 <= k < count ==> #[trigger] (primes@[k] as nat) < (mem * mem) as nat,
            count == n ==> sieve_limit == primes@[n - 1] as nat + 1,
        decreases mem_sqr + mem64 - sieve_limit,
    {
        if sieve_limit >= mem_sqr {
            // Nothing at or past `mem`² can be certified.
            proof {
                lemma_prime_count_monotone((mem * mem) as nat, sieve_limit as nat);
            }
            return Err(GenerationError::SieveOverrun(sieve_limit));
        }
        let upper: u64 = sieve_limit + mem64;
        let window: Vec<bool> = match sieve_segment(&base_sieve, upper) {
            Ok(w) => w,
            Err(_) => {
                // `upper` is at least `mem`, so the segment sieve cannot
                // reject it.
                proof {
                    assert(false);
                }
                return Err(GenerationError::TooSmallLimit);
            },
        };

        let mut i: usize = 0;
        while i < mem && count < n
            invariant
                primes.len() == n,
                window.len() == mem,
                1 <= n <= mem,
                mem64 == mem,
                mem_sqr == mem * mem,
                upper == sieve_limit + mem64,
                2 < lower_limit <= sieve_limit < mem_sqr,
                i <= mem,
                count <= n,
                forall|j: int|
                    0 <= j < mem && (sieve_limit + j) < mem * mem ==> #[trigger] window@[j]
                        == is_prime_spec((sieve_limit + j) as nat),
                forall|j: int|
                    0 <= j < mem && #[trigger] window@[j] == false ==> !is_prime_spec(
                        (sieve_limit + j) as nat,
                    ),
                count + prime_count_below(lower_limit as nat) == prime_count_below(
                    (sieve_limit + i) as nat,
                ),
                primes_in_range(
                    u64s_as_nats(primes@.subrange(0, count as int)),
                    lower_limit as nat,
                    (sieve_limit + i) as nat,
                ),
                forall|k: int|
                    0 <= k < count ==> #[trigger] (primes@[k] as nat) < (mem * mem) as nat,
                count == n ==> sieve_limit + i == primes@[n - 1] as nat + 1,
            decreases mem - i,
        {
            let ghost v = (sieve_limit + i) as nat;
            let ghost old_found = u64s_as_nats(primes@.subrange(0, count as int));
            if window_flag(&window, i) {
                let value: u64 = sieve_limit + i as u64;
                if value >= mem_sqr {
                    // The base sieve cannot certify this flag.
                    proof {
                        lemma_prime_count_monotone((mem * mem) as nat, v);
                    }
                    return Err(GenerationError::SieveOverrun(value));
                }
                proof {
                    assert(is_prime_spec(v));
                }
                let ghost pre = primes@;
                primes.set(count, value);
                count += 1;
                proof {
                    let new_found = u64s_as_nats(primes@.subrange(0, count as int));
                    assert(primes@.subrange(0, count - 1) =~= pre.subrange(0, count - 1));
                    assert(new_found =~= old_found.push(v));
                    assert forall|a: int, b: int|
                        0 <= a < b < new_found.len() implies new_found[a] < new_found[b] by {
                        if b < new_found.len() - 1 {
                            assert(old_found[a] < old_found[b]);
                        } else {
                            assert(new_found[a] == old_found[a] < v);
                        }
                    }
                    assert forall|vv: nat|
                        lower_limit <= vv < v + 1 && is_prime_spec(vv) implies #[trigger]
                    new_found.contains(vv) by {
                        if vv < v {
                            assert(old_found.contains(vv));
                            let k = choose|k: int|
                                0 <= k < old_found.len() && old_found[k] == vv;
                            assert(new_found[k] == vv);
                        } else {
                            assert(new_found[new_found.len() - 1] == v);
                        }
                    }
                }
            } else {
                proof {
                    assert(!is_prime_spec(v));
                    assert forall|vv: nat|
                        lower_limit <= vv < v + 1 && is_prime_spec(vv) implies #[trigger]
                    old_found.contains(vv) by {
                        assert(vv != v);
                    }
                }
            }
            i += 1;
        }
        sieve_limit = sieve_limit + i as u64;
    }

    proof {
        let s = u64s_as_nats(primes@.subrange(0, n as int));
        assert(primes@.subrange(0, n as int) =~= primes@);
        assert(s[n - 1] == primes@[n - 1] as nat);
        assert(s[n - 1] < sieve_limit) by {
            assert(s.contains(s[n - 1]));
        }
        assert forall|vv: nat|
            lower_limit <= vv < s[n - 1] + 1 && is_prime_spec(vv) implies #[trigger] s.contains(
            vv,
        ) by {
            assert(vv < sieve_limit);
        }
        assert forall|k: int| 0 <= k < n implies lower_limit <= #[trigger] s[k] < s[n - 1]
            + 1 by {
            if k < n - 1 {
                assert(s[k] < s[n - 1]);
            }
        }
        // The collected primes witness that enough primes lie below `mem`².
        assert(prime_count_below((mem * mem) as nat) >= prime_count_below(lower_limit as nat)
            + n) by {
            assert(sieve_limit == primes@[n - 1] as nat + 1);
            assert(sieve_limit <= mem_sqr) by {
                assert((primes@[n - 1] as nat) < (mem * mem) as nat);
            }
            lemma_prime_count_monotone(sieve_limit as nat, (mem * mem) as nat);
        }
    }
    Ok(primes)
}

/// Reads one flag out of the window.
fn window_flag(s: &Vec<bool>, i: usize) -> (r: bool)
    requires
        i < s.len(),
    ensures
        r == s@[i as int],
{
    s[i]
}

} // verus!
