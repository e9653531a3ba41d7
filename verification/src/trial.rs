//! Primality testing by trial division.

use vstd::prelude::*;
use vstd::arithmetic::div_mod::{lemma_fundamental_div_mod, lemma_mod_multiples_basic};
use vstd::arithmetic::mul::lemma_mul_strict_inequality;
use crate::integer_math::isqrt;
use crate::primality::{
    is_prime_spec, lemma_composite_has_small_factor, lemma_divides_transitive,
};

verus! {

/// A step of the mod-6 wheel: once the candidates `c` and `c + 2` are ruled
/// out as divisors, every integer below `c + 6` is ruled out.
proof fn lemma_wheel_step(n: nat, c: nat)
    requires
        n % 2 != 0,
        n % 3 != 0,
        c % 6 == 5,
        c >= 5,
        n % c != 0,
        n % (c + 2) != 0,
        forall|d: nat| 1 < d < c ==> #[trigger] (n % d) != 0,
    ensures
        forall|d: nat| 1 < d < c + 6 ==> #[trigger] (n % d) != 0,
{
    let k = c as int / 6;
    lemma_fundamental_div_mod(c as int, 6);
    assert(c as int == 6 * k + 5);
    assert forall|d: nat| 1 < d < c + 6 implies #[trigger] (n % d) != 0 by {
        if d < c || d == c || d == c + 2 {
        } else if d == c + 1 {
            assert(d as int == 2 * (3 * k + 3));
            lemma_mod_multiples_basic(3 * k + 3, 2);
            assert(d % 2 == 0);
            if n % d == 0 {
                lemma_divides_transitive(n, d, 2);
            }
        } else if d == c + 3 {
            assert(d as int == 2 * (3 * k + 4));
            lemma_mod_multiples_basic(3 * k + 4, 2);
            assert(d % 2 == 0);
            if n % d == 0 {
                lemma_divides_transitive(n, d, 2);
            }
        } else if d == c + 4 {
            assert(d as int == 3 * (2 * k + 3));
            lemma_mod_multiples_basic(2 * k + 3, 3);
            assert(d % 3 == 0);
            if n % d == 0 {
                lemma_divides_transitive(n, d, 3);
            }
        } else {
            assert(d == c + 5);
            assert(d as int == 2 * (3 * k + 5));
            lemma_mod_multiples_basic(3 * k + 5, 2);
            assert(d % 2 == 0);
            if n % d == 0 {
                lemma_divides_transitive(n, d, 2);
            }
        }
    }
}

/// Returns whether `n` is prime.
///
/// Trial-divides by 2, 3 and then by the candidates of a mod-6 wheel up to
/// the square root of `n`.
pub fn is_prime(n: u32) -> (r: bool)
    ensures
        r == is_prime_spec(n as nat),
{
    if n == 2 || n == 3 {
        proof {
            assert forall|d: nat| 1 < d < n as nat implies #[trigger] ((n as nat) % d) != 0 by {
                assert(d == 2 && n == 3);
            }
        }
        true
    } else if n <= 1 || n % 2 == 0 || n % 3 == 0 {
        proof {
            if n as nat >= 2 {
                if n % 2 == 0 {
                    assert(1 < 2 < n as nat && (n as nat) % 2 == 0);
                } else {
                    assert(1 < 3 < n as nat && (n as nat) % 3 == 0);
                }
            }
        }
        false
    } else {
        let mut candidate_factor: u32 = 5;
        let root: u64 = isqrt(n as u64);
        proof {
            assert(root * root <= n < (root + 1) * (root + 1));
            assert(root <= 0xffff) by {
                if root >= 0x1_0000 {
                    vstd::arithmetic::mul::lemma_mul_upper_bound(
                        0x1_0000,
                        root as int,
                        0x1_0000,
                        root as int,
                    );
                }
            }
            assert(root < n) by {
                if root >= n {
                    vstd::arithmetic::mul::lemma_mul_upper_bound(
                        n as int,
                        root as int,
                        n as int,
                        root as int,
                    );
                    assert(n * n <= root * root);
                    lemma_mul_strict_inequality(1, n as int, n as int);
                }
            }
        }
        let bound: u64 = root + 1;
        proof {
            assert(bound >= 2) by {
                if root == 0 {
                    assert(n < 1 * 1);
                }
            }
            assert forall|d: nat| 1 < d < 5 implies #[trigger] ((n as nat) % d) != 0 by {
                if d == 4 && (n as nat) % 4 == 0 {
                    lemma_divides_transitive(n as nat, 4, 2);
                }
            }
        }
        while (candidate_factor as u64) < bound
            invariant
                5 <= n,
                n % 2 != 0,
                n % 3 != 0,
                candidate_factor % 6 == 5,
                5 <= candidate_factor <= bound + 5,
                bound <= 0x1_0000,
                bound >= 2,
                (bound - 1) * (bound - 1) <= n,
                bound - 1 < n,
                forall|d: nat| 1 < d < candidate_factor ==> #[trigger] ((n as nat) % d) != 0,
            decreases bound + 6 - candidate_factor,
        {
            if n % candidate_factor == 0 || n % (candidate_factor + 2) == 0 {
                proof {
                    if n % candidate_factor == 0 {
                        assert(1 < candidate_factor < n as nat && (n as nat) % (
                        candidate_factor as nat) == 0);
                    } else {
                        let d = (candidate_factor + 2) as nat;
                        assert(d < n as nat) by {
                            assert(candidate_factor < bound);
                            assert(candidate_factor + 2 <= bound + 1);
                            if n <= bound + 1 {
                                // n <= bound + 1 and (bound - 1)^2 <= n gives a
                                // contradiction for n >= 5.
                                assert((bound - 1) * (bound - 1) <= bound + 1);
                                assert(bound >= 3) by {
                                    if bound == 2 {
                                        assert(1 * 1 <= n);
                                        assert(n < (bound) * (bound));
                                    }
                                }
                                assert((bound - 1) * (bound - 1) >= 2 * (bound - 1)) by {
                                    vstd::arithmetic::mul::lemma_mul_inequality(
                                        2,
                                        bound - 1,
                                        bound - 1,
                                    );
                                }
                            }
                            // d == bound + 1 == n cannot divide since then n % d == 0
                            // means d <= ... handled by d < n shown above.
                        }
                        assert(1 < d < n as nat && (n as nat) % d == 0);
                    }
                }
                return false;
            }
            proof {
                lemma_wheel_step(n as nat, candidate_factor as nat);
            }
            candidate_factor += 6;
        }
        proof {
            if !is_prime_spec(n as nat) {
                lemma_composite_has_small_factor(n as nat);
                let d = choose|d: nat|
                    1 < d && d * d <= n as nat && #[trigger] ((n as nat) % d) == 0;
                assert(d < bound) by {
                    if d >= bound {
                        vstd::arithmetic::mul::lemma_mul_inequality(
                            bound as int,
                            d as int,
                            bound as int,
                        );
                        vstd::arithmetic::mul::lemma_mul_inequality(
                            bound as int,
                            d as int,
                            d as int,
                        );
                        assert(bound * bound <= d * d);
                        assert(n < bound * bound);
                    }
                }
                assert((n as nat) % d != 0);
            }
        }
        true
    }
}

} // verus!
