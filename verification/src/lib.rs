//! Prime number computation with verified contracts.
//!
//! The crate sieves the first `n` integers for primality with a sieve of
//! Eratosthenes, extends that base sieve to an arbitrary window with a
//! segmented sieve, and builds prime lists, prime counts and a binary-search
//! prime cache on top of those primitives.  A deterministic Miller-Rabin test
//! answers single-number queries for 64-bit integers.

pub mod array_section;
pub mod cache;
pub mod check;
pub mod count;
pub mod extending_cache;
pub mod extras;
pub mod generation;
pub mod integer_math;
pub mod other_prime;
pub mod primality;
pub mod prime_factors;
pub mod restricted_array;
pub mod search;
pub mod segmented_generation_result;
pub mod sieve;
pub mod trial;

pub use array_section::{
    ArraySection, ArraySectionIter, ArraySectionIntoIter, TryFromArraySectionError,
};
pub use segmented_generation_result::SegmentedGenerationResult;
pub use cache::{PartialTotient, Primes, PrimesIter, PrimesIntoIter};
pub use extending_cache::ExtendingPrimes;
pub use restricted_array::{RestrictedArray, RestrictedArrayIntoIter};
pub use check::is_prime;
pub use count::prime_pi;
pub use generation::{primes, primes_lt, primes_geq, GenerationError};
pub use integer_math::{isqrt, mod_mul, mod_pow};
pub use other_prime::{largest_prime_lt, smallest_prime_gt};
pub use prime_factors::{PrimeFactorization, PrimeFactors};
pub use search::{next_prime, previous_prime};
pub use sieve::{sieve, sieve_lt, sieve_geq, SieveError};
