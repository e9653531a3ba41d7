//! A generation result that is either a completely filled buffer of primes
//! or a partially filled one with an explicit valid range.

use vstd::prelude::*;
use crate::restricted_array::RestrictedArray;

verus! {

/// Describes whether a requested buffer of primes could be filled
/// completely, or only partially.
pub enum SegmentedGenerationResult {
    /// The whole range could be sieved and every entry holds a prime.
    Complete(Vec<u64>),
    /// Only the visible part of the buffer holds primes.
    Partial(RestrictedArray<u64>),
}

impl SegmentedGenerationResult {
    /// Returns the complete buffer, if there is one.
    pub fn complete(self) -> (r: Option<Vec<u64>>)
        ensures
            match r {
                Some(v) => self is Complete && v@ == self->Complete_0@,
                None => self is Partial,
            },
    {
        match self {
            Self::Complete(array) => Some(array),
            Self::Partial(_) => None,
        }
    }

    /// Returns the partially visible buffer, if there is one.
    pub fn partial(self) -> (r: Option<RestrictedArray<u64>>)
        ensures
            match r {
                Some(v) => self is Partial && v@ == self->Partial_0@,
                None => self is Complete,
            },
    {
        match self {
            Self::Complete(_) => None,
            Self::Partial(restricted) => Some(restricted),
        }
    }

    /// Returns `true` if every entry of the buffer holds a prime.
    pub fn is_complete(&self) -> (r: bool)
        ensures
            r == (self is Complete),
    {
        match self {
            Self::Complete(_) => true,
            Self::Partial(_) => false,
        }
    }

    /// Returns `true` if only a part of the buffer holds primes.
    pub fn is_partial(&self) -> (r: bool)
        ensures
            r == (self is Partial),
    {
        match self {
            Self::Complete(_) => false,
            Self::Partial(_) => true,
        }
    }

    /// Returns the valid primes as a slice.
    pub fn as_slice(&self) -> (r: &[u64])
        ensures
            match self {
                Self::Complete(v) => r@ == v@,
                Self::Partial(p) => r@ == p.visible(),
            },
    {
        match self {
            Self::Complete(array) => array.as_slice(),
            Self::Partial(restricted) => restricted.as_slice(),
        }
    }

    /// Returns how many valid primes the result holds.
    pub fn len(&self) -> (r: usize)
        ensures
            match self {
                Self::Complete(v) => r == v@.len(),
                Self::Partial(p) => r == p@.2 - p@.1,
            },
    {
        match self {
            Self::Complete(array) => array.len(),
            Self::Partial(restricted) => restricted.len(),
        }
    }
}

} // verus!
