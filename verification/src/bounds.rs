//! Range bounds over byte-string keys.

use vstd::prelude::*;

use crate::byte_order::{key_le, key_less, key_less_eq, key_lt};

verus! {

/// One end of a key range.
#[derive(Debug)]
pub enum KeyBound {
    /// The endpoint itself is inside the range.
    Included(Vec<u8>),
    /// The endpoint itself is outside the range.
    Excluded(Vec<u8>),
    /// No constraint from this end.
    Unbounded,
}

impl KeyBound {
    /// `k` is at or above this bound, read as a lower bound.
    pub open spec fn admits_from_below(self, k: Seq<u8>) -> bool {
        match self {
            KeyBound::Included(b) => key_le(b@, k),
            KeyBound::Excluded(b) => key_lt(b@, k),
            KeyBound::Unbounded => true,
        }
    }

    /// `k` is at or below this bound, read as an upper bound.
    pub open spec fn admits_from_above(self, k: Seq<u8>) -> bool {
        match self {
            KeyBound::Included(b) => key_le(k, b@),
            KeyBound::Excluded(b) => key_lt(k, b@),
            KeyBound::Unbounded => true,
        }
    }
}

/// Executable check of a lower bound.
pub fn lower_bound_admits(b: &KeyBound, k: &[u8]) -> (r: bool)
    ensures
        r == b.admits_from_below(k@),
{
    match b {
        KeyBound::Included(lb) => key_less_eq(lb.as_slice(), k),
        KeyBound::Excluded(lb) => key_less(lb.as_slice(), k),
        KeyBound::Unbounded => true,
    }
}

/// Executable check of an upper bound.
pub fn upper_bound_admits(b: &KeyBound, k: &[u8]) -> (r: bool)
    ensures
        r == b.admits_from_above(k@),
{
    match b {
        KeyBound::Included(ub) => key_less_eq(k, ub.as_slice()),
        KeyBound::Excluded(ub) => key_less(k, ub.as_slice()),
        KeyBound::Unbounded => true,
    }
}

} // verus!
