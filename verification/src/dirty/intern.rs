use vstd::prelude::*;

use core::cmp::Ordering;
use vstd::std_specs::cmp::PartialOrdSpecImpl;

use super::key::{DenseKey, Key};

verus! {

/// A compact id handed out by an interner, usable as a dense key.
#[derive(Copy, Clone, Debug, Eq, PartialEq, Structural, Hash, Ord)]
pub struct InternId(pub u32);

impl PartialOrd for InternId {
    fn partial_cmp(&self, other: &Self) -> (r: Option<Ordering>) {
        self.0.partial_cmp(&other.0)
    }
}

impl PartialOrdSpecImpl for InternId {
    open spec fn obeys_partial_cmp_spec() -> bool {
        true
    }

    open spec fn partial_cmp_spec(&self, other: &Self) -> Option<Ordering> {
        if self.0 < other.0 {
            Some(Ordering::Less)
        } else if self.0 > other.0 {
            Some(Ordering::Greater)
        } else {
            Some(Ordering::Equal)
        }
    }
}

impl InternId {
    /// Returns this id as a `usize` index (for tables keyed by intern ids).
    pub fn as_usize(self) -> (r: usize)
        ensures
            r == self.0 as usize,
    {
        self.0 as usize
    }

    /// The id whose number is `n`, the count of keys interned before it.
    pub(crate) fn from_count(n: usize) -> (r: InternId)
        requires
            n <= u32::MAX,
        ensures
            r.0 == n,
    {
        InternId(n as u32)
    }

    /// Returns the raw numeric id.
    pub fn as_u32(self) -> (r: u32)
        ensures
            r == self.0,
    {
        self.0
    }
}

impl Key for InternId {
    fn key_eq(&self, other: &Self) -> (r: bool) {
        self.0 == other.0
    }
}

impl DenseKey for InternId {
    open spec fn spec_index(self) -> usize {
        self.0 as usize
    }

    fn index(self) -> (r: usize) {
        self.as_usize()
    }

    proof fn lemma_index_injective(a: Self, b: Self) {
    }

    proof fn lemma_index_order(a: Self, b: Self) {
    }
}

} // verus!
