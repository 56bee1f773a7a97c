use vstd::prelude::*;

use core::cmp::Ordering;
use vstd::std_specs::cmp::PartialOrdSpec;

verus! {

/// Keys that can be compared for equality in verified code.
///
/// Every key type used with [`DirtySet`](crate::dirty::DirtySet) implements
/// this trait; `key_eq` must agree with equality of values.
pub trait Key: Copy + Sized {
    /// Returns `true` exactly when `self` and `other` are the same key.
    fn key_eq(&self, other: &Self) -> (r: bool)
        ensures
            r == (*self == *other),
    ;
}

/// Trait for keys that can be used as dense `Vec` indices.
///
/// Keys must map to compact sequential `usize` indices (typically starting
/// from 0), and distinct keys must map to distinct indices. The index order
/// must be the key's own order: deterministic drains yield the ready key of
/// smallest index, which is thereby the smallest key.
pub trait DenseKey: Key + PartialOrd {
    /// The dense index of this key.
    spec fn spec_index(self) -> usize;

    /// Returns this key as a `usize` index for dense `Vec` storage.
    fn index(self) -> (r: usize)
        ensures
            r == self.spec_index(),
    ;

    /// Distinct keys have distinct indices.
    proof fn lemma_index_injective(a: Self, b: Self)
        requires
            a.spec_index() == b.spec_index(),
        ensures
            a == b,
    ;

    /// The index order is the key's order: `a` is less than `b` exactly
    /// when its index is smaller.
    proof fn lemma_index_order(a: Self, b: Self)
        ensures
            Self::obeys_partial_cmp_spec(),
            (a.partial_cmp_spec(&b) == Some(Ordering::Less)) <==> a.spec_index() < b.spec_index(),
    ;
}

/// Whether some key has dense index `i`.
pub open spec fn is_key_index<K: DenseKey>(i: int) -> bool {
    exists|k: K| k.spec_index() == i
}

impl Key for u32 {
    fn key_eq(&self, other: &Self) -> (r: bool) {
        *self == *other
    }
}

impl DenseKey for u32 {
    open spec fn spec_index(self) -> usize {
        self as usize
    }

    fn index(self) -> (r: usize) {
        self as usize
    }

    proof fn lemma_index_injective(a: Self, b: Self) {
    }

    proof fn lemma_index_order(a: Self, b: Self) {
    }
}

impl Key for i32 {
    fn key_eq(&self, other: &Self) -> (r: bool) {
        *self == *other
    }
}

impl Key for u64 {
    fn key_eq(&self, other: &Self) -> (r: bool) {
        *self == *other
    }
}

impl Key for usize {
    fn key_eq(&self, other: &Self) -> (r: bool) {
        *self == *other
    }
}

impl DenseKey for usize {
    open spec fn spec_index(self) -> usize {
        self
    }

    fn index(self) -> (r: usize) {
        self
    }

    proof fn lemma_index_injective(a: Self, b: Self) {
    }

    proof fn lemma_index_order(a: Self, b: Self) {
    }
}

} // verus!
