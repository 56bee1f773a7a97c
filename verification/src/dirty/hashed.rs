use vstd::prelude::*;

use core::hash::{BuildHasher, Hash};

use super::intern::InternId;

verus! {

/// A hash set of dense key indices, backed by `hashbrown::HashSet<usize>`.
#[verifier::external_body]
pub struct IndexSet {
    inner: hashbrown::HashSet<usize>,
}

/// The indices held by an [`IndexSet`].
pub uninterp spec fn index_set_contents(s: IndexSet) -> Set<usize>;

impl IndexSet {
    /// The indices held by the set.
    pub open spec fn contents(self) -> Set<usize> {
        index_set_contents(self)
    }

    /// Calls `hashbrown::HashSet::new`; the new set holds nothing.
    #[verifier::external_body]
    pub(crate) fn new() -> (r: IndexSet)
        ensures
            index_set_contents(r) == Set::<usize>::empty(),
    {
        IndexSet { inner: hashbrown::HashSet::new() }
    }

    /// Calls `hashbrown::HashSet::insert`; it adds `v` and returns whether `v`
    /// was absent before.
    #[verifier::external_body]
    pub(crate) fn insert(&mut self, v: usize) -> (r: bool)
        ensures
            r == !index_set_contents(*old(self)).contains(v),
            index_set_contents(*final(self)) == index_set_contents(*old(self)).insert(v),
    {
        self.inner.insert(v)
    }

    /// Calls `hashbrown::HashSet::contains`; it returns whether `v` is held.
    #[verifier::external_body]
    pub(crate) fn contains(&self, v: usize) -> (r: bool)
        ensures
            r == index_set_contents(*self).contains(v),
    {
        self.inner.contains(&v)
    }

    /// Calls `hashbrown::HashSet::clear`; afterwards the set holds nothing.
    #[verifier::external_body]
    pub(crate) fn clear(&mut self)
        ensures
            index_set_contents(*final(self)) == Set::<usize>::empty(),
    {
        self.inner.clear()
    }
}

} // verus!

verus! {

/// A hash map from dense key indices to counts, backed by
/// `hashbrown::HashMap<usize, usize>`.
#[verifier::external_body]
pub struct IndexMap {
    inner: hashbrown::HashMap<usize, usize>,
}

/// The entries held by an [`IndexMap`].
pub uninterp spec fn index_map_contents(m: IndexMap) -> Map<usize, usize>;

impl IndexMap {
    /// The entries held by the map.
    pub open spec fn contents(self) -> Map<usize, usize> {
        index_map_contents(self)
    }

    /// Calls `hashbrown::HashMap::with_capacity`; the new map is empty.
    #[verifier::external_body]
    pub(crate) fn with_capacity(cap: usize) -> (r: IndexMap)
        ensures
            index_map_contents(r).dom() == Set::<usize>::empty(),
    {
        IndexMap { inner: hashbrown::HashMap::with_capacity(cap) }
    }

    /// Calls `hashbrown::HashMap::insert`; it maps `k` to `v` and returns the
    /// previous value of `k`, if any.
    #[verifier::external_body]
    pub(crate) fn insert(&mut self, k: usize, v: usize) -> (r: Option<usize>)
        ensures
            index_map_contents(*final(self)) == index_map_contents(*old(self)).insert(k, v),
            r == if index_map_contents(*old(self)).dom().contains(k) {
                Some(index_map_contents(*old(self))[k])
            } else {
                None::<usize>
            },
    {
        self.inner.insert(k, v)
    }

    /// Calls `hashbrown::HashMap::get`; it returns the value of `k`, if any.
    #[verifier::external_body]
    pub(crate) fn get(&self, k: usize) -> (r: Option<usize>)
        ensures
            r == if index_map_contents(*self).dom().contains(k) {
                Some(index_map_contents(*self)[k])
            } else {
                None::<usize>
            },
    {
        self.inner.get(&k).copied()
    }

    /// Calls `hashbrown::HashMap::remove`; it removes `k` and returns its
    /// value, if any.
    #[verifier::external_body]
    pub(crate) fn remove(&mut self, k: usize) -> (r: Option<usize>)
        ensures
            index_map_contents(*final(self)) == index_map_contents(*old(self)).remove(k),
            r == if index_map_contents(*old(self)).dom().contains(k) {
                Some(index_map_contents(*old(self))[k])
            } else {
                None::<usize>
            },
    {
        self.inner.remove(&k)
    }

    /// Calls `hashbrown::HashMap::len`; it returns the number of entries.
    #[verifier::external_body]
    pub(crate) fn len(&self) -> (r: usize)
        ensures
            r == index_map_contents(*self).dom().len(),
    {
        self.inner.len()
    }
}

} // verus!

verus! {

#[verifier::external_type_specification]
#[verifier::external_body]
pub struct ExDefaultHashBuilder(hashbrown::DefaultHashBuilder);

/// `hashbrown::DefaultHashBuilder::clone`: a builder with the same seed;
/// nothing else is promised.
pub assume_specification[ <hashbrown::DefaultHashBuilder as Clone>::clone ](
    b: &hashbrown::DefaultHashBuilder,
) -> (r: hashbrown::DefaultHashBuilder);

/// Calls `hashbrown::DefaultHashBuilder::default`, a builder seeded afresh.
#[verifier::external_body]
pub(crate) fn new_hash_builder() -> (r: hashbrown::DefaultHashBuilder) {
    hashbrown::DefaultHashBuilder::default()
}

/// Calls `BuildHasher::hash_one` on `hashbrown::DefaultHashBuilder`. The hash
/// depends on the builder's random seed, so nothing is promised of it.
#[verifier::external_body]
pub(crate) fn hash_with<Q: Hash + ?Sized>(builder: &hashbrown::DefaultHashBuilder, key: &Q) -> (r:
    u64) {
    builder.hash_one(key)
}

/// Hash buckets of intern ids, backed by
/// `hashbrown::HashMap<u64, Vec<InternId>>`.
#[verifier::external_body]
#[derive(Debug)]
pub struct IdBuckets {
    inner: hashbrown::HashMap<u64, Vec<InternId>>,
}

/// The buckets held by an [`IdBuckets`], each an ordered list of ids.
pub uninterp spec fn id_buckets_contents(b: IdBuckets) -> Map<u64, Seq<InternId>>;

impl Clone for IdBuckets {
    fn clone(&self) -> (r: IdBuckets)
        ensures
            id_buckets_contents(r) == id_buckets_contents(*self),
    {
        self.duplicate()
    }
}

/// No bucket at all.
pub open spec fn no_buckets() -> Map<u64, Seq<InternId>> {
    Map::empty()
}

impl IdBuckets {
    /// The buckets held.
    pub open spec fn contents(self) -> Map<u64, Seq<InternId>> {
        id_buckets_contents(self)
    }

    /// Calls `hashbrown::HashMap::new`; there is no bucket.
    #[verifier::external_body]
    pub(crate) fn new() -> (r: IdBuckets)
        ensures
            id_buckets_contents(r) == no_buckets(),
    {
        IdBuckets { inner: hashbrown::HashMap::new() }
    }

    /// Calls `hashbrown::HashMap::get`; it returns the bucket of `hash`, if
    /// any.
    #[verifier::external_body]
    pub(crate) fn get(&self, hash: u64) -> (r: Option<&Vec<InternId>>)
        ensures
            match r {
                Some(ids) => id_buckets_contents(*self).contains_key(hash) && ids@
                    == id_buckets_contents(*self)[hash],
                None => !id_buckets_contents(*self).contains_key(hash),
            },
    {
        self.inner.get(&hash)
    }

    /// Calls `hashbrown::HashMap::entry(hash).or_default()` and pushes `id` on
    /// the bucket it returns: the bucket of `hash` gets `id` at its end, and is
    /// made, empty, first if there was none.
    #[verifier::external_body]
    pub(crate) fn push(&mut self, hash: u64, id: InternId)
        ensures
            id_buckets_contents(*final(self)) == id_buckets_contents(*old(self)).insert(
                hash,
                if id_buckets_contents(*old(self)).contains_key(hash) {
                    id_buckets_contents(*old(self))[hash].push(id)
                } else {
                    seq![id]
                },
            ),
    {
        self.inner.entry(hash).or_default().push(id)
    }

    /// Calls `hashbrown::HashMap::clone`; the copy holds the same buckets.
    #[verifier::external_body]
    pub(crate) fn duplicate(&self) -> (r: IdBuckets)
        ensures
            id_buckets_contents(r) == id_buckets_contents(*self),
    {
        IdBuckets { inner: self.inner.clone() }
    }

    /// Calls `hashbrown::HashMap::clear`; afterwards there is no bucket.
    #[verifier::external_body]
    pub(crate) fn clear(&mut self)
        ensures
            id_buckets_contents(*final(self)) == no_buckets(),
    {
        self.inner.clear()
    }
}

} // verus!

verus! {

/// A hash set of 64-bit ids, backed by `hashbrown::HashSet<u64>`.
#[verifier::external_body]
pub struct IdSet {
    inner: hashbrown::HashSet<u64>,
}

/// The ids held by an [`IdSet`].
pub uninterp spec fn id_set_contents(s: IdSet) -> Set<u64>;

impl IdSet {
    /// The ids held by the set.
    pub open spec fn contents(self) -> Set<u64> {
        id_set_contents(self)
    }

    /// Calls `hashbrown::HashSet::new`; the new set holds nothing.
    #[verifier::external_body]
    pub(crate) fn new() -> (r: IdSet)
        ensures
            id_set_contents(r) == Set::<u64>::empty(),
    {
        IdSet { inner: hashbrown::HashSet::new() }
    }

    /// Calls `hashbrown::HashSet::insert`; it adds `v` and returns whether `v`
    /// was absent before.
    #[verifier::external_body]
    pub(crate) fn insert(&mut self, v: u64) -> (r: bool)
        ensures
            r == !id_set_contents(*old(self)).contains(v),
            id_set_contents(*final(self)) == id_set_contents(*old(self)).insert(v),
    {
        self.inner.insert(v)
    }

    /// Calls `hashbrown::HashSet::is_empty`; it returns whether no id is held.
    #[verifier::external_body]
    pub(crate) fn is_empty(&self) -> (r: bool)
        ensures
            r == (id_set_contents(*self) == Set::<u64>::empty()),
    {
        self.inner.is_empty()
    }

    /// Collects the ids of `hashbrown::HashSet::iter`: each held id once, in
    /// the set's iteration order, which nothing here fixes.
    #[verifier::external_body]
    pub(crate) fn values(&self) -> (r: Vec<u64>)
        ensures
            r@.no_duplicates(),
            r@.to_set() == id_set_contents(*self),
    {
        self.inner.iter().copied().collect()
    }
}

} // verus!
