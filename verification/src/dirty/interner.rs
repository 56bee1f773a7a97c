//! Interning of owned keys into compact [`InternId`] handles.
use vstd::prelude::*;

use core::hash::Hash;
use vstd::std_specs::cmp::PartialEqSpec;

use super::hashed::{hash_with, new_hash_builder, IdBuckets};
use super::intern::InternId;

verus! {

/// Interns owned keys into compact [`InternId`] handles.
///
/// Each key is stored once; a hash-bucket index (hash to candidate ids)
/// finds an equal key again.
#[derive(Debug, Clone)]
pub struct Interner<K> {
    keys: Vec<K>,
    buckets: IdBuckets,
    build_hasher: hashbrown::DefaultHashBuilder,
}

impl<K: Eq + Hash> Interner<K> {
    /// The interned keys; the key of id `i` is at index `i`.
    pub closed spec fn keys_view(self) -> Seq<K> {
        self.keys@
    }

    /// Every id in the bucket index names an interned key, and no interned
    /// key equals one interned after it.
    pub closed spec fn wf(self) -> bool {
        &&& forall|h: u64, j: int|
            #![trigger self.buckets.contents()[h][j]]
            self.buckets.contents().contains_key(h) && 0 <= j < self.buckets.contents()[h].len()
                ==> self.buckets.contents()[h][j].0 < self.keys@.len()
        &&& K::obeys_eq_spec() ==> forall|i: int, j: int|
            0 <= i < j < self.keys@.len() ==> !(#[trigger] self.keys@[i].eq_spec(&#[trigger] self.keys@[j]))
    }

    /// Each key is interned once: no interned key equals a key interned
    /// after it.
    pub proof fn lemma_keys_distinct(self)
        requires
            self.wf(),
        ensures
            K::obeys_eq_spec() ==> forall|i: int, j: int|
                0 <= i < j < self.keys_view().len() ==> !(#[trigger] self.keys_view()[i].eq_spec(&#[trigger] self.keys_view()[j])),
    {
    }

    /// An empty interner.
    pub fn new() -> (r: Self)
        ensures
            r.wf(),
            r.keys_view() == Seq::<K>::empty(),
    {
        Interner { keys: Vec::new(), buckets: IdBuckets::new(), build_hasher: new_hash_builder() }
    }

    /// The number of interned keys.
    pub fn len(&self) -> (r: usize)
        ensures
            r == self.keys_view().len(),
    {
        self.keys.len()
    }

    /// Whether no key is interned.
    pub fn is_empty(&self) -> (r: bool)
        ensures
            r == (self.keys_view().len() == 0),
    {
        self.keys.len() == 0
    }

    /// The key of `id`, if `id` is in range.
    pub fn get(&self, id: InternId) -> (r: Option<&K>)
        ensures
            match r {
                Some(k) => id.0 < self.keys_view().len() && *k == self.keys_view()[id.0 as int],
                None => id.0 >= self.keys_view().len(),
            },
    {
        let i = id.as_usize();
        if i < self.keys.len() {
            Some(&self.keys[i])
        } else {
            None
        }
    }

    /// Interns `key`: returns the id of an equal interned key when there is
    /// one (looked up first in the bucket of its hash), otherwise appends
    /// `key` and returns its new id.
    pub fn intern(&mut self, key: K) -> (r: InternId)
        requires
            old(self).wf(),
            old(self).keys_view().len() <= u32::MAX,
        ensures
            final(self).wf(),
            r.0 < final(self).keys_view().len(),
            (final(self).keys_view() == old(self).keys_view() && r.0 < old(self).keys_view().len()
                && (K::obeys_eq_spec() ==> old(self).keys_view()[r.0 as int].eq_spec(&key)))
                || (final(self).keys_view() == old(self).keys_view().push(key) && r.0 == old(
                self,
            ).keys_view().len()),
            K::obeys_eq_spec() && (exists|i: int| 0 <= i < old(self).keys_view().len() && #[trigger] old(self).keys_view()[i].eq_spec(&key))
                ==> final(self).keys_view() == old(self).keys_view() && old(self).keys_view()[r.0 as int].eq_spec(&key),
            K::obeys_eq_spec() && !(exists|i: int| 0 <= i < old(self).keys_view().len() && #[trigger] old(self).keys_view()[i].eq_spec(&key))
                ==> final(self).keys_view() == old(self).keys_view().push(key) && r.0 == old(self).keys_view().len(),
    {
        let hash = hash_with(&self.build_hasher, &key);
        match self.buckets.get(hash) {
            Some(ids) => {
                let mut i: usize = 0;
                while i < ids.len()
                    invariant
                        i <= ids.len(),
                        ids@ == self.buckets.contents()[hash],
                        self.buckets.contents().contains_key(hash),
                        self.wf(),
                    decreases ids.len() - i,
                {
                    let id = ids[i];
                    assert(self.buckets.contents()[hash][i as int] == id);
                    let at = id.as_usize();
                    if self.keys[at] == key {
                        return id;
                    }
                    i = i + 1;
                }
            },
            None => {},
        }
        let mut i: usize = 0;
        while i < self.keys.len()
            invariant
                self.wf(),
                *self == *old(self),
                self.keys@.len() <= u32::MAX,
                i <= self.keys@.len(),
                K::obeys_eq_spec() ==> forall|m: int| 0 <= m < i ==> !(#[trigger] self.keys@[m].eq_spec(&key)),
            decreases self.keys@.len() - i,
        {
            if self.keys[i] == key {
                return InternId::from_count(i);
            }
            i = i + 1;
        }
        let id = InternId::from_count(self.keys.len());
        let ghost before = self.buckets.contents();
        self.keys.push(key);
        self.buckets.push(hash, id);
        proof {
            assert forall|h: u64, j: int|
                self.buckets.contents().contains_key(h) && 0 <= j < self.buckets.contents()[h].len()
                    implies #[trigger] self.buckets.contents()[h][j].0 < self.keys@.len() by {
                if h != hash || (before.contains_key(hash) && j < before[hash].len()) {
                    assert(self.buckets.contents()[h][j] == before[h][j]);
                }
            }
            if K::obeys_eq_spec() {
                assert forall|a: int, b: int| 0 <= a < b < self.keys@.len() implies !(#[trigger] self.keys@[a].eq_spec(
                    &#[trigger] self.keys@[b],
                )) by {
                    if b < old(self).keys@.len() {
                        assert(old(self).keys@[a] == self.keys@[a]);
                        assert(old(self).keys@[b] == self.keys@[b]);
                    } else {
                        assert(self.keys@[b] == key);
                        assert(old(self).keys@[a] == self.keys@[a]);
                    }
                }
            }
        }
        id
    }

    /// Forgets every key; ids handed out before no longer name a key.
    pub fn clear(&mut self)
        ensures
            final(self).wf(),
            final(self).keys_view() == Seq::<K>::empty(),
    {
        self.keys.clear();
        self.buckets.clear();
    }
}

impl<K: Eq + Hash> Default for Interner<K> {
    fn default() -> (r: Self)
        ensures
            r.wf(),
            r.keys_view() == Seq::<K>::empty(),
    {
        Self::new()
    }
}

} // verus!
