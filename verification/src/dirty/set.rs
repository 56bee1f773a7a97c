use vstd::prelude::*;

use super::channel::Channel;
use super::graph::copy_keys;
use super::key::Key;

verus! {

/// `s` with the (unique) occurrence of `x` removed, order kept.
pub open spec fn seq_remove_key<K>(s: Seq<K>, x: K) -> Seq<K> {
    if s.contains(x) {
        s.remove(s.index_of(x))
    } else {
        s
    }
}

/// Removing a key from a duplicate-free sequence removes exactly that key.
pub proof fn lemma_seq_remove_key<K>(s: Seq<K>, x: K)
    requires
        s.no_duplicates(),
    ensures
        seq_remove_key(s, x).no_duplicates(),
        forall|y: K| #[trigger] seq_remove_key(s, x).contains(y) == (s.contains(y) && y != x),
        !s.contains(x) ==> seq_remove_key(s, x) == s,
        s.contains(x) ==> seq_remove_key(s, x).len() == s.len() - 1,
{
    if s.contains(x) {
        let i = s.index_of(x);
        let r = s.remove(i);
        assert forall|y: K| #[trigger] r.contains(y) == (s.contains(y) && y != x) by {
            if r.contains(y) {
                let j = choose|j: int| 0 <= j < r.len() && r[j] == y;
                if j < i {
                    assert(s[j] == y);
                } else {
                    assert(s[j + 1] == y);
                }
            }
            if s.contains(y) && y != x {
                let j = choose|j: int| 0 <= j < s.len() && s[j] == y;
                if j < i {
                    assert(r[j] == y);
                } else {
                    assert(j != i);
                    assert(r[j - 1] == y);
                }
            }
        }
        assert forall|a: int, b: int| 0 <= a < r.len() && 0 <= b < r.len() && a != b implies r[a] != r[b] by {
            let sa = if a < i { a } else { a + 1 };
            let sb = if b < i { b } else { b + 1 };
            assert(r[a] == s[sa]);
            assert(r[b] == s[sb]);
        }
    }
}

/// Accumulated dirty keys per channel, with a generation counter.
///
/// Each channel holds a duplicate-free list of keys in marking order. The
/// generation advances (wrapping) every time a key becomes newly dirty, so
/// a computation can detect that its inputs were invalidated meanwhile.
#[derive(Debug, Clone)]
pub struct DirtySet<K> {
    channels: Vec<Vec<K>>,
    generation: u64,
}

impl<K: Key> DirtySet<K> {
    /// The dirty keys of channel `c`, in marking order.
    pub closed spec fn keys(self, c: nat) -> Seq<K> {
        if c < self.channels@.len() {
            self.channels@[c as int]@
        } else {
            Seq::empty()
        }
    }

    /// The generation counter.
    pub closed spec fn gen(self) -> u64 {
        self.generation
    }

    /// Internal consistency: 64 duplicate-free channel lists.
    pub closed spec fn wf(self) -> bool {
        &&& self.channels@.len() == 64
        &&& forall|c: nat| #[trigger] self.keys(c).no_duplicates()
    }

    /// Every channel's keys are duplicate-free; channels past 64 are empty.
    pub proof fn lemma_wf_facts(self)
        requires
            self.wf(),
        ensures
            forall|c: nat| #[trigger] self.keys(c).no_duplicates(),
            forall|c: nat| c >= 64 ==> #[trigger] self.keys(c).len() == 0,
    {
    }

    /// Creates an empty dirty set with generation 0.
    pub fn new() -> (s: Self)
        ensures
            s.wf(),
            s.gen() == 0,
            forall|c: nat| #[trigger] s.keys(c) == Seq::<K>::empty(),
    {
        let mut channels: Vec<Vec<K>> = Vec::new();
        let mut i: usize = 0;
        while i < 64
            invariant
                i <= 64,
                channels@.len() == i,
                forall|j: int| 0 <= j < i ==> (#[trigger] channels@[j])@.len() == 0,
            decreases 64 - i,
        {
            channels.push(Vec::new());
            i += 1;
        }
        let s = DirtySet { channels, generation: 0 };
        assert forall|c: nat| #[trigger] s.keys(c) == Seq::<K>::empty() by {
            if c < 64 {
                assert(s.keys(c).len() == 0);
            }
        }
        s
    }

    /// Returns the current generation.
    pub fn generation(&self) -> (r: u64)
        ensures
            r == self.gen(),
    {
        self.generation
    }

    /// Marks `key` dirty in `channel`. Returns `true` if it was newly marked;
    /// then the key is appended and the generation advances.
    pub fn mark(&mut self, key: K, channel: Channel) -> (r: bool)
        requires
            old(self).wf(),
        ensures
            final(self).wf(),
            r == !old(self).keys(channel.idx()).contains(key),
            r ==> final(self).keys(channel.idx()) == old(self).keys(channel.idx()).push(key),
            r ==> final(self).gen() == old(self).gen().wrapping_add(1),
            !r ==> final(self).keys(channel.idx()) == old(self).keys(channel.idx()),
            !r ==> final(self).gen() == old(self).gen(),
            forall|c: nat| c != channel.idx() ==> #[trigger] final(self).keys(c) == old(self).keys(c),
    {
        let ch = channel.index() as usize;
        let ghost c = channel.idx();
        if vec_contains_key(&self.channels[ch], key) {
            return false;
        }
        let ghost before = self.keys(c);
        proof {
            assert(before.no_duplicates());
            lemma_push_no_dup(before, key);
        }
        self.channels[ch].push(key);
        self.generation = self.generation.wrapping_add(1);
        proof {
            assert forall|c2: nat| #[trigger] self.keys(c2).no_duplicates() by {
                if c2 != c {
                    assert(self.keys(c2) == old(self).keys(c2));
                }
            }
        }
        true
    }

    /// Returns `true` if `key` is dirty in `channel`.
    pub fn is_dirty(&self, key: K, channel: Channel) -> (r: bool)
        requires
            self.wf(),
        ensures
            r == self.keys(channel.idx()).contains(key),
    {
        let ch = channel.index() as usize;
        vec_contains_key(&self.channels[ch], key)
    }

    /// Returns `true` if any key is dirty in `channel`.
    pub fn has_dirty(&self, channel: Channel) -> (r: bool)
        requires
            self.wf(),
        ensures
            r == (self.keys(channel.idx()).len() > 0),
    {
        let ch = channel.index() as usize;
        self.channels[ch].len() > 0
    }

    /// Returns the number of dirty keys in `channel`.
    pub fn len(&self, channel: Channel) -> (r: usize)
        requires
            self.wf(),
        ensures
            r == self.keys(channel.idx()).len(),
    {
        let ch = channel.index() as usize;
        self.channels[ch].len()
    }

    /// Returns `true` if no key is dirty in any channel.
    pub fn is_empty(&self) -> (r: bool)
        requires
            self.wf(),
        ensures
            r == (forall|c: nat| #[trigger] self.keys(c).len() == 0),
    {
        let mut i: usize = 0;
        while i < self.channels.len()
            invariant
                self.wf(),
                i <= 64,
                forall|c: nat| c < i ==> #[trigger] self.keys(c).len() == 0,
            decreases 64 - i,
        {
            if self.channels[i].len() > 0 {
                assert(self.keys(i as nat).len() > 0);
                return false;
            }
            i += 1;
        }
        true
    }

    /// Returns the dirty keys of `channel`, in marking order.
    pub fn iter(&self, channel: Channel) -> (r: Vec<K>)
        requires
            self.wf(),
        ensures
            r@ == self.keys(channel.idx()),
    {
        let ch = channel.index() as usize;
        copy_keys(&self.channels[ch])
    }

    /// Removes and returns all dirty keys of `channel`, in marking order.
    pub fn drain(&mut self, channel: Channel) -> (r: Vec<K>)
        requires
            old(self).wf(),
        ensures
            final(self).wf(),
            r@ == old(self).keys(channel.idx()),
            final(self).keys(channel.idx()) == Seq::<K>::empty(),
            forall|c: nat| c != channel.idx() ==> #[trigger] final(self).keys(c) == old(self).keys(c),
            final(self).gen() == old(self).gen(),
    {
        let ch = channel.index() as usize;
        let mut taken: Vec<K> = Vec::new();
        std::mem::swap(&mut taken, &mut self.channels[ch]);
        proof {
            assert forall|c2: nat| #[trigger] self.keys(c2).no_duplicates() by {
                if c2 != channel.idx() {
                    assert(self.keys(c2) == old(self).keys(c2));
                }
            }
        }
        taken
    }

    /// Un-marks `key` in `channel`. Returns `true` if it was dirty.
    pub fn take(&mut self, key: K, channel: Channel) -> (r: bool)
        requires
            old(self).wf(),
        ensures
            final(self).wf(),
            r == old(self).keys(channel.idx()).contains(key),
            final(self).keys(channel.idx()) == seq_remove_key(old(self).keys(channel.idx()), key),
            forall|c: nat| c != channel.idx() ==> #[trigger] final(self).keys(c) == old(self).keys(c),
            final(self).gen() == old(self).gen(),
    {
        let ch = channel.index() as usize;
        let ghost c = channel.idx();
        let ghost before = self.keys(c);
        proof {
            lemma_seq_remove_key(before, key);
        }
        match vec_position_key(&self.channels[ch], key) {
            Some(pos) => {
                proof {
                    assert(before.contains(key));
                    let w = before.index_of(key);
                    assert(before.no_duplicates());
                    assert(before[w] == before[pos as int]);
                    assert(w == pos as int);
                }
                self.channels[ch].remove(pos);
                proof {
                    assert(self.keys(c) == before.remove(pos as int));
                    assert(self.keys(c) == seq_remove_key(before, key));
                    assert forall|c2: nat| #[trigger] self.keys(c2).no_duplicates() by {
                        if c2 != c {
                            assert(self.keys(c2) == old(self).keys(c2));
                        }
                    }
                }
                true
            },
            None => false,
        }
    }

    /// Clears all dirty keys in `channel`.
    pub fn clear(&mut self, channel: Channel)
        requires
            old(self).wf(),
        ensures
            final(self).wf(),
            final(self).keys(channel.idx()) == Seq::<K>::empty(),
            forall|c: nat| c != channel.idx() ==> #[trigger] final(self).keys(c) == old(self).keys(c),
            final(self).gen() == old(self).gen(),
    {
        let ch = channel.index() as usize;
        self.channels[ch].clear();
        proof {
            assert forall|c2: nat| #[trigger] self.keys(c2).no_duplicates() by {
                if c2 != channel.idx() {
                    assert(self.keys(c2) == old(self).keys(c2));
                }
            }
        }
    }

    /// Clears all dirty keys in all channels.
    pub fn clear_all(&mut self)
        requires
            old(self).wf(),
        ensures
            final(self).wf(),
            forall|c: nat| #[trigger] final(self).keys(c) == Seq::<K>::empty(),
            final(self).gen() == old(self).gen(),
    {
        let mut i: usize = 0;
        while i < 64
            invariant
                self.channels@.len() == 64,
                i <= 64,
                self.generation == old(self).gen(),
                forall|j: int| 0 <= j < i ==> (#[trigger] self.channels@[j])@.len() == 0,
                forall|j: int| i <= j < 64 ==> #[trigger] self.channels@[j] == old(self).channels@[j],
                forall|c: nat| #[trigger] old(self).keys(c).no_duplicates(),
            decreases 64 - i,
        {
            self.channels[i].clear();
            i += 1;
        }
        proof {
            assert forall|c: nat| #[trigger] self.keys(c) == Seq::<K>::empty() by {
                if c < 64 {
                    assert(self.keys(c).len() == 0);
                }
            }
        }
    }

    /// Un-marks `key` in every channel.
    pub fn remove_key(&mut self, key: K)
        requires
            old(self).wf(),
        ensures
            final(self).wf(),
            forall|c: nat| #[trigger] final(self).keys(c) == seq_remove_key(old(self).keys(c), key),
            final(self).gen() == old(self).gen(),
    {
        let mut i: u8 = 0;
        while i < 64
            invariant
                self.wf(),
                old(self).wf(),
                i <= 64,
                self.gen() == old(self).gen(),
                forall|c: nat| #[trigger] self.keys(c)
                    == if c < i { seq_remove_key(old(self).keys(c), key) } else { old(self).keys(c) },
            decreases 64 - i,
        {
            let ghost before = *self;
            let _ = self.take(key, Channel::new(i));
            proof {
                assert forall|c: nat| #[trigger] self.keys(c)
                    == if c < i + 1 { seq_remove_key(old(self).keys(c), key) } else { old(self).keys(c) } by {
                    assert(before.keys(c) == if c < i { seq_remove_key(old(self).keys(c), key) } else { old(self).keys(c) });
                }
            }
            i += 1;
        }
        proof {
            assert forall|c: nat| #[trigger] self.keys(c) == seq_remove_key(old(self).keys(c), key) by {
                if c >= 64 {
                    assert(!old(self).keys(c).contains(key));
                    lemma_seq_remove_key(old(self).keys(c), key);
                }
            }
        }
    }
}

/// Pushing a fresh key keeps a sequence duplicate-free.
proof fn lemma_push_no_dup<K>(s: Seq<K>, x: K)
    requires
        s.no_duplicates(),
        !s.contains(x),
    ensures
        s.push(x).no_duplicates(),
{
    assert forall|a: int, b: int| 0 <= a < s.push(x).len() && 0 <= b < s.push(x).len() && a != b
        implies s.push(x)[a] != s.push(x)[b] by {
        if a == s.len() {
            assert(s[b] != x);
        } else if b == s.len() {
            assert(s[a] != x);
        }
    }
}

/// Returns `true` if `v` contains `x`.
pub fn vec_contains_key<K: Key>(v: &Vec<K>, x: K) -> (r: bool)
    ensures
        r == v@.contains(x),
{
    let mut i: usize = 0;
    while i < v.len()
        invariant
            i <= v@.len(),
            forall|j: int| 0 <= j < i ==> v@[j] != x,
        decreases v@.len() - i,
    {
        if v[i].key_eq(&x) {
            assert(v@[i as int] == x);
            return true;
        }
        i += 1;
    }
    false
}

/// Returns the first position of `x` in `v`, if any.
pub fn vec_position_key<K: Key>(v: &Vec<K>, x: K) -> (r: Option<usize>)
    ensures
        match r {
            Some(i) => i < v@.len() && v@[i as int] == x,
            None => !v@.contains(x),
        },
{
    let mut i: usize = 0;
    while i < v.len()
        invariant
            i <= v@.len(),
            forall|j: int| 0 <= j < i ==> v@[j] != x,
        decreases v@.len() - i,
    {
        if v[i].key_eq(&x) {
            return Some(i);
        }
        i += 1;
    }
    None
}

/// Removes the (unique) occurrence of `x` from a duplicate-free vector,
/// keeping the order of the rest.
pub fn vec_remove_key<K: Key>(v: &mut Vec<K>, x: K)
    requires
        old(v)@.no_duplicates(),
    ensures
        final(v)@ == seq_remove_key(old(v)@, x),
{
    match vec_position_key(v, x) {
        Some(pos) => {
            proof {
                let w = old(v)@.index_of(x);
                assert(old(v)@.contains(x));
                assert(old(v)@[w] == old(v)@[pos as int]);
            }
            v.remove(pos);
        },
        None => {},
    }
}

/// Marking a key that was not dirty and then taking it again leaves the
/// channel's dirty keys exactly as they were.
pub proof fn lemma_mark_take_roundtrip<K>(before: Seq<K>, marked: Seq<K>, after: Seq<K>, key: K)
    requires
        before.no_duplicates(),
        !before.contains(key),
        marked == before.push(key),
        after == seq_remove_key(marked, key),
    ensures
        after == before,
{
    crate::dirty::graph::lemma_push_fresh(before, key);
    crate::dirty::graph::lemma_index_of_unique(marked, key, before.len() as int);
    assert(marked.contains(key)) by { assert(marked[before.len() as int] == key); }
    assert(marked.remove(before.len() as int) =~= before);
}

} // verus!
