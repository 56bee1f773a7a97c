use vstd::prelude::*;

use super::channel::{Channel, ChannelSet};
use super::hashed::IndexSet;
use super::key::{is_key_index, DenseKey, Key};
use super::scratch::TraversalScratch;

verus! {

/// Error returned when a cycle would be created by adding a dependency.
#[derive(Copy, Clone, Debug, PartialEq, Eq)]
pub struct CycleError<K> {
    /// The key that would depend on another.
    pub from: K,
    /// The key that would be depended upon.
    pub to: K,
    /// The channel where the cycle would occur.
    pub channel: Channel,
}

/// How to handle cycle detection when adding dependencies.
#[derive(Copy, Clone, Debug, PartialEq, Eq, Structural, Hash, Default)]
pub enum CycleHandling {
    /// The default: a would-be cycle is not added and `Ok(false)` is
    /// returned. This library does not panic on it in any build.
    #[default]
    DebugAssert,
    /// Return an error if a cycle would be created.
    Error,
    /// Silently ignore the dependency if it would create a cycle.
    Ignore,
    /// Skip cycle detection entirely (self-dependencies are still refused).
    Allow,
}

/// The adjacency list at channel `c`, dense index `i` (empty when absent).
pub open spec fn slot<K>(v: Seq<Vec<Vec<K>>>, c: int, i: int) -> Seq<K> {
    if 0 <= c < v.len() && 0 <= i < v[c]@.len() {
        v[c]@[i]@
    } else {
        Seq::empty()
    }
}

/// The cached channel set at dense index `i` (empty when absent).
pub open spec fn chan_slot(v: Seq<ChannelSet>, i: int) -> Set<nat> {
    if 0 <= i < v.len() {
        v[i]@
    } else {
        Set::empty()
    }
}

/// `s` with position `i` removed by moving the last element into its place.
pub open spec fn swap_remove_seq<K>(s: Seq<K>, i: int) -> Seq<K> {
    s.update(i, s.last()).drop_last()
}

/// `s` with `x` swap-removed, or `s` itself when `x` does not occur.
pub open spec fn without<K>(s: Seq<K>, x: K) -> Seq<K> {
    if s.contains(x) {
        swap_remove_seq(s, s.index_of(x))
    } else {
        s
    }
}

/// `s` with each value of `xs` removed in turn.
pub open spec fn without_all<K>(s: Seq<K>, xs: Seq<K>) -> Seq<K>
    decreases xs.len(),
{
    if xs.len() == 0 {
        s
    } else {
        without(without_all(s, xs.drop_last()), xs.last())
    }
}

/// Swap-removing from a duplicate-free sequence removes exactly one value.
pub proof fn lemma_swap_remove<K>(s: Seq<K>, i: int)
    requires
        s.no_duplicates(),
        0 <= i < s.len(),
    ensures
        swap_remove_seq(s, i).no_duplicates(),
        swap_remove_seq(s, i).len() == s.len() - 1,
        forall|x: K| #[trigger]
            swap_remove_seq(s, i).contains(x) == (s.contains(x) && x != s[i]),
{
    let r = swap_remove_seq(s, i);
    assert forall|x: K| #[trigger] r.contains(x) == (s.contains(x) && x != s[i]) by {
        if r.contains(x) {
            let j = choose|j: int| 0 <= j < r.len() && r[j] == x;
            if j == i {
                assert(x == s[s.len() - 1]);
            } else {
                assert(x == s[j]);
            }
        }
        if s.contains(x) && x != s[i] {
            let j = choose|j: int| 0 <= j < s.len() && s[j] == x;
            if j == s.len() - 1 {
                assert(r[i] == x);
            } else {
                assert(r[j] == x);
            }
        }
    }
}

/// The dense indices of the keys in `s`.
pub open spec fn key_indices<K: DenseKey>(s: Seq<K>) -> Seq<int> {
    s.map_values(|t: K| t.spec_index() as int)
}

/// In a duplicate-free sequence, `index_of` finds the unique position.
pub proof fn lemma_index_of_unique<K>(s: Seq<K>, x: K, p: int)
    requires
        s.no_duplicates(),
        0 <= p < s.len(),
        s[p] == x,
    ensures
        s.index_of(x) == p,
{
    assert(s.contains(x));
    let w = s.index_of(x);
    assert(0 <= w < s.len() && s[w] == x);
}

/// Removing `x` with [`without`] keeps the sequence duplicate-free and
/// removes exactly `x`.
pub proof fn lemma_without<K>(s: Seq<K>, x: K)
    requires
        s.no_duplicates(),
    ensures
        without(s, x).no_duplicates(),
        forall|y: K| #[trigger] without(s, x).contains(y) == (s.contains(y) && y != x),
        s.contains(x) ==> without(s, x).len() == s.len() - 1,
        !s.contains(x) ==> without(s, x) == s,
{
    if s.contains(x) {
        let i = s.index_of(x);
        lemma_swap_remove(s, i);
    }
}

/// What a pushed sequence contains.
pub proof fn lemma_push_contains<K>(s: Seq<K>, x: K)
    ensures
        forall|y: K| #[trigger] s.push(x).contains(y) == (s.contains(y) || y == x),
{
    assert forall|y: K| #[trigger] s.push(x).contains(y) == (s.contains(y) || y == x) by {
        if s.push(x).contains(y) {
            let j = choose|j: int| 0 <= j < s.push(x).len() && s.push(x)[j] == y;
            if j < s.len() {
                assert(s[j] == y);
            }
        }
        if s.contains(y) {
            let j = choose|j: int| 0 <= j < s.len() && s[j] == y;
            assert(s.push(x)[j] == y);
        }
        if y == x {
            assert(s.push(x)[s.len() as int] == y);
        }
    }
}

/// Pushing a fresh value keeps a sequence duplicate-free.
pub proof fn lemma_push_fresh<K>(s: Seq<K>, x: K)
    requires
        s.no_duplicates(),
        !s.contains(x),
    ensures
        s.push(x).no_duplicates(),
        forall|y: K| #[trigger] s.push(x).contains(y) == (s.contains(y) || y == x),
{
    assert forall|y: K| #[trigger] s.push(x).contains(y) == (s.contains(y) || y == x) by {
        if s.push(x).contains(y) {
            let j = choose|j: int| 0 <= j < s.push(x).len() && s.push(x)[j] == y;
            if j < s.len() {
                assert(s[j] == y);
            }
        }
        if s.contains(y) {
            let j = choose|j: int| 0 <= j < s.len() && s[j] == y;
            assert(s.push(x)[j] == y);
        }
        if y == x {
            assert(s.push(x)[s.len() as int] == y);
        }
    }
}

/// Dependency graph: "A depends on B" edges per channel.
///
/// `DirtyGraph` stores bidirectional dependency edges, so both "what does A
/// depend on?" and "what depends on A?" are direct lookups. Dependencies are
/// stored per channel, so layout dependencies are independent of paint
/// dependencies.
#[derive(Debug, Clone)]
pub struct DirtyGraph<K> {
    /// `forward[channel][key index]`: keys that `key` depends on.
    forward: Vec<Vec<Vec<K>>>,
    /// `reverse[channel][key index]`: keys that depend on `key`.
    reverse: Vec<Vec<Vec<K>>>,
    /// Channels in which each key has any dependencies.
    forward_channels: Vec<ChannelSet>,
    /// Channels in which each key has any dependents.
    reverse_channels: Vec<ChannelSet>,
}

/// `x` occurs in some adjacency list of `v`.
pub open spec fn in_some_slot<K>(v: Seq<Vec<Vec<K>>>, x: K) -> bool {
    exists|c: int, i: int| #[trigger] slot(v, c, i).contains(x)
}

/// Appends to `out` every key that occurs in the adjacency lists `lists` of
/// the first 64 channels and is not yet in `visited` (by index).
fn collect_slot_keys<K: DenseKey>(lists: &Vec<Vec<Vec<K>>>, out: &mut Vec<K>, visited: &mut IndexSet)
    requires
        lists@.len() == 64,
        old(out)@.no_duplicates(),
        forall|i: usize| #[trigger] old(visited).contents().contains(i) <==> key_indices(old(out)@).contains(i as int),
    ensures
        final(out)@.no_duplicates(),
        forall|i: usize| #[trigger] final(visited).contents().contains(i) <==> key_indices(final(out)@).contains(i as int),
        forall|x: K| #[trigger] final(out)@.contains(x) ==> old(out)@.contains(x) || in_some_slot(lists@, x),
        forall|x: K| #[trigger] old(out)@.contains(x) ==> final(out)@.contains(x),
        forall|c: int, i: int, x: K| #[trigger] slot(lists@, c, i).contains(x) ==> final(out)@.contains(x),
{
    let ghost out0 = out@;
    let mut ch: usize = 0;
    while ch < 64
        invariant
            lists@.len() == 64,
            ch <= 64,
            out@.no_duplicates(),
            forall|i: usize| #[trigger] visited.contents().contains(i) <==> key_indices(out@).contains(i as int),
            forall|x: K| #[trigger] out@.contains(x) ==> out0.contains(x) || in_some_slot(lists@, x),
            forall|x: K| #[trigger] out0.contains(x) ==> out@.contains(x),
            forall|c: int, i: int, x: K| 0 <= c < ch && #[trigger] slot(lists@, c, i).contains(x) ==> out@.contains(x),
        decreases 64 - ch,
    {
        let mut i: usize = 0;
        while i < lists[ch].len()
            invariant
                lists@.len() == 64,
                ch < 64,
                i <= lists@[ch as int]@.len(),
                out@.no_duplicates(),
                forall|q: usize| #[trigger] visited.contents().contains(q) <==> key_indices(out@).contains(q as int),
                forall|x: K| #[trigger] out@.contains(x) ==> out0.contains(x) || in_some_slot(lists@, x),
                forall|x: K| #[trigger] out0.contains(x) ==> out@.contains(x),
                forall|c: int, i2: int, x: K| 0 <= c < ch && #[trigger] slot(lists@, c, i2).contains(x) ==> out@.contains(x),
                forall|i2: int, x: K| 0 <= i2 < i && #[trigger] slot(lists@, ch as int, i2).contains(x) ==> out@.contains(x),
            decreases lists@[ch as int]@.len() - i,
        {
            let mut j: usize = 0;
            while j < lists[ch][i].len()
                invariant
                    lists@.len() == 64,
                    ch < 64,
                    i < lists@[ch as int]@.len(),
                    j <= lists@[ch as int]@[i as int]@.len(),
                    out@.no_duplicates(),
                    forall|q: usize| #[trigger] visited.contents().contains(q) <==> key_indices(out@).contains(q as int),
                    forall|x: K| #[trigger] out@.contains(x) ==> out0.contains(x) || in_some_slot(lists@, x),
                    forall|x: K| #[trigger] out0.contains(x) ==> out@.contains(x),
                    forall|c: int, i2: int, x: K| 0 <= c < ch && #[trigger] slot(lists@, c, i2).contains(x) ==> out@.contains(x),
                    forall|i2: int, x: K| 0 <= i2 < i && #[trigger] slot(lists@, ch as int, i2).contains(x) ==> out@.contains(x),
                    forall|j2: int| 0 <= j2 < j ==> out@.contains(#[trigger] lists@[ch as int]@[i as int]@[j2]),
                decreases lists@[ch as int]@[i as int]@.len() - j,
            {
                let k = lists[ch][i][j];
                let ghost old_out = out@;
                let ghost old_vis = visited.contents();
                proof {
                    assert(slot(lists@, ch as int, i as int).contains(k)) by {
                        assert(slot(lists@, ch as int, i as int)[j as int] == k);
                    }
                }
                if visited.insert(k.index()) {
                    proof {
                        assert(!old_vis.contains(k.spec_index()));
                        assert(!out@.contains(k)) by {
                            if out@.contains(k) {
                                let m = choose|m: int| 0 <= m < out@.len() && out@[m] == k;
                                assert(key_indices(out@)[m] == k.spec_index() as int);
                                assert(key_indices(out@).contains(k.spec_index() as int));
                            }
                        }
                        lemma_push_fresh(out@, k);
                    }
                    out.push(k);
                    proof {
                        assert forall|q: usize| #[trigger] visited.contents().contains(q) <==> key_indices(out@).contains(q as int) by {
                            assert(old_vis.contains(q) <==> key_indices(old_out).contains(q as int));
                            if key_indices(out@).contains(q as int) {
                                let m = choose|m: int| 0 <= m < key_indices(out@).len() && key_indices(out@)[m] == q as int;
                                if m < old_out.len() {
                                    assert(key_indices(old_out)[m] == q as int);
                                }
                            }
                            if key_indices(old_out).contains(q as int) {
                                let m = choose|m: int| 0 <= m < key_indices(old_out).len() && key_indices(old_out)[m] == q as int;
                                assert(key_indices(out@)[m] == q as int);
                            }
                            if q == k.spec_index() {
                                assert(key_indices(out@)[old_out.len() as int] == q as int);
                            }
                        }
                    }
                } else {
                    proof {
                        assert(key_indices(out@).contains(k.spec_index() as int));
                        let m = choose|m: int| 0 <= m < key_indices(out@).len() && key_indices(out@)[m] == k.spec_index() as int;
                        K::lemma_index_injective(out@[m], k);
                        assert(out@.contains(k));
                    }
                }
                j += 1;
            }
            proof {
                assert forall|x: K| #[trigger] slot(lists@, ch as int, i as int).contains(x) implies out@.contains(x) by {
                    let j2 = choose|j2: int| 0 <= j2 < slot(lists@, ch as int, i as int).len() && slot(lists@, ch as int, i as int)[j2] == x;
                    assert(lists@[ch as int]@[i as int]@[j2] == x);
                }
            }
            i += 1;
        }
        proof {
            assert forall|i2: int, x: K| #[trigger] slot(lists@, ch as int, i2).contains(x) implies out@.contains(x) by {
                if !(0 <= i2 < lists@[ch as int]@.len()) {
                    assert(slot(lists@, ch as int, i2).len() == 0);
                }
            }
        }
        ch += 1;
    }
    proof {
        assert forall|c: int, i: int, x: K| #[trigger] slot(lists@, c, i).contains(x) implies out@.contains(x) by {
            if !(0 <= c < 64) {
                assert(slot(lists@, c, i).len() == 0);
            }
        }
    }
}

/// Ensures `vec` can hold index `idx` and returns the length it must reach.
pub fn prepare_dense_growth<T>(vec: &mut Vec<T>, idx: usize) -> (target_len: usize)
    requires
        idx < usize::MAX,
    ensures
        target_len == idx + 1,
        final(vec)@ == old(vec)@,
{
    let target_len = idx + 1;
    if target_len > vec.len() {
        vec.reserve(target_len - vec.len());
    }
    target_len
}

/// Ensures `vec` has at least `idx + 1` adjacency lists, filling with empty ones.
fn grow<K>(vec: &mut Vec<Vec<K>>, idx: usize)
    requires
        idx < usize::MAX,
    ensures
        final(vec)@.len() == if idx < old(vec)@.len() { old(vec)@.len() as int } else { idx + 1 },
        forall|i: int| 0 <= i < old(vec)@.len() ==> #[trigger] final(vec)@[i] == old(vec)@[i],
        forall|i: int| old(vec)@.len() <= i < final(vec)@.len() ==> (#[trigger] final(vec)@[i])@.len() == 0,
{
    if idx >= vec.len() {
        let target_len = prepare_dense_growth(vec, idx);
        while vec.len() < target_len
            invariant
                target_len == idx + 1,
                old(vec)@.len() <= vec@.len() <= target_len,
                forall|i: int| 0 <= i < old(vec)@.len() ==> #[trigger] vec@[i] == old(vec)@[i],
                forall|i: int| old(vec)@.len() <= i < vec@.len() ==> (#[trigger] vec@[i])@.len() == 0,
            decreases target_len - vec.len(),
        {
            vec.push(Vec::new());
        }
    }
}

/// Ensures the channel-set vec has at least `idx + 1` elements.
fn grow_channels(vec: &mut Vec<ChannelSet>, idx: usize)
    requires
        idx < usize::MAX,
    ensures
        final(vec)@.len() == if idx < old(vec)@.len() { old(vec)@.len() as int } else { idx + 1 },
        forall|i: int| 0 <= i < old(vec)@.len() ==> #[trigger] final(vec)@[i] == old(vec)@[i],
        forall|i: int| old(vec)@.len() <= i < final(vec)@.len() ==> (#[trigger] final(vec)@[i])@ == Set::<nat>::empty(),
{
    if idx >= vec.len() {
        let target_len = prepare_dense_growth(vec, idx);
        while vec.len() < target_len
            invariant
                target_len == idx + 1,
                old(vec)@.len() <= vec@.len() <= target_len,
                forall|i: int| 0 <= i < old(vec)@.len() ==> #[trigger] vec@[i] == old(vec)@[i],
                forall|i: int| old(vec)@.len() <= i < vec@.len() ==> (#[trigger] vec@[i])@ == Set::<nat>::empty(),
            decreases target_len - vec.len(),
        {
            vec.push(ChannelSet::empty());
        }
    }
}

impl<K: DenseKey> DirtyGraph<K> {
    /// The direct dependencies of `k` in channel `c`, in storage order.
    pub closed spec fn deps(self, k: K, c: nat) -> Seq<K> {
        slot(self.forward@, c as int, k.spec_index() as int)
    }

    /// The direct dependents of `k` in channel `c`, in storage order.
    pub closed spec fn rdeps(self, k: K, c: nat) -> Seq<K> {
        slot(self.reverse@, c as int, k.spec_index() as int)
    }

    /// The channels in which `k` has any dependencies.
    pub closed spec fn dep_chans(self, k: K) -> Set<nat> {
        chan_slot(self.forward_channels@, k.spec_index() as int)
    }

    /// The channels in which `k` has any dependents.
    pub closed spec fn rdep_chans(self, k: K) -> Set<nat> {
        chan_slot(self.reverse_channels@, k.spec_index() as int)
    }

    /// `p[i]` depends directly on `p[i + 1]` in channel `c`.
    pub open spec fn edge_at(self, c: nat, p: Seq<K>, i: int) -> bool {
        self.deps(p[i], c).contains(p[i + 1])
    }

    /// `p` is a non-empty chain of direct dependencies in channel `c`.
    pub open spec fn is_path(self, c: nat, p: Seq<K>) -> bool {
        &&& p.len() > 0
        &&& forall|i: int| 0 <= i < p.len() - 1 ==> #[trigger] self.edge_at(c, p, i)
    }

    /// `a` depends on `b`, directly or transitively, or `a == b`.
    pub open spec fn reaches(self, c: nat, a: K, b: K) -> bool {
        exists|p: Seq<K>| #[trigger] self.is_path(c, p) && p[0] == a && p.last() == b
    }

    /// `a` depends on `b` through a chain of at least one dependency.
    pub open spec fn depends_transitively(self, c: nat, a: K, b: K) -> bool {
        exists|p: Seq<K>| #[trigger] self.is_path(c, p) && p.len() >= 2 && p[0] == a && p.last() == b
    }

    /// Internal consistency of the two edge directions and the caches.
    pub closed spec fn wf(self) -> bool {
        &&& self.forward@.len() == 64
        &&& self.reverse@.len() == 64
        &&& forall|c: int, i: int| #[trigger] slot(self.forward@, c, i).no_duplicates()
        &&& forall|c: int, i: int| #[trigger] slot(self.reverse@, c, i).no_duplicates()
        &&& forall|c: int, i: int| #[trigger] slot(self.forward@, c, i).len() > 0 ==> is_key_index::<K>(i)
        &&& forall|c: int, i: int| #[trigger] slot(self.reverse@, c, i).len() > 0 ==> is_key_index::<K>(i)
        &&& forall|a: K, b: K, c: nat|
            #![trigger self.deps(a, c).contains(b)]
            #![trigger self.rdeps(b, c).contains(a)]
            self.deps(a, c).contains(b) <==> self.rdeps(b, c).contains(a)
        &&& forall|k: K, c: nat| !#[trigger] self.deps(k, c).contains(k)
        &&& forall|k: K, x: K, c: nat| #[trigger] self.deps(k, c).contains(x)
            ==> x.spec_index() < usize::MAX && k.spec_index() < usize::MAX
        &&& forall|i: int, c: nat| #[trigger] chan_slot(self.forward_channels@, i).contains(c)
            <==> (c < 64 && slot(self.forward@, c as int, i).len() > 0)
        &&& forall|i: int, c: nat| #[trigger] chan_slot(self.reverse_channels@, i).contains(c)
            <==> (c < 64 && slot(self.reverse@, c as int, i).len() > 0)
    }

    /// A well-formed graph has duplicate-free, mutually consistent adjacency.
    pub proof fn lemma_wf_facts(self)
        requires
            self.wf(),
        ensures
            forall|k: K, c: nat| #[trigger] self.deps(k, c).no_duplicates(),
            forall|k: K, c: nat| #[trigger] self.rdeps(k, c).no_duplicates(),
            forall|a: K, b: K, c: nat|
                #![trigger self.deps(a, c).contains(b)]
                #![trigger self.rdeps(b, c).contains(a)]
                self.deps(a, c).contains(b) <==> self.rdeps(b, c).contains(a),
            forall|k: K, c: nat| !#[trigger] self.deps(k, c).contains(k),
            forall|k: K, x: K, c: nat| #[trigger] self.deps(k, c).contains(x)
                ==> x.spec_index() < usize::MAX && k.spec_index() < usize::MAX,
            forall|k: K, c: nat| #[trigger] self.dep_chans(k).contains(c) <==> (c < 64 && self.deps(k, c).len() > 0),
            forall|k: K, c: nat| #[trigger] self.rdep_chans(k).contains(c) <==> (c < 64 && self.rdeps(k, c).len() > 0),
            forall|k: K, c: nat| c >= 64 ==> #[trigger] self.deps(k, c).len() == 0,
            forall|k: K, c: nat| c >= 64 ==> #[trigger] self.rdeps(k, c).len() == 0,
    {
        assert forall|k: K, c: nat| #[trigger] self.deps(k, c).no_duplicates() by {
            assert(slot(self.forward@, c as int, k.spec_index() as int).no_duplicates());
        }
        assert forall|k: K, c: nat| #[trigger] self.rdeps(k, c).no_duplicates() by {
            assert(slot(self.reverse@, c as int, k.spec_index() as int).no_duplicates());
        }
        assert forall|k: K, c: nat| #[trigger] self.dep_chans(k).contains(c) <==> (c < 64 && self.deps(k, c).len() > 0) by {
            assert(chan_slot(self.forward_channels@, k.spec_index() as int).contains(c)
                <==> (c < 64 && slot(self.forward@, c as int, k.spec_index() as int).len() > 0));
        }
        assert forall|k: K, c: nat| #[trigger] self.rdep_chans(k).contains(c) <==> (c < 64 && self.rdeps(k, c).len() > 0) by {
            assert(chan_slot(self.reverse_channels@, k.spec_index() as int).contains(c)
                <==> (c < 64 && slot(self.reverse@, c as int, k.spec_index() as int).len() > 0));
        }
    }

    /// Extending a dependency chain by one more dependency.
    pub proof fn lemma_reaches_step(self, c: nat, a: K, b: K, s: K)
        requires
            self.reaches(c, a, b),
            self.deps(b, c).contains(s),
        ensures
            self.reaches(c, a, s),
            self.depends_transitively(c, a, s),
    {
        let p = choose|p: Seq<K>| #[trigger] self.is_path(c, p) && p[0] == a && p.last() == b;
        let q = p.push(s);
        assert forall|i: int| 0 <= i < q.len() - 1 implies #[trigger] self.edge_at(c, q, i) by {
            if i < p.len() - 1 {
                assert(self.edge_at(c, p, i));
            }
        }
        assert(self.is_path(c, q));
    }

    /// A key reaches itself.
    pub proof fn lemma_reaches_refl(self, c: nat, a: K)
        ensures
            self.reaches(c, a, a),
    {
        let p = seq![a];
        assert(self.is_path(c, p));
    }

    /// Every chain that starts inside an index set closed under dependencies
    /// stays inside it.
    pub proof fn lemma_closed_contains_path(self, c: nat, visited: Set<usize>, p: Seq<K>, n: int)
        requires
            self.is_path(c, p),
            visited.contains(p[0].spec_index()),
            forall|k: K, s: K| visited.contains(k.spec_index()) && #[trigger] self.deps(k, c).contains(s)
                ==> visited.contains(s.spec_index()),
            0 <= n < p.len(),
        ensures
            visited.contains(p[n].spec_index()),
        decreases n,
    {
        if n > 0 {
            self.lemma_closed_contains_path(c, visited, p, n - 1);
            assert(self.edge_at(c, p, n - 1));
        }
    }

    /// Creates a new empty dependency graph.
    pub fn new() -> (g: Self)
        ensures
            g.wf(),
            forall|k: K, c: nat| #[trigger] g.deps(k, c) == Seq::<K>::empty(),
            forall|k: K, c: nat| #[trigger] g.rdeps(k, c) == Seq::<K>::empty(),
    {
        let mut forward: Vec<Vec<Vec<K>>> = Vec::new();
        let mut reverse: Vec<Vec<Vec<K>>> = Vec::new();
        let mut i: usize = 0;
        while i < 64
            invariant
                i <= 64,
                forward@.len() == i,
                reverse@.len() == i,
                forall|j: int| 0 <= j < i ==> (#[trigger] forward@[j])@.len() == 0,
                forall|j: int| 0 <= j < i ==> (#[trigger] reverse@[j])@.len() == 0,
            decreases 64 - i,
        {
            forward.push(Vec::new());
            reverse.push(Vec::new());
            i += 1;
        }
        let g = DirtyGraph {
            forward,
            reverse,
            forward_channels: Vec::new(),
            reverse_channels: Vec::new(),
        };
        assert forall|k: K, c: nat| #[trigger] g.deps(k, c) == Seq::<K>::empty() by {}
        assert forall|k: K, c: nat| #[trigger] g.rdeps(k, c) == Seq::<K>::empty() by {}
        g
    }

    /// Returns `true` if the graph has no dependencies.
    pub fn is_empty(&self) -> (r: bool)
        requires
            self.wf(),
        ensures
            r == (forall|k: K, c: nat| #[trigger] self.deps(k, c).len() == 0),
    {
        let mut i: usize = 0;
        while i < self.forward_channels.len()
            invariant
                self.wf(),
                i <= self.forward_channels@.len(),
                forall|j: int| 0 <= j < i ==> (#[trigger] self.forward_channels@[j])@ == Set::<nat>::empty(),
            decreases self.forward_channels@.len() - i,
        {
            if !self.forward_channels[i].is_empty() {
                proof {
                    let cs = self.forward_channels@[i as int]@;
                    assert(!(cs =~= Set::<nat>::empty()));
                    let c = choose|c: nat| cs.contains(c);
                    assert(chan_slot(self.forward_channels@, i as int).contains(c));
                    assert(slot(self.forward@, c as int, i as int).len() > 0);
                    assert(is_key_index::<K>(i as int));
                    let k = choose|k: K| k.spec_index() == i as int;
                    assert(self.deps(k, c).len() > 0);
                }
                return false;
            }
            i += 1;
        }
        proof {
            assert forall|k: K, c: nat| #[trigger] self.deps(k, c).len() == 0 by {
                let ki = k.spec_index() as int;
                if self.deps(k, c).len() > 0 {
                    assert(chan_slot(self.forward_channels@, ki).contains(c));
                    assert(self.forward_channels@[ki]@.contains(c));
                }
            }
        }
        true
    }


    /// `new` and `r` are what adding the dependency `from -> to` in `channel`
    /// with `handling` makes of `self`: a self-dependency, or (unless
    /// `handling` is `Allow`) one that closes a cycle, leaves the graph as it
    /// is with the outcome `handling` calls for; an existing edge gives
    /// `Ok(false)`; otherwise the edge is appended and `Ok(true)` returned.
    pub open spec fn add_outcome(self, new: Self, from: K, to: K, channel: Channel, handling: CycleHandling, r: Result<bool, CycleError<K>>) -> bool {
        let c = channel.idx();
        if from == to || (handling != CycleHandling::Allow && self.reaches(c, to, from)) {
            r == cycle_outcome(from, to, channel, handling) && new.same_as(self)
        } else if self.deps(from, c).contains(to) {
            r == Ok::<bool, CycleError<K>>(false) && new.same_as(self)
        } else {
            &&& r == Ok::<bool, CycleError<K>>(true)
            &&& new.deps(from, c) == self.deps(from, c).push(to)
            &&& new.rdeps(to, c) == self.rdeps(to, c).push(from)
            &&& forall|k: K, c2: nat| (k != from || c2 != c) ==> #[trigger] new.deps(k, c2) == self.deps(k, c2)
            &&& forall|k: K, c2: nat| (k != to || c2 != c) ==> #[trigger] new.rdeps(k, c2) == self.rdeps(k, c2)
        }
    }

    /// `new` and `r` are what removing the dependency `from -> to` in
    /// `channel` makes of `self`: `r` tells whether the edge existed, and
    /// only that edge is gone.
    pub open spec fn remove_outcome(self, new: Self, from: K, to: K, channel: Channel, r: bool) -> bool {
        &&& r == self.deps(from, channel.idx()).contains(to)
        &&& r ==> new.deps(from, channel.idx()) == without(self.deps(from, channel.idx()), to)
        &&& r ==> new.rdeps(to, channel.idx()) == without(self.rdeps(to, channel.idx()), from)
        &&& r ==> forall|k: K, c2: nat| (k != from || c2 != channel.idx()) ==> #[trigger] new.deps(k, c2) == self.deps(k, c2)
        &&& r ==> forall|k: K, c2: nat| (k != to || c2 != channel.idx()) ==> #[trigger] new.rdeps(k, c2) == self.rdeps(k, c2)
        &&& !r ==> new.same_as(self)
    }

    /// `new` is `self` with every edge that touches `key` removed, in every
    /// channel.
    pub open spec fn remove_key_outcome(self, new: Self, key: K) -> bool {
        &&& forall|k: K, c: nat| #[trigger] new.deps(k, c)
            == if k == key { Seq::<K>::empty() } else { without(self.deps(k, c), key) }
        &&& forall|k: K, c: nat| #[trigger] new.rdeps(k, c)
            == if k == key { Seq::<K>::empty() } else { without(self.rdeps(k, c), key) }
    }

    /// `new` and `r` are what replacing the dependencies of `from` in
    /// `channel` by the keys of `to` with `handling` makes of `self`.
    pub open spec fn replace_outcome(self, new: Self, from: K, channel: Channel, to: Seq<K>, handling: CycleHandling, r: Result<bool, CycleError<K>>) -> bool {
        let c = channel.idx();
        let old_set = self.deps(from, c).to_set();
        let new_set = to.to_set();
        &&& forall|k: K, c2: nat| (k != from || c2 != c) ==> #[trigger] new.deps(k, c2) == self.deps(k, c2)
        &&& old_set == new_set ==> r == Ok::<bool, CycleError<K>>(false) && new.same_as(self)
        &&& old_set != new_set ==> (r is Err <==> (handling == CycleHandling::Error
            && exists|d: K| #[trigger] new_set.contains(d) && !old_set.contains(d) && replace_cyclic(self, c, from, d)))
        &&& (old_set != new_set && r is Ok) ==> r == Ok::<bool, CycleError<K>>(true)
            && new.deps(from, c).to_set() == old_set.intersect(new_set).union(
                Set::new(|d: K| new_set.contains(d) && !old_set.contains(d) && replace_accepts(self, c, from, d, handling)))
            && new.deps(from, c) == without_all(self.deps(from, c), self.deps(from, c).filter(|d: K| !new_set.contains(d)))
                + dedup(to).filter(|d: K| !old_set.contains(d)).filter(|d: K| replace_accepts(self, c, from, d, handling))
        &&& r matches Err(e) ==> e.from == from && e.channel == channel && new_set.contains(e.to)
            && !old_set.contains(e.to) && replace_cyclic(self, c, from, e.to)
            && new.deps(from, c).to_set() == old_set
    }

    /// The two graphs hold the same adjacency, in the same order.
    pub open spec fn same_as(self, other: Self) -> bool {
        &&& forall|k: K, c: nat| #[trigger] self.deps(k, c) == other.deps(k, c)
        &&& forall|k: K, c: nat| #[trigger] self.rdeps(k, c) == other.rdeps(k, c)
    }

    /// `new` is `old` with one fresh edge `from -> to` appended in channel `c`.
    proof fn lemma_add_preserves_wf(old: Self, new: Self, from: K, to: K, c: nat)
        requires
            old.wf(),
            from.spec_index() < usize::MAX,
            to.spec_index() < usize::MAX,
            c < 64,
            from != to,
            !old.deps(from, c).contains(to),
            new.forward@.len() == 64,
            new.reverse@.len() == 64,
            forall|c2: int, i: int| #[trigger] slot(new.forward@, c2, i)
                == if c2 == c && i == from.spec_index() { old.deps(from, c).push(to) } else { slot(old.forward@, c2, i) },
            forall|c2: int, i: int| #[trigger] slot(new.reverse@, c2, i)
                == if c2 == c && i == to.spec_index() { old.rdeps(to, c).push(from) } else { slot(old.reverse@, c2, i) },
            forall|i: int| #[trigger] chan_slot(new.forward_channels@, i)
                == if i == from.spec_index() { chan_slot(old.forward_channels@, i).insert(c) } else { chan_slot(old.forward_channels@, i) },
            forall|i: int| #[trigger] chan_slot(new.reverse_channels@, i)
                == if i == to.spec_index() { chan_slot(old.reverse_channels@, i).insert(c) } else { chan_slot(old.reverse_channels@, i) },
        ensures
            new.wf(),
            new.deps(from, c) == old.deps(from, c).push(to),
            new.rdeps(to, c) == old.rdeps(to, c).push(from),
            forall|k: K, c2: nat| (k != from || c2 != c) ==> #[trigger] new.deps(k, c2) == old.deps(k, c2),
            forall|k: K, c2: nat| (k != to || c2 != c) ==> #[trigger] new.rdeps(k, c2) == old.rdeps(k, c2),
    {
        old.lemma_wf_facts();
        let fi = from.spec_index() as int;
        let ti = to.spec_index() as int;
        assert(!old.rdeps(to, c).contains(from));
        lemma_push_fresh(old.deps(from, c), to);
        lemma_push_fresh(old.rdeps(to, c), from);
        assert forall|k: K, c2: nat| (k != from || c2 != c) implies #[trigger] new.deps(k, c2) == old.deps(k, c2) by {
            if k.spec_index() == fi && c2 == c {
                K::lemma_index_injective(k, from);
            }
        }
        assert forall|k: K, c2: nat| (k != to || c2 != c) implies #[trigger] new.rdeps(k, c2) == old.rdeps(k, c2) by {
            if k.spec_index() == ti && c2 == c {
                K::lemma_index_injective(k, to);
            }
        }
        assert forall|c2: int, i: int| #[trigger] slot(new.forward@, c2, i).no_duplicates() by {
            assert(slot(old.forward@, c2, i).no_duplicates());
        }
        assert forall|c2: int, i: int| #[trigger] slot(new.reverse@, c2, i).no_duplicates() by {
            assert(slot(old.reverse@, c2, i).no_duplicates());
        }
        assert forall|c2: int, i: int| #[trigger] slot(new.forward@, c2, i).len() > 0 implies is_key_index::<K>(i) by {
            if c2 == c && i == fi {
                assert(from.spec_index() == i);
            } else {
                assert(slot(old.forward@, c2, i).len() > 0);
            }
        }
        assert forall|c2: int, i: int| #[trigger] slot(new.reverse@, c2, i).len() > 0 implies is_key_index::<K>(i) by {
            if c2 == c && i == ti {
                assert(to.spec_index() == i);
            } else {
                assert(slot(old.reverse@, c2, i).len() > 0);
            }
        }
        assert forall|a: K, b: K, c2: nat|
            #![trigger new.deps(a, c2).contains(b)]
            #![trigger new.rdeps(b, c2).contains(a)]
            new.deps(a, c2).contains(b) <==> new.rdeps(b, c2).contains(a) by {
            if a.spec_index() == fi && c2 == c {
                K::lemma_index_injective(a, from);
            }
            if b.spec_index() == ti && c2 == c {
                K::lemma_index_injective(b, to);
            }
            assert(old.deps(a, c2).contains(b) <==> old.rdeps(b, c2).contains(a));
        }
        assert forall|k: K, c2: nat| !#[trigger] new.deps(k, c2).contains(k) by {
            if k.spec_index() == fi && c2 == c {
                K::lemma_index_injective(k, from);
            }
            assert(!old.deps(k, c2).contains(k));
        }
        assert forall|k: K, x: K, c2: nat| #[trigger] new.deps(k, c2).contains(x)
            implies x.spec_index() < usize::MAX && k.spec_index() < usize::MAX by {
            if k.spec_index() == fi && c2 == c {
                K::lemma_index_injective(k, from);
                lemma_push_contains(old.deps(from, c), to);
            } else {
                assert(new.deps(k, c2) == old.deps(k, c2));
            }
        }
        assert forall|i: int, c2: nat| #[trigger] chan_slot(new.forward_channels@, i).contains(c2)
            <==> (c2 < 64 && slot(new.forward@, c2 as int, i).len() > 0) by {
            assert(chan_slot(old.forward_channels@, i).contains(c2)
                <==> (c2 < 64 && slot(old.forward@, c2 as int, i).len() > 0));
        }
        assert forall|i: int, c2: nat| #[trigger] chan_slot(new.reverse_channels@, i).contains(c2)
            <==> (c2 < 64 && slot(new.reverse@, c2 as int, i).len() > 0) by {
            assert(chan_slot(old.reverse_channels@, i).contains(c2)
                <==> (c2 < 64 && slot(old.reverse@, c2 as int, i).len() > 0));
        }
    }

    /// Adds a dependency: `from` depends on `to` in the given channel.
    ///
    /// When `to` becomes dirty, `from` should be recomputed (in that channel).
    ///
    /// A self-dependency, or (unless `handling` is `Allow`) a dependency that
    /// would close a cycle, is refused: `Err(CycleError)` for `Error`,
    /// `Ok(false)` otherwise, and the graph is unchanged. An edge that already
    /// exists gives `Ok(false)`. Otherwise the edge is appended and `Ok(true)`
    /// is returned.
    pub fn add_dependency(&mut self, from: K, to: K, channel: Channel, handling: CycleHandling) -> (r: Result<bool, CycleError<K>>)
        requires
            old(self).wf(),
            from.spec_index() < usize::MAX,
            to.spec_index() < usize::MAX,
        ensures
            final(self).wf(),
            old(self).add_outcome(*final(self), from, to, channel, handling, r),
    {
        if from.key_eq(&to) {
            return Self::handle_cycle(from, to, channel, handling);
        }
        if handling != CycleHandling::Allow && self.would_create_cycle(from, to, channel) {
            return Self::handle_cycle(from, to, channel, handling);
        }
        let ghost c = channel.idx();
        let ghost old_self = *self;
        let ch = channel.index() as usize;
        let from_idx = from.index();
        let to_idx = to.index();
        if from_idx < self.forward[ch].len() && vec_contains(&self.forward[ch][from_idx], to) {
            return Ok(false);
        }
        proof {
            assert(old_self.deps(from, c) == slot(old_self.forward@, c as int, from_idx as int));
            assert(!old_self.deps(from, c).contains(to));
        }
        grow(&mut self.forward[ch], from_idx);
        self.forward[ch][from_idx].push(to);
        grow(&mut self.reverse[ch], to_idx);
        self.reverse[ch][to_idx].push(from);
        grow_channels(&mut self.forward_channels, from_idx);
        self.forward_channels[from_idx].insert(channel);
        grow_channels(&mut self.reverse_channels, to_idx);
        self.reverse_channels[to_idx].insert(channel);
        proof {
            let new = *self;
            assert forall|c2: int, i: int| #[trigger] slot(new.forward@, c2, i)
                == if c2 == c && i == from.spec_index() { old_self.deps(from, c).push(to) } else { slot(old_self.forward@, c2, i) } by {}
            assert forall|c2: int, i: int| #[trigger] slot(new.reverse@, c2, i)
                == if c2 == c && i == to.spec_index() { old_self.rdeps(to, c).push(from) } else { slot(old_self.reverse@, c2, i) } by {}
            assert forall|i: int| #[trigger] chan_slot(new.forward_channels@, i)
                == if i == from.spec_index() { chan_slot(old_self.forward_channels@, i).insert(c) } else { chan_slot(old_self.forward_channels@, i) } by {}
            assert forall|i: int| #[trigger] chan_slot(new.reverse_channels@, i)
                == if i == to.spec_index() { chan_slot(old_self.reverse_channels@, i).insert(c) } else { chan_slot(old_self.reverse_channels@, i) } by {}
            Self::lemma_add_preserves_wf(old_self, new, from, to, c);
        }
        Ok(true)
    }


    /// `new` is `old` with the existing edge `from -> to` removed in channel `c`.
    proof fn lemma_remove_preserves_wf(old: Self, new: Self, from: K, to: K, c: nat)
        requires
            old.wf(),
            c < 64,
            old.deps(from, c).contains(to),
            new.forward@.len() == 64,
            new.reverse@.len() == 64,
            forall|c2: int, i: int| #[trigger] slot(new.forward@, c2, i)
                == if c2 == c && i == from.spec_index() { without(old.deps(from, c), to) } else { slot(old.forward@, c2, i) },
            forall|c2: int, i: int| #[trigger] slot(new.reverse@, c2, i)
                == if c2 == c && i == to.spec_index() { without(old.rdeps(to, c), from) } else { slot(old.reverse@, c2, i) },
            forall|i: int| #[trigger] chan_slot(new.forward_channels@, i)
                == if i == from.spec_index() && without(old.deps(from, c), to).len() == 0 {
                    chan_slot(old.forward_channels@, i).remove(c)
                } else {
                    chan_slot(old.forward_channels@, i)
                },
            forall|i: int| #[trigger] chan_slot(new.reverse_channels@, i)
                == if i == to.spec_index() && without(old.rdeps(to, c), from).len() == 0 {
                    chan_slot(old.reverse_channels@, i).remove(c)
                } else {
                    chan_slot(old.reverse_channels@, i)
                },
        ensures
            new.wf(),
            new.deps(from, c) == without(old.deps(from, c), to),
            new.rdeps(to, c) == without(old.rdeps(to, c), from),
            forall|k: K, c2: nat| (k != from || c2 != c) ==> #[trigger] new.deps(k, c2) == old.deps(k, c2),
            forall|k: K, c2: nat| (k != to || c2 != c) ==> #[trigger] new.rdeps(k, c2) == old.rdeps(k, c2),
    {
        old.lemma_wf_facts();
        let fi = from.spec_index() as int;
        let ti = to.spec_index() as int;
        assert(old.rdeps(to, c).contains(from));
        lemma_without(old.deps(from, c), to);
        lemma_without(old.rdeps(to, c), from);
        assert forall|k: K, c2: nat| (k != from || c2 != c) implies #[trigger] new.deps(k, c2) == old.deps(k, c2) by {
            if k.spec_index() == fi && c2 == c {
                K::lemma_index_injective(k, from);
            }
        }
        assert forall|k: K, c2: nat| (k != to || c2 != c) implies #[trigger] new.rdeps(k, c2) == old.rdeps(k, c2) by {
            if k.spec_index() == ti && c2 == c {
                K::lemma_index_injective(k, to);
            }
        }
        assert forall|c2: int, i: int| #[trigger] slot(new.forward@, c2, i).no_duplicates() by {
            assert(slot(old.forward@, c2, i).no_duplicates());
        }
        assert forall|c2: int, i: int| #[trigger] slot(new.reverse@, c2, i).no_duplicates() by {
            assert(slot(old.reverse@, c2, i).no_duplicates());
        }
        assert forall|c2: int, i: int| #[trigger] slot(new.forward@, c2, i).len() > 0 implies is_key_index::<K>(i) by {
            if c2 == c && i == fi {
                assert(from.spec_index() == i);
            } else {
                assert(slot(old.forward@, c2, i).len() > 0);
            }
        }
        assert forall|c2: int, i: int| #[trigger] slot(new.reverse@, c2, i).len() > 0 implies is_key_index::<K>(i) by {
            if c2 == c && i == ti {
                assert(to.spec_index() == i);
            } else {
                assert(slot(old.reverse@, c2, i).len() > 0);
            }
        }
        assert forall|a: K, b: K, c2: nat|
            #![trigger new.deps(a, c2).contains(b)]
            #![trigger new.rdeps(b, c2).contains(a)]
            new.deps(a, c2).contains(b) <==> new.rdeps(b, c2).contains(a) by {
            if a.spec_index() == fi && c2 == c {
                K::lemma_index_injective(a, from);
            }
            if b.spec_index() == ti && c2 == c {
                K::lemma_index_injective(b, to);
            }
            assert(old.deps(a, c2).contains(b) <==> old.rdeps(b, c2).contains(a));
        }
        assert forall|k: K, c2: nat| !#[trigger] new.deps(k, c2).contains(k) by {
            if k.spec_index() == fi && c2 == c {
                K::lemma_index_injective(k, from);
            }
            assert(!old.deps(k, c2).contains(k));
        }
        assert forall|i: int, c2: nat| #[trigger] chan_slot(new.forward_channels@, i).contains(c2)
            <==> (c2 < 64 && slot(new.forward@, c2 as int, i).len() > 0) by {
            assert(chan_slot(old.forward_channels@, i).contains(c2)
                <==> (c2 < 64 && slot(old.forward@, c2 as int, i).len() > 0));
        }
        assert forall|i: int, c2: nat| #[trigger] chan_slot(new.reverse_channels@, i).contains(c2)
            <==> (c2 < 64 && slot(new.reverse@, c2 as int, i).len() > 0) by {
            assert(chan_slot(old.reverse_channels@, i).contains(c2)
                <==> (c2 < 64 && slot(old.reverse@, c2 as int, i).len() > 0));
        }
    }

    /// Removes a dependency: `from` no longer depends on `to` in the given channel.
    ///
    /// Returns `true` if the dependency existed and was removed.
    pub fn remove_dependency(&mut self, from: K, to: K, channel: Channel) -> (r: bool)
        requires
            old(self).wf(),
        ensures
            final(self).wf(),
            old(self).remove_outcome(*final(self), from, to, channel, r),
    {
        let ghost c = channel.idx();
        let ghost old_self = *self;
        proof {
            old_self.lemma_wf_facts();
        }
        let ch = channel.index() as usize;
        let from_idx = from.index();
        let to_idx = to.index();
        if from_idx >= self.forward[ch].len() {
            return false;
        }
        let pos = vec_position(&self.forward[ch][from_idx], to);
        let p = match pos {
            None => {
                return false;
            },
            Some(p) => p,
        };
        let ghost fl = old_self.deps(from, c);
        proof {
            assert(fl == slot(old_self.forward@, c as int, from_idx as int));
            lemma_index_of_unique(fl, to, p as int);
            assert(old_self.rdeps(to, c).contains(from));
            assert(to_idx < self.reverse@[ch as int]@.len());
        }
        self.forward[ch][from_idx].swap_remove(p);
        let rpos = vec_position(&self.reverse[ch][to_idx], from);
        let ghost rl = old_self.rdeps(to, c);
        proof {
            assert(rl == slot(old_self.reverse@, c as int, to_idx as int));
        }
        if let Some(q) = rpos {
            proof {
                lemma_index_of_unique(rl, from, q as int);
            }
            self.reverse[ch][to_idx].swap_remove(q);
        }
        proof {
            lemma_without(fl, to);
            lemma_without(rl, from);
            assert(chan_slot(old_self.forward_channels@, from_idx as int).contains(c));
            assert(chan_slot(old_self.reverse_channels@, to_idx as int).contains(c));
        }
        if self.forward[ch][from_idx].len() == 0 && from_idx < self.forward_channels.len() {
            self.forward_channels[from_idx].remove(channel);
        }
        if to_idx < self.reverse[ch].len() && self.reverse[ch][to_idx].len() == 0 && to_idx < self.reverse_channels.len() {
            self.reverse_channels[to_idx].remove(channel);
        }
        proof {
            let new = *self;
            assert forall|c2: int, i: int| #[trigger] slot(new.forward@, c2, i)
                == if c2 == c && i == from.spec_index() { without(fl, to) } else { slot(old_self.forward@, c2, i) } by {}
            assert forall|c2: int, i: int| #[trigger] slot(new.reverse@, c2, i)
                == if c2 == c && i == to.spec_index() { without(rl, from) } else { slot(old_self.reverse@, c2, i) } by {}
            assert forall|i: int| #[trigger] chan_slot(new.forward_channels@, i)
                == if i == from.spec_index() && without(fl, to).len() == 0 {
                    chan_slot(old_self.forward_channels@, i).remove(c)
                } else {
                    chan_slot(old_self.forward_channels@, i)
                } by {}
            assert forall|i: int| #[trigger] chan_slot(new.reverse_channels@, i)
                == if i == to.spec_index() && without(rl, from).len() == 0 {
                    chan_slot(old_self.reverse_channels@, i).remove(c)
                } else {
                    chan_slot(old_self.reverse_channels@, i)
                } by {}
            Self::lemma_remove_preserves_wf(old_self, new, from, to, c);
        }
        true
    }


    /// Drops every dependency of `key` in channel `ch` (and the matching
    /// reverse entries).
    fn detach_dependencies(&mut self, key: K, channel: Channel)
        requires
            old(self).wf(),
        ensures
            final(self).wf(),
            final(self).deps(key, channel.idx()) == Seq::<K>::empty(),
            forall|k: K| #[trigger] final(self).rdeps(k, channel.idx()) == without(old(self).rdeps(k, channel.idx()), key),
            forall|k: K, c2: nat| c2 != channel.idx() ==> #[trigger] final(self).deps(k, c2) == old(self).deps(k, c2),
            forall|k: K, c2: nat| c2 != channel.idx() ==> #[trigger] final(self).rdeps(k, c2) == old(self).rdeps(k, c2),
            forall|k: K| k != key ==> #[trigger] final(self).deps(k, channel.idx()) == old(self).deps(k, channel.idx()),
    {
        let ghost c = channel.idx();
        let ghost old_self = *self;
        proof {
            old_self.lemma_wf_facts();
        }
        let ch = channel.index() as usize;
        let ki = key.index();
        if ki >= self.forward[ch].len() {
            proof {
                assert forall|k: K| #[trigger] self.rdeps(k, c) == without(old_self.rdeps(k, c), key) by {
                    lemma_without(old_self.rdeps(k, c), key);
                    assert(!old_self.deps(key, c).contains(k));
                }
            }
            return;
        }
        let mut taken: Vec<K> = Vec::new();
        std::mem::swap(&mut taken, &mut self.forward[ch][ki]);
        proof {
            assert(taken@ == old_self.deps(key, c));
        }
        if ki < self.forward_channels.len() {
            self.forward_channels[ki].remove(channel);
        }
        proof {
            assert(chan_slot(self.forward_channels@, ki as int) == chan_slot(old_self.forward_channels@, ki as int).remove(c));
        }
        let mut j: usize = 0;
        while j < taken.len()
            invariant
                old_self.wf(),
                c == channel.idx(),
                c < 64,
                ch == c,
                ki == key.spec_index(),
                taken@ == old_self.deps(key, c),
                taken@.no_duplicates(),
                j <= taken@.len(),
                self.forward@.len() == 64,
                self.reverse@.len() == 64,
                forall|c2: int, i: int| #[trigger] slot(self.forward@, c2, i)
                    == if c2 == c && i == ki { Seq::<K>::empty() } else { slot(old_self.forward@, c2, i) },
                forall|c2: int, i: int| c2 != c ==> #[trigger] slot(self.reverse@, c2, i) == slot(old_self.reverse@, c2, i),
                forall|i: int| #[trigger] slot(self.reverse@, c as int, i)
                    == if key_indices(taken@.subrange(0, j as int)).contains(i) {
                        without(slot(old_self.reverse@, c as int, i), key)
                    } else {
                        slot(old_self.reverse@, c as int, i)
                    },
                forall|i: int| #[trigger] chan_slot(self.forward_channels@, i)
                    == if i == ki { chan_slot(old_self.forward_channels@, i).remove(c) } else { chan_slot(old_self.forward_channels@, i) },
                forall|i: int, c2: nat| #[trigger] chan_slot(self.reverse_channels@, i).contains(c2)
                    <==> (c2 < 64 && slot(self.reverse@, c2 as int, i).len() > 0),
            decreases taken@.len() - j,
        {
            let dep = taken[j];
            let di = dep.index();
            let ghost before = *self;
            let ghost pre_map = key_indices(taken@.subrange(0, j as int));
            let ghost post_map = key_indices(taken@.subrange(0, j + 1));
            proof {
                assert forall|i: int| #[trigger] post_map.contains(i) == (pre_map.contains(i) || i == di as int) by {
                    if post_map.contains(i) {
                        let m = choose|m: int| 0 <= m < post_map.len() && post_map[m] == i;
                        if m < j {
                            assert(pre_map[m] == i);
                        }
                    }
                    if pre_map.contains(i) {
                        let m = choose|m: int| 0 <= m < pre_map.len() && pre_map[m] == i;
                        assert(post_map[m] == i);
                    }
                    if i == di as int {
                        assert(post_map[j as int] == i);
                    }
                }
                assert(!pre_map.contains(di as int)) by {
                    if pre_map.contains(di as int) {
                        let m = choose|m: int| 0 <= m < pre_map.len() && pre_map[m] == di as int;
                        K::lemma_index_injective(taken@[m], dep);
                    }
                }
                assert(old_self.deps(key, c).contains(dep));
                assert(old_self.rdeps(dep, c).contains(key));
                assert(slot(old_self.reverse@, c as int, di as int) == old_self.rdeps(dep, c));
                assert(slot(self.reverse@, c as int, di as int) == old_self.rdeps(dep, c));
                assert(di < self.reverse@[ch as int]@.len());
            }
            if di < self.reverse[ch].len() {
                let pos = vec_position(&self.reverse[ch][di], key);
                if let Some(q) = pos {
                    proof {
                        lemma_index_of_unique(old_self.rdeps(dep, c), key, q as int);
                    }
                    self.reverse[ch][di].swap_remove(q);
                }
                proof {
                    lemma_without(old_self.rdeps(dep, c), key);
                    assert(slot(self.reverse@, c as int, di as int) == without(old_self.rdeps(dep, c), key));
                }
                if self.reverse[ch][di].len() == 0 && di < self.reverse_channels.len() {
                    self.reverse_channels[di].remove(channel);
                }
                proof {
                    assert forall|i: int, c2: nat| #[trigger] chan_slot(self.reverse_channels@, i).contains(c2)
                        <==> (c2 < 64 && slot(self.reverse@, c2 as int, i).len() > 0) by {
                        assert(chan_slot(before.reverse_channels@, i).contains(c2)
                            <==> (c2 < 64 && slot(before.reverse@, c2 as int, i).len() > 0));
                        if i == di as int && c2 == c {
                            assert(chan_slot(before.reverse_channels@, i).contains(c2));
                        }
                    }
                }
            }
            proof {
                assert forall|c2: int, i: int| c2 != c implies #[trigger] slot(self.reverse@, c2, i) == slot(old_self.reverse@, c2, i) by {
                    assert(slot(before.reverse@, c2, i) == slot(old_self.reverse@, c2, i));
                }
                assert forall|i: int| #[trigger] slot(self.reverse@, c as int, i)
                    == if post_map.contains(i) {
                        without(slot(old_self.reverse@, c as int, i), key)
                    } else {
                        slot(old_self.reverse@, c as int, i)
                    } by {
                    if i != di as int {
                        assert(slot(self.reverse@, c as int, i) == slot(before.reverse@, c as int, i));
                        assert(post_map.contains(i) == pre_map.contains(i));
                    }
                }
            }
            j += 1;
        }
        proof {
            let new = *self;
            let all_map = key_indices(taken@);
            assert(taken@.subrange(0, j as int) == taken@);
            assert forall|k: K| #[trigger] new.rdeps(k, c) == without(old_self.rdeps(k, c), key) by {
                lemma_without(old_self.rdeps(k, c), key);
                let i = k.spec_index() as int;
                if all_map.contains(i) {
                    let m = choose|m: int| 0 <= m < all_map.len() && all_map[m] == i;
                    K::lemma_index_injective(taken@[m], k);
                } else {
                    if old_self.rdeps(k, c).contains(key) {
                        assert(old_self.deps(key, c).contains(k));
                        let m = choose|m: int| 0 <= m < taken@.len() && taken@[m] == k;
                        assert(all_map[m] == i);
                    }
                }
            }
            assert forall|k: K, c2: nat| c2 != c implies #[trigger] new.deps(k, c2) == old_self.deps(k, c2) by {}
            assert forall|k: K, c2: nat| c2 != c implies #[trigger] new.rdeps(k, c2) == old_self.rdeps(k, c2) by {}
            assert forall|k: K| k != key implies #[trigger] new.deps(k, c) == old_self.deps(k, c) by {
                if k.spec_index() == ki {
                    K::lemma_index_injective(k, key);
                }
            }
            // well-formedness
            assert forall|c2: int, i: int| #[trigger] slot(new.forward@, c2, i).no_duplicates() by {
                assert(slot(old_self.forward@, c2, i).no_duplicates());
            }
            assert forall|c2: int, i: int| #[trigger] slot(new.reverse@, c2, i).no_duplicates() by {
                assert(slot(old_self.reverse@, c2, i).no_duplicates());
                lemma_without(slot(old_self.reverse@, c2, i), key);
            }
            assert forall|c2: int, i: int| #[trigger] slot(new.forward@, c2, i).len() > 0 implies is_key_index::<K>(i) by {
                assert(slot(old_self.forward@, c2, i).len() > 0);
            }
            assert forall|c2: int, i: int| #[trigger] slot(new.reverse@, c2, i).len() > 0 implies is_key_index::<K>(i) by {
                lemma_without(slot(old_self.reverse@, c2, i), key);
                assert(slot(old_self.reverse@, c2, i).len() > 0);
            }
            assert forall|a: K, b: K, c2: nat|
                #![trigger new.deps(a, c2).contains(b)]
                #![trigger new.rdeps(b, c2).contains(a)]
                new.deps(a, c2).contains(b) <==> new.rdeps(b, c2).contains(a) by {
                assert(old_self.deps(a, c2).contains(b) <==> old_self.rdeps(b, c2).contains(a));
                if c2 == c {
                    lemma_without(old_self.rdeps(b, c), key);
                    if a.spec_index() == ki {
                        K::lemma_index_injective(a, key);
                    }
                }
            }
            assert forall|k: K, c2: nat| !#[trigger] new.deps(k, c2).contains(k) by {
                assert(!old_self.deps(k, c2).contains(k));
                if c2 == c && k.spec_index() == ki {
                    K::lemma_index_injective(k, key);
                }
            }
            assert forall|i: int, c2: nat| #[trigger] chan_slot(new.forward_channels@, i).contains(c2)
                <==> (c2 < 64 && slot(new.forward@, c2 as int, i).len() > 0) by {
                assert(chan_slot(old_self.forward_channels@, i).contains(c2)
                    <==> (c2 < 64 && slot(old_self.forward@, c2 as int, i).len() > 0));
            }
        }
    }

    /// Drops every dependency of `key` in channel `ch` (and the matching
    /// forward entries).
    fn detach_dependents(&mut self, key: K, channel: Channel)
        requires
            old(self).wf(),
        ensures
            final(self).wf(),
            final(self).rdeps(key, channel.idx()) == Seq::<K>::empty(),
            forall|k: K| #[trigger] final(self).deps(k, channel.idx()) == without(old(self).deps(k, channel.idx()), key),
            forall|k: K, c2: nat| c2 != channel.idx() ==> #[trigger] final(self).rdeps(k, c2) == old(self).rdeps(k, c2),
            forall|k: K, c2: nat| c2 != channel.idx() ==> #[trigger] final(self).deps(k, c2) == old(self).deps(k, c2),
            forall|k: K| k != key ==> #[trigger] final(self).rdeps(k, channel.idx()) == old(self).rdeps(k, channel.idx()),
    {
        let ghost c = channel.idx();
        let ghost old_self = *self;
        proof {
            old_self.lemma_wf_facts();
        }
        let ch = channel.index() as usize;
        let ki = key.index();
        if ki >= self.reverse[ch].len() {
            proof {
                assert forall|k: K| #[trigger] self.deps(k, c) == without(old_self.deps(k, c), key) by {
                    lemma_without(old_self.deps(k, c), key);
                    assert(!old_self.rdeps(key, c).contains(k));
                }
            }
            return;
        }
        let mut taken: Vec<K> = Vec::new();
        std::mem::swap(&mut taken, &mut self.reverse[ch][ki]);
        proof {
            assert(taken@ == old_self.rdeps(key, c));
        }
        if ki < self.reverse_channels.len() {
            self.reverse_channels[ki].remove(channel);
        }
        proof {
            assert(chan_slot(self.reverse_channels@, ki as int) == chan_slot(old_self.reverse_channels@, ki as int).remove(c));
        }
        let mut j: usize = 0;
        while j < taken.len()
            invariant
                old_self.wf(),
                c == channel.idx(),
                c < 64,
                ch == c,
                ki == key.spec_index(),
                taken@ == old_self.rdeps(key, c),
                taken@.no_duplicates(),
                j <= taken@.len(),
                self.reverse@.len() == 64,
                self.forward@.len() == 64,
                forall|c2: int, i: int| #[trigger] slot(self.reverse@, c2, i)
                    == if c2 == c && i == ki { Seq::<K>::empty() } else { slot(old_self.reverse@, c2, i) },
                forall|c2: int, i: int| c2 != c ==> #[trigger] slot(self.forward@, c2, i) == slot(old_self.forward@, c2, i),
                forall|i: int| #[trigger] slot(self.forward@, c as int, i)
                    == if key_indices(taken@.subrange(0, j as int)).contains(i) {
                        without(slot(old_self.forward@, c as int, i), key)
                    } else {
                        slot(old_self.forward@, c as int, i)
                    },
                forall|i: int| #[trigger] chan_slot(self.reverse_channels@, i)
                    == if i == ki { chan_slot(old_self.reverse_channels@, i).remove(c) } else { chan_slot(old_self.reverse_channels@, i) },
                forall|i: int, c2: nat| #[trigger] chan_slot(self.forward_channels@, i).contains(c2)
                    <==> (c2 < 64 && slot(self.forward@, c2 as int, i).len() > 0),
            decreases taken@.len() - j,
        {
            let dep = taken[j];
            let di = dep.index();
            let ghost before = *self;
            let ghost pre_map = key_indices(taken@.subrange(0, j as int));
            let ghost post_map = key_indices(taken@.subrange(0, j + 1));
            proof {
                assert forall|i: int| #[trigger] post_map.contains(i) == (pre_map.contains(i) || i == di as int) by {
                    if post_map.contains(i) {
                        let m = choose|m: int| 0 <= m < post_map.len() && post_map[m] == i;
                        if m < j {
                            assert(pre_map[m] == i);
                        }
                    }
                    if pre_map.contains(i) {
                        let m = choose|m: int| 0 <= m < pre_map.len() && pre_map[m] == i;
                        assert(post_map[m] == i);
                    }
                    if i == di as int {
                        assert(post_map[j as int] == i);
                    }
                }
                assert(!pre_map.contains(di as int)) by {
                    if pre_map.contains(di as int) {
                        let m = choose|m: int| 0 <= m < pre_map.len() && pre_map[m] == di as int;
                        K::lemma_index_injective(taken@[m], dep);
                    }
                }
                assert(old_self.rdeps(key, c).contains(dep));
                assert(old_self.deps(dep, c).contains(key));
                assert(slot(old_self.forward@, c as int, di as int) == old_self.deps(dep, c));
                assert(slot(self.forward@, c as int, di as int) == old_self.deps(dep, c));
                assert(di < self.forward@[ch as int]@.len());
            }
            if di < self.forward[ch].len() {
                let pos = vec_position(&self.forward[ch][di], key);
                if let Some(q) = pos {
                    proof {
                        lemma_index_of_unique(old_self.deps(dep, c), key, q as int);
                    }
                    self.forward[ch][di].swap_remove(q);
                }
                proof {
                    lemma_without(old_self.deps(dep, c), key);
                    assert(slot(self.forward@, c as int, di as int) == without(old_self.deps(dep, c), key));
                }
                if self.forward[ch][di].len() == 0 && di < self.forward_channels.len() {
                    self.forward_channels[di].remove(channel);
                }
                proof {
                    assert forall|i: int, c2: nat| #[trigger] chan_slot(self.forward_channels@, i).contains(c2)
                        <==> (c2 < 64 && slot(self.forward@, c2 as int, i).len() > 0) by {
                        assert(chan_slot(before.forward_channels@, i).contains(c2)
                            <==> (c2 < 64 && slot(before.forward@, c2 as int, i).len() > 0));
                        if i == di as int && c2 == c {
                            assert(chan_slot(before.forward_channels@, i).contains(c2));
                        }
                    }
                }
            }
            proof {
                assert forall|c2: int, i: int| c2 != c implies #[trigger] slot(self.forward@, c2, i) == slot(old_self.forward@, c2, i) by {
                    assert(slot(before.forward@, c2, i) == slot(old_self.forward@, c2, i));
                }
                assert forall|i: int| #[trigger] slot(self.forward@, c as int, i)
                    == if post_map.contains(i) {
                        without(slot(old_self.forward@, c as int, i), key)
                    } else {
                        slot(old_self.forward@, c as int, i)
                    } by {
                    if i != di as int {
                        assert(slot(self.forward@, c as int, i) == slot(before.forward@, c as int, i));
                        assert(post_map.contains(i) == pre_map.contains(i));
                    }
                }
            }
            j += 1;
        }
        proof {
            let new = *self;
            let all_map = key_indices(taken@);
            assert(taken@.subrange(0, j as int) == taken@);
            assert forall|k: K| #[trigger] new.deps(k, c) == without(old_self.deps(k, c), key) by {
                lemma_without(old_self.deps(k, c), key);
                let i = k.spec_index() as int;
                if all_map.contains(i) {
                    let m = choose|m: int| 0 <= m < all_map.len() && all_map[m] == i;
                    K::lemma_index_injective(taken@[m], k);
                } else {
                    if old_self.deps(k, c).contains(key) {
                        assert(old_self.rdeps(key, c).contains(k));
                        let m = choose|m: int| 0 <= m < taken@.len() && taken@[m] == k;
                        assert(all_map[m] == i);
                    }
                }
            }
            assert forall|k: K, c2: nat| c2 != c implies #[trigger] new.rdeps(k, c2) == old_self.rdeps(k, c2) by {}
            assert forall|k: K, c2: nat| c2 != c implies #[trigger] new.deps(k, c2) == old_self.deps(k, c2) by {}
            assert forall|k: K| k != key implies #[trigger] new.rdeps(k, c) == old_self.rdeps(k, c) by {
                if k.spec_index() == ki {
                    K::lemma_index_injective(k, key);
                }
            }
            // well-formedness
            assert forall|c2: int, i: int| #[trigger] slot(new.reverse@, c2, i).no_duplicates() by {
                assert(slot(old_self.reverse@, c2, i).no_duplicates());
            }
            assert forall|c2: int, i: int| #[trigger] slot(new.forward@, c2, i).no_duplicates() by {
                assert(slot(old_self.forward@, c2, i).no_duplicates());
                lemma_without(slot(old_self.forward@, c2, i), key);
            }
            assert forall|c2: int, i: int| #[trigger] slot(new.reverse@, c2, i).len() > 0 implies is_key_index::<K>(i) by {
                assert(slot(old_self.reverse@, c2, i).len() > 0);
            }
            assert forall|c2: int, i: int| #[trigger] slot(new.forward@, c2, i).len() > 0 implies is_key_index::<K>(i) by {
                lemma_without(slot(old_self.forward@, c2, i), key);
                assert(slot(old_self.forward@, c2, i).len() > 0);
            }
            assert forall|a: K, b: K, c2: nat|
                #![trigger new.rdeps(a, c2).contains(b)]
                #![trigger new.deps(b, c2).contains(a)]
                new.rdeps(a, c2).contains(b) <==> new.deps(b, c2).contains(a) by {
                assert(old_self.rdeps(a, c2).contains(b) <==> old_self.deps(b, c2).contains(a));
                if c2 == c {
                    lemma_without(old_self.deps(b, c), key);
                    if a.spec_index() == ki {
                        K::lemma_index_injective(a, key);
                    }
                }
            }
            assert forall|k: K, c2: nat| !#[trigger] new.rdeps(k, c2).contains(k) by {
                assert(!old_self.rdeps(k, c2).contains(k));
                if c2 == c && k.spec_index() == ki {
                    K::lemma_index_injective(k, key);
                }
            }
            assert forall|i: int, c2: nat| #[trigger] chan_slot(new.reverse_channels@, i).contains(c2)
                <==> (c2 < 64 && slot(new.reverse@, c2 as int, i).len() > 0) by {
                assert(chan_slot(old_self.reverse_channels@, i).contains(c2)
                    <==> (c2 < 64 && slot(old_self.reverse@, c2 as int, i).len() > 0));
            }
        }
    }


    /// Removes a key entirely from the graph.
    ///
    /// This removes all dependencies involving `key`, both as a dependent
    /// and as a dependency, in every channel.
    pub fn remove_key(&mut self, key: K)
        requires
            old(self).wf(),
        ensures
            final(self).wf(),
            old(self).remove_key_outcome(*final(self), key),
    {
        let ghost old_self = *self;
        proof {
            old_self.lemma_wf_facts();
        }
        let ki = key.index();
        let fwd_channels = if ki < self.forward_channels.len() {
            self.forward_channels[ki]
        } else {
            ChannelSet::empty()
        };
        proof {
            assert(fwd_channels@ == old_self.dep_chans(key));
        }
        let mut i: u8 = 0;
        while i < 64
            invariant
                old_self.wf(),
                self.wf(),
                i <= 64,
                fwd_channels@ == old_self.dep_chans(key),
                forall|k: K, c: nat| #[trigger] self.deps(k, c)
                    == if c < i && k == key { Seq::<K>::empty() } else { old_self.deps(k, c) },
                forall|k: K, c: nat| #[trigger] self.rdeps(k, c)
                    == if c < i { without(old_self.rdeps(k, c), key) } else { old_self.rdeps(k, c) },
            decreases 64 - i,
        {
            let channel = Channel::new(i);
            let ghost before = *self;
            if fwd_channels.contains(channel) {
                self.detach_dependencies(key, channel);
            } else {
                proof {
                    assert(old_self.deps(key, i as nat).len() == 0);
                    assert forall|k: K| #[trigger] without(old_self.rdeps(k, i as nat), key) == old_self.rdeps(k, i as nat) by {
                        lemma_without(old_self.rdeps(k, i as nat), key);
                        assert(!old_self.deps(key, i as nat).contains(k));
                    }
                }
            }
            proof {
                assert forall|k: K, c: nat| #[trigger] self.deps(k, c)
                    == if c < i + 1 && k == key { Seq::<K>::empty() } else { old_self.deps(k, c) } by {
                    assert(before.deps(k, c) == if c < i && k == key { Seq::<K>::empty() } else { old_self.deps(k, c) });
                    if c == i as nat && k == key && !fwd_channels@.contains(channel.idx()) {
                        assert(old_self.deps(key, c).len() == 0);
                        assert(old_self.deps(key, c) =~= Seq::<K>::empty());
                    }
                }
                assert forall|k: K, c: nat| #[trigger] self.rdeps(k, c)
                    == if c < i + 1 { without(old_self.rdeps(k, c), key) } else { old_self.rdeps(k, c) } by {
                    assert(before.rdeps(k, c) == if c < i { without(old_self.rdeps(k, c), key) } else { old_self.rdeps(k, c) });
                }
            }
            i += 1;
        }
        let ghost mid = *self;
        proof {
            mid.lemma_wf_facts();
        }
        let rev_channels = if ki < self.reverse_channels.len() {
            self.reverse_channels[ki]
        } else {
            ChannelSet::empty()
        };
        proof {
            assert(rev_channels@ == mid.rdep_chans(key));
        }
        let mut i: u8 = 0;
        while i < 64
            invariant
                mid.wf(),
                self.wf(),
                i <= 64,
                rev_channels@ == mid.rdep_chans(key),
                forall|k: K, c: nat| #[trigger] self.rdeps(k, c)
                    == if c < i && k == key { Seq::<K>::empty() } else { mid.rdeps(k, c) },
                forall|k: K, c: nat| #[trigger] self.deps(k, c)
                    == if c < i { without(mid.deps(k, c), key) } else { mid.deps(k, c) },
            decreases 64 - i,
        {
            let channel = Channel::new(i);
            let ghost before = *self;
            if rev_channels.contains(channel) {
                self.detach_dependents(key, channel);
            } else {
                proof {
                    assert(mid.rdeps(key, i as nat).len() == 0);
                    assert forall|k: K| #[trigger] without(mid.deps(k, i as nat), key) == mid.deps(k, i as nat) by {
                        lemma_without(mid.deps(k, i as nat), key);
                        assert(!mid.rdeps(key, i as nat).contains(k));
                    }
                }
            }
            proof {
                assert forall|k: K, c: nat| #[trigger] self.rdeps(k, c)
                    == if c < i + 1 && k == key { Seq::<K>::empty() } else { mid.rdeps(k, c) } by {
                    assert(before.rdeps(k, c) == if c < i && k == key { Seq::<K>::empty() } else { mid.rdeps(k, c) });
                    if c == i as nat && k == key && !rev_channels@.contains(channel.idx()) {
                        assert(mid.rdeps(key, c) =~= Seq::<K>::empty());
                    }
                }
                assert forall|k: K, c: nat| #[trigger] self.deps(k, c)
                    == if c < i + 1 { without(mid.deps(k, c), key) } else { mid.deps(k, c) } by {
                    assert(before.deps(k, c) == if c < i { without(mid.deps(k, c), key) } else { mid.deps(k, c) });
                }
            }
            i += 1;
        }
        proof {
            assert forall|k: K, c: nat| #[trigger] self.deps(k, c)
                == if k == key { Seq::<K>::empty() } else { without(old_self.deps(k, c), key) } by {
                if c >= 64 {
                    assert(old_self.deps(k, c).len() == 0);
                    assert(mid.deps(k, c).len() == 0);
                    assert(self.deps(k, c) == mid.deps(k, c));
                    lemma_without(old_self.deps(k, c), key);
                    assert(old_self.deps(k, c) =~= Seq::<K>::empty());
                    assert(mid.deps(k, c) =~= Seq::<K>::empty());
                } else if k == key {
                    assert(mid.deps(k, c) == Seq::<K>::empty());
                    assert(!Seq::<K>::empty().contains(key));
                }
            }
            assert forall|k: K, c: nat| #[trigger] self.rdeps(k, c)
                == if k == key { Seq::<K>::empty() } else { without(old_self.rdeps(k, c), key) } by {
                if c >= 64 {
                    assert(old_self.rdeps(k, c).len() == 0);
                    lemma_without(old_self.rdeps(k, c), key);
                    assert(old_self.rdeps(k, c) =~= Seq::<K>::empty());
                    assert(mid.rdeps(k, c) =~= Seq::<K>::empty());
                    assert(self.rdeps(k, c) =~= Seq::<K>::empty());
                }
            }
        }
    }


    /// Prepending a direct dependent to a chain.
    pub proof fn lemma_depends_prepend(self, c: nat, d: K, a: K, b: K)
        requires
            self.depends_transitively(c, a, b),
            self.deps(d, c).contains(a),
        ensures
            self.depends_transitively(c, d, b),
    {
        let p = choose|p: Seq<K>| #[trigger] self.is_path(c, p) && p.len() >= 2 && p[0] == a && p.last() == b;
        let q = seq![d] + p;
        assert forall|i: int| 0 <= i < q.len() - 1 implies #[trigger] self.edge_at(c, q, i) by {
            if i > 0 {
                assert(self.edge_at(c, p, i - 1));
            }
        }
        assert(self.is_path(c, q));
    }

    /// A direct dependency is a transitive one.
    pub proof fn lemma_depends_direct(self, c: nat, a: K, b: K)
        requires
            self.deps(a, c).contains(b),
        ensures
            self.depends_transitively(c, a, b),
    {
        let p = seq![a, b];
        assert(self.edge_at(c, p, 0));
        assert(self.is_path(c, p));
    }

    /// Every key on a chain ending at `key` (except `key` itself) lies in an
    /// index set that holds the direct dependents of `key` and is closed under
    /// taking direct dependents.
    pub proof fn lemma_chain_in_dependents_closure(self, c: nat, key: K, s: Set<usize>, p: Seq<K>, i: int)
        requires
            self.wf(),
            self.is_path(c, p),
            p.len() >= 2,
            p.last() == key,
            forall|d: K| #[trigger] self.rdeps(key, c).contains(d) ==> s.contains(d.spec_index()),
            forall|k: K, d: K| s.contains(k.spec_index()) && #[trigger] self.rdeps(k, c).contains(d) ==> s.contains(d.spec_index()),
            0 <= i < p.len() - 1,
        ensures
            s.contains(p[i].spec_index()),
        decreases p.len() - i,
    {
        self.lemma_wf_facts();
        assert(self.edge_at(c, p, i));
        assert(self.deps(p[i], c).contains(p[i + 1]));
        assert(self.rdeps(p[i + 1], c).contains(p[i]));
        if i < p.len() - 2 {
            self.lemma_chain_in_dependents_closure(c, key, s, p, i + 1);
        }
    }

    /// Depth-first collection of all transitive dependents of `key`, using
    /// the given (empty) stack and visited set.
    fn collect_transitive_dependents(&self, key: K, channel: Channel, stack: &mut Vec<K>, visited: &mut IndexSet) -> (out: Vec<K>)
        requires
            self.wf(),
            old(stack)@.len() == 0,
            old(visited).contents() == Set::<usize>::empty(),
        ensures
            out@.no_duplicates(),
            forall|k: K| #[trigger] out@.contains(k) <==> self.depends_transitively(channel.idx(), k, key),
            final(stack)@.len() == 0,
            forall|i: usize| #[trigger] final(visited).contents().contains(i) <==> key_indices(out@).contains(i as int),
    {
        let ghost c = channel.idx();
        let ch = channel.index() as usize;
        let ki = key.index();
        proof {
            self.lemma_wf_facts();
            <usize as vstd::set_lib::FiniteFull>::full_properties();
        }
        let mut out: Vec<K> = Vec::new();
        if ki < self.reverse[ch].len() {
            let list = &self.reverse[ch][ki];
            let mut j: usize = 0;
            while j < list.len()
                invariant
                    self.wf(),
                    ch == c,
                    c == channel.idx(),
                    c < 64,
                    ki == key.spec_index(),
                    ki < self.reverse@[ch as int]@.len(),
                    list == &self.reverse@[ch as int]@[ki as int],
                    j <= list@.len(),
                    stack@ == list@.subrange(0, j as int),
                decreases list@.len() - j,
            {
                stack.push(list[j]);
                j += 1;
            }
            proof {
                assert(list@.subrange(0, j as int) == list@);
            }
        }
        proof {
            assert(stack@ == self.rdeps(key, c));
            assert forall|i: int| 0 <= i < stack@.len() implies self.depends_transitively(c, #[trigger] stack@[i], key) by {
                assert(self.rdeps(key, c).contains(stack@[i]));
                self.lemma_depends_direct(c, stack@[i], key);
            }
        }
        while stack.len() > 0
            invariant
                self.wf(),
                ch == c,
                c == channel.idx(),
                c < 64,
                Set::<usize>::full().finite(),
                visited.contents().finite(),
                visited.contents().len() <= Set::<usize>::full().len(),
                out@.no_duplicates(),
                forall|i: usize| #[trigger] visited.contents().contains(i) <==> key_indices(out@).contains(i as int),
                forall|k: K| #[trigger] out@.contains(k) ==> self.depends_transitively(c, k, key),
                forall|i: int| 0 <= i < stack@.len() ==> self.depends_transitively(c, #[trigger] stack@[i], key),
                forall|d: K| #[trigger] self.rdeps(key, c).contains(d) ==> visited.contents().contains(d.spec_index()) || stack@.contains(d),
                forall|k: K, d: K| visited.contents().contains(k.spec_index()) && #[trigger] self.rdeps(k, c).contains(d)
                    ==> visited.contents().contains(d.spec_index()) || stack@.contains(d),
            decreases Set::<usize>::full().len() - visited.contents().len(), stack@.len(),
        {
            let ghost old_stack = stack@;
            let ghost old_visited = visited.contents();
            let ghost old_out = out@;
            let next = stack.pop().unwrap();
            proof {
                assert(old_stack == stack@.push(next));
                assert(self.depends_transitively(c, old_stack[old_stack.len() - 1], key));
            }
            let idx = next.index();
            if visited.insert(idx) {
                proof {
                    vstd::set_lib::lemma_len_subset(visited.contents(), Set::<usize>::full());
                    assert(!out@.contains(next)) by {
                        if out@.contains(next) {
                            let m = choose|m: int| 0 <= m < out@.len() && out@[m] == next;
                            assert(key_indices(out@)[m] == idx as int);
                        }
                    }
                    lemma_push_fresh(out@, next);
                }
                out.push(next);
                proof {
                    assert forall|i: usize| #[trigger] visited.contents().contains(i) <==> key_indices(out@).contains(i as int) by {
                        if key_indices(out@).contains(i as int) {
                            let m = choose|m: int| 0 <= m < key_indices(out@).len() && key_indices(out@)[m] == i as int;
                            if m < old_out.len() {
                                assert(key_indices(old_out)[m] == i as int);
                            }
                        }
                        if old_visited.contains(i) {
                            assert(key_indices(old_out).contains(i as int));
                            let m = choose|m: int| 0 <= m < key_indices(old_out).len() && key_indices(old_out)[m] == i as int;
                            assert(key_indices(out@)[m] == i as int);
                        }
                        if i == idx {
                            assert(key_indices(out@)[old_out.len() as int] == i as int);
                        }
                    }
                }
                let ghost mid_stack = stack@;
                if idx < self.reverse[ch].len() {
                    let list = &self.reverse[ch][idx];
                    let mut j: usize = 0;
                    while j < list.len()
                        invariant
                            self.wf(),
                            ch == c,
                            c < 64,
                            idx == next.spec_index(),
                            idx < self.reverse@[ch as int]@.len(),
                            list == &self.reverse@[ch as int]@[idx as int],
                            j <= list@.len(),
                            stack@ == mid_stack + list@.subrange(0, j as int),
                            self.depends_transitively(c, next, key),
                            forall|i: int| 0 <= i < stack@.len() ==> self.depends_transitively(c, #[trigger] stack@[i], key),
                        decreases list@.len() - j,
                    {
                        proof {
                            self.lemma_wf_facts();
                            assert(self.rdeps(next, c) == list@);
                            assert(self.rdeps(next, c).contains(list@[j as int]));
                            assert(self.deps(list@[j as int], c).contains(next));
                            self.lemma_depends_prepend(c, list@[j as int], next, key);
                        }
                        stack.push(list[j]);
                        proof {
                            assert(stack@ == mid_stack + list@.subrange(0, j + 1));
                        }
                        j += 1;
                    }
                    proof {
                        assert(list@.subrange(0, j as int) == list@);
                    }
                }
                proof {
                    assert(self.rdeps(next, c) == slot(self.reverse@, c as int, idx as int));
                    assert forall|k: K, d: K| visited.contents().contains(k.spec_index()) && #[trigger] self.rdeps(k, c).contains(d)
                        implies visited.contents().contains(d.spec_index()) || stack@.contains(d) by {
                        if k.spec_index() == idx {
                            K::lemma_index_injective(k, next);
                            let j = choose|j: int| 0 <= j < self.rdeps(next, c).len() && self.rdeps(next, c)[j] == d;
                            assert(stack@[mid_stack.len() + j] == d);
                        } else if !visited.contents().contains(d.spec_index()) {
                            assert(old_visited.contains(k.spec_index()));
                            assert(old_stack.contains(d));
                            let j = choose|j: int| 0 <= j < old_stack.len() && old_stack[j] == d;
                            if j == old_stack.len() - 1 {
                                assert(d == next);
                            } else {
                                assert(stack@[j] == d);
                            }
                        }
                    }
                    assert forall|d: K| #[trigger] self.rdeps(key, c).contains(d)
                        implies visited.contents().contains(d.spec_index()) || stack@.contains(d) by {
                        if !visited.contents().contains(d.spec_index()) {
                            assert(old_stack.contains(d));
                            let j = choose|j: int| 0 <= j < old_stack.len() && old_stack[j] == d;
                            if j == old_stack.len() - 1 {
                                assert(d == next);
                            } else {
                                assert(stack@[j] == d);
                            }
                        }
                    }
                }
            } else {
                proof {
                    assert forall|k: K, d: K| visited.contents().contains(k.spec_index()) && #[trigger] self.rdeps(k, c).contains(d)
                        implies visited.contents().contains(d.spec_index()) || stack@.contains(d) by {
                        if !visited.contents().contains(d.spec_index()) {
                            assert(old_stack.contains(d));
                            let j = choose|j: int| 0 <= j < old_stack.len() && old_stack[j] == d;
                            if j == old_stack.len() - 1 {
                                assert(d == next);
                            } else {
                                assert(stack@[j] == d);
                            }
                        }
                    }
                    assert forall|d: K| #[trigger] self.rdeps(key, c).contains(d)
                        implies visited.contents().contains(d.spec_index()) || stack@.contains(d) by {
                        if !visited.contents().contains(d.spec_index()) {
                            assert(old_stack.contains(d));
                            let j = choose|j: int| 0 <= j < old_stack.len() && old_stack[j] == d;
                            if j == old_stack.len() - 1 {
                                assert(d == next);
                            } else {
                                assert(stack@[j] == d);
                            }
                        }
                    }
                }
            }
        }
        proof {
            assert forall|k: K| #[trigger] out@.contains(k) <==> self.depends_transitively(c, k, key) by {
                if self.depends_transitively(c, k, key) {
                    let p = choose|p: Seq<K>| #[trigger] self.is_path(c, p) && p.len() >= 2 && p[0] == k && p.last() == key;
                    self.lemma_chain_in_dependents_closure(c, key, visited.contents(), p, 0);
                    let i = k.spec_index();
                    assert(key_indices(out@).contains(i as int));
                    let m = choose|m: int| 0 <= m < key_indices(out@).len() && key_indices(out@)[m] == i as int;
                    K::lemma_index_injective(out@[m], k);
                }
            }
        }
        out
    }

    /// Returns all transitive dependents of `key` in the given channel: every
    /// key that depends on `key` directly or indirectly, each exactly once,
    /// in depth-first discovery order.
    pub fn transitive_dependents(&self, key: K, channel: Channel) -> (out: Vec<K>)
        requires
            self.wf(),
        ensures
            out@.no_duplicates(),
            forall|k: K| #[trigger] out@.contains(k) <==> self.depends_transitively(channel.idx(), k, key),
    {
        let mut stack: Vec<K> = Vec::new();
        let mut visited = IndexSet::new();
        self.collect_transitive_dependents(key, channel, &mut stack, &mut visited)
    }

    /// Like [`transitive_dependents`](Self::transitive_dependents), but
    /// reuses the allocations in `scratch`. The dependents are returned in
    /// visit order for the caller to act on.
    pub fn for_each_transitive_dependent(&self, key: K, channel: Channel, scratch: &mut TraversalScratch<K>) -> (out: Vec<K>)
        requires
            self.wf(),
        ensures
            out@.no_duplicates(),
            forall|k: K| #[trigger] out@.contains(k) <==> self.depends_transitively(channel.idx(), k, key),
    {
        scratch.reset();
        self.collect_transitive_dependents(key, channel, &mut scratch.stack, &mut scratch.visited)
    }


    /// Returns the direct dependencies of `key` in the given channel: the
    /// keys that `key` depends on, in storage order.
    pub fn dependencies(&self, key: K, channel: Channel) -> (r: Vec<K>)
        requires
            self.wf(),
        ensures
            r@ == self.deps(key, channel.idx()),
    {
        let ch = channel.index() as usize;
        let idx = key.index();
        if idx < self.forward[ch].len() {
            copy_keys(&self.forward[ch][idx])
        } else {
            Vec::new()
        }
    }

    /// Returns the direct dependents of `key` in the given channel: the keys
    /// that depend on `key`, in storage order.
    pub fn dependents(&self, key: K, channel: Channel) -> (r: Vec<K>)
        requires
            self.wf(),
        ensures
            r@ == self.rdeps(key, channel.idx()),
    {
        let ch = channel.index() as usize;
        let idx = key.index();
        if idx < self.reverse[ch].len() {
            copy_keys(&self.reverse[ch][idx])
        } else {
            Vec::new()
        }
    }

    /// Returns the set of channels in which `key` has any dependencies.
    pub fn dependency_channels(&self, key: K) -> (r: ChannelSet)
        requires
            self.wf(),
        ensures
            forall|c: nat| #[trigger] r@.contains(c) <==> (c < 64 && self.deps(key, c).len() > 0),
    {
        proof {
            self.lemma_wf_facts();
        }
        let idx = key.index();
        let r = if idx < self.forward_channels.len() {
            self.forward_channels[idx]
        } else {
            ChannelSet::empty()
        };
        proof {
            assert(r@ == self.dep_chans(key));
        }
        r
    }

    /// Returns the set of channels in which `key` has any dependents.
    pub fn dependent_channels(&self, key: K) -> (r: ChannelSet)
        requires
            self.wf(),
        ensures
            forall|c: nat| #[trigger] r@.contains(c) <==> (c < 64 && self.rdeps(key, c).len() > 0),
    {
        proof {
            self.lemma_wf_facts();
        }
        let idx = key.index();
        let r = if idx < self.reverse_channels.len() {
            self.reverse_channels[idx]
        } else {
            ChannelSet::empty()
        };
        proof {
            assert(r@ == self.rdep_chans(key));
        }
        r
    }

    /// Returns `true` if `key` has any dependencies in the given channel.
    pub fn has_dependencies(&self, key: K, channel: Channel) -> (r: bool)
        requires
            self.wf(),
        ensures
            r == (self.deps(key, channel.idx()).len() > 0),
    {
        let ch = channel.index() as usize;
        let idx = key.index();
        idx < self.forward[ch].len() && self.forward[ch][idx].len() > 0
    }

    /// Returns `true` if `key` has any dependents in the given channel.
    pub fn has_dependents(&self, key: K, channel: Channel) -> (r: bool)
        requires
            self.wf(),
        ensures
            r == (self.rdeps(key, channel.idx()).len() > 0),
    {
        let ch = channel.index() as usize;
        let idx = key.index();
        idx < self.reverse[ch].len() && self.reverse[ch][idx].len() > 0
    }

    /// Returns the in-degree of `key`: the number of keys it depends on.
    pub fn in_degree(&self, key: K, channel: Channel) -> (r: usize)
        requires
            self.wf(),
        ensures
            r == self.deps(key, channel.idx()).len(),
    {
        let ch = channel.index() as usize;
        let idx = key.index();
        if idx < self.forward[ch].len() {
            self.forward[ch][idx].len()
        } else {
            0
        }
    }

    /// Returns the out-degree of `key`: the number of keys that depend on it.
    pub fn out_degree(&self, key: K, channel: Channel) -> (r: usize)
        requires
            self.wf(),
        ensures
            r == self.rdeps(key, channel.idx()).len(),
    {
        let ch = channel.index() as usize;
        let idx = key.index();
        if idx < self.reverse[ch].len() {
            self.reverse[ch][idx].len()
        } else {
            0
        }
    }


    /// `k` has a dependency or a dependent in some channel.
    pub open spec fn has_edges(self, k: K) -> bool {
        (exists|c: nat| self.deps(k, c).len() > 0) || (exists|c: nat| self.rdeps(k, c).len() > 0)
    }

    /// Every key that has a dependency or a dependent, each exactly once.
    /// The order is unspecified.
    pub fn keys(&self) -> (r: Vec<K>)
        requires
            self.wf(),
        ensures
            r@.no_duplicates(),
            forall|k: K| #[trigger] r@.contains(k) <==> self.has_edges(k),
    {
        self.keys_vec()
    }

    /// Every key that has a dependency or a dependent, each exactly once,
    /// collected into a vector. The order is unspecified.
    pub fn keys_vec(&self) -> (r: Vec<K>)
        requires
            self.wf(),
        ensures
            r@.no_duplicates(),
            forall|k: K| #[trigger] r@.contains(k) <==> self.has_edges(k),
    {
        let mut out: Vec<K> = Vec::new();
        let mut visited = IndexSet::new();
        proof {
            self.lemma_wf_facts();
        }
        collect_slot_keys(&self.forward, &mut out, &mut visited);
        collect_slot_keys(&self.reverse, &mut out, &mut visited);
        proof {
            let ghost fwd = self.forward@;
            let ghost rev = self.reverse@;
            assert forall|k: K| #[trigger] out@.contains(k) implies self.has_edges(k) by {
                if in_some_slot(fwd, k) {
                    let (c, i) = choose|c: int, i: int| #[trigger] slot(fwd, c, i).contains(k);
                    assert(slot(fwd, c, i).len() > 0);
                    assert(0 <= c < 64);
                    assert(is_key_index::<K>(i));
                    let a = choose|a: K| a.spec_index() == i;
                    let cn: nat = c as nat;
                    assert(self.deps(a, cn) == slot(fwd, c, i));
                    assert(self.deps(a, cn).contains(k));
                    assert(self.rdeps(k, cn).contains(a));
                    assert(self.deps(k, cn).len() > 0 || self.rdeps(k, cn).len() > 0);
                    assert(self.has_edges(k));
                } else {
                    assert(in_some_slot(rev, k));
                    let (c, i) = choose|c: int, i: int| #[trigger] slot(rev, c, i).contains(k);
                    assert(slot(rev, c, i).len() > 0);
                    assert(0 <= c < 64);
                    assert(is_key_index::<K>(i));
                    let a = choose|a: K| a.spec_index() == i;
                    let cn: nat = c as nat;
                    assert(self.rdeps(a, cn) == slot(rev, c, i));
                    assert(self.rdeps(a, cn).contains(k));
                    assert(self.deps(k, cn).contains(a));
                    assert(self.deps(k, cn).len() > 0 || self.rdeps(k, cn).len() > 0);
                    assert(self.has_edges(k));
                }
            }
            assert forall|k: K| #[trigger] self.has_edges(k) implies out@.contains(k) by {
                if exists|c: nat| self.deps(k, c).len() > 0 {
                    let c = choose|c: nat| self.deps(k, c).len() > 0;
                    let d = self.deps(k, c)[0];
                    assert(self.deps(k, c).contains(d));
                    assert(self.rdeps(d, c).contains(k));
                    assert(c < 64);
                    assert(self.rdeps(d, c) == slot(rev, c as int, d.spec_index() as int));
                    assert(slot(rev, c as int, d.spec_index() as int).contains(k));
                } else {
                    let c = choose|c: nat| self.rdeps(k, c).len() > 0;
                    let a = self.rdeps(k, c)[0];
                    assert(self.rdeps(k, c).contains(a));
                    assert(self.deps(a, c).contains(k));
                    assert(c < 64);
                    assert(self.deps(a, c) == slot(fwd, c as int, a.spec_index() as int));
                    assert(slot(fwd, c as int, a.spec_index() as int).contains(k));
                }
            }
        }
        out
    }


    /// Reaching `from` does not depend on the dependencies of `from` itself.
    proof fn lemma_reach_to_unaffected(g1: Self, g2: Self, c: nat, d: K, from: K, p: Seq<K>)
        requires
            g1.is_path(c, p),
            p[0] == d,
            p.last() == from,
            forall|k: K| k != from ==> #[trigger] g1.deps(k, c) == g2.deps(k, c),
        ensures
            g2.reaches(c, d, from),
        decreases p.len(),
    {
        if exists|i: int| 0 <= i < p.len() - 1 && p[i] == from {
            let i = choose|i: int| 0 <= i < p.len() - 1 && p[i] == from;
            let q = p.subrange(0, i + 1);
            assert forall|j: int| 0 <= j < q.len() - 1 implies #[trigger] g1.edge_at(c, q, j) by {
                assert(g1.edge_at(c, p, j));
            }
            assert(g1.is_path(c, q));
            Self::lemma_reach_to_unaffected(g1, g2, c, d, from, q);
        } else {
            assert forall|j: int| 0 <= j < p.len() - 1 implies #[trigger] g2.edge_at(c, p, j) by {
                assert(g1.edge_at(c, p, j));
                assert(p[j] != from);
            }
            assert(g2.is_path(c, p));
        }
    }

    /// Graphs that agree on every key but `from` agree on what reaches `from`.
    proof fn lemma_reach_to_same(g1: Self, g2: Self, c: nat, d: K, from: K)
        requires
            forall|k: K| k != from ==> #[trigger] g1.deps(k, c) == g2.deps(k, c),
        ensures
            g1.reaches(c, d, from) == g2.reaches(c, d, from),
    {
        if g1.reaches(c, d, from) {
            let p = choose|p: Seq<K>| #[trigger] g1.is_path(c, p) && p[0] == d && p.last() == from;
            Self::lemma_reach_to_unaffected(g1, g2, c, d, from, p);
        }
        if g2.reaches(c, d, from) {
            let p = choose|p: Seq<K>| #[trigger] g2.is_path(c, p) && p[0] == d && p.last() == from;
            assert forall|k: K| k != from implies #[trigger] g2.deps(k, c) == g1.deps(k, c) by {
                assert(g1.deps(k, c) == g2.deps(k, c));
            }
            Self::lemma_reach_to_unaffected(g2, g1, c, d, from, p);
        }
    }

    /// Replaces all direct dependencies of `from` in `channel` by the keys in
    /// `to` (duplicates in `to` are ignored).
    ///
    /// Dependencies missing from `to` are removed, new ones are added with
    /// `handling`, and common ones are kept. If the dependency set is already
    /// equal to `to`, nothing changes and `Ok(false)` is returned. If adding
    /// a new dependency returns `Err(CycleError)`, every change is rolled
    /// back (the dependency set of `from` is restored) and the error is
    /// returned. Otherwise `Ok(true)` is returned.
    pub fn replace_dependencies(&mut self, from: K, channel: Channel, to: &[K], handling: CycleHandling) -> (r: Result<bool, CycleError<K>>)
        requires
            old(self).wf(),
            from.spec_index() < usize::MAX,
            forall|i: int| 0 <= i < to@.len() ==> (#[trigger] to@[i]).spec_index() < usize::MAX,
        ensures
            final(self).wf(),
            old(self).replace_outcome(*final(self), from, channel, to@, handling, r),
    {
        let ghost c = channel.idx();
        let ghost g0 = *self;
        proof {
            g0.lemma_wf_facts();
        }
        // Collect the new dependencies, deduplicated.
        let mut new_deps: Vec<K> = Vec::new();
        let mut i: usize = 0;
        while i < to.len()
            invariant
                i <= to@.len(),
                new_deps@ == dedup(to@.subrange(0, i as int)),
            decreases to@.len() - i,
        {
            assert(to@.subrange(0, i + 1).drop_last() == to@.subrange(0, i as int));
            if !vec_contains(&new_deps, to[i]) {
                new_deps.push(to[i]);
            }
            i += 1;
        }
        proof {
            assert(to@.subrange(0, i as int) == to@);
            lemma_dedup(to@);
        }
        let ghost new_set = to@.to_set();
        let ghost old_set = g0.deps(from, c).to_set();
        let old_deps = self.dependencies(from, channel);
        proof {
            assert(new_deps@.to_set() =~= new_set);
            old_deps@.unique_seq_to_set();
            new_deps@.unique_seq_to_set();
        }
        // Unchanged?
        let mut unchanged = old_deps.len() == new_deps.len();
        let mut j: usize = 0;
        while unchanged && j < old_deps.len()
            invariant
                j <= old_deps@.len(),
                unchanged ==> forall|m: int| 0 <= m < j ==> new_deps@.contains(#[trigger] old_deps@[m]),
                unchanged ==> old_deps@.len() == new_deps@.len(),
                !unchanged ==> old_set != new_set,
                old_deps@.to_set() == old_set,
                new_deps@.to_set() == new_set,
                old_deps@.no_duplicates(),
                new_deps@.no_duplicates(),
                old_deps@.len() == old_set.len(),
                new_deps@.len() == new_set.len(),
            decreases old_deps@.len() - j,
        {
            if !vec_contains(&new_deps, old_deps[j]) {
                proof {
                    assert(old_set.contains(old_deps@[j as int]));
                }
                unchanged = false;
            }
            j += 1;
        }
        if unchanged {
            proof {
                assert(old_set.subset_of(new_set)) by {
                    assert forall|x: K| old_set.contains(x) implies new_set.contains(x) by {
                        let m = choose|m: int| 0 <= m < old_deps@.len() && old_deps@[m] == x;
                        assert(new_deps@.contains(old_deps@[m]));
                    }
                }
                vstd::set_lib::lemma_subset_equality(old_set, new_set);
            }
            return Ok(false);
        }
        proof {
            if old_set == new_set {
                assert(old_deps@.len() == new_deps@.len());
                assert forall|m: int| 0 <= m < old_deps@.len() implies new_deps@.contains(#[trigger] old_deps@[m]) by {
                    assert(old_set.contains(old_deps@[m]));
                }
            }
        }
        // Split into removals and additions.
        let mut to_remove: Vec<K> = Vec::new();
        let mut j: usize = 0;
        while j < old_deps.len()
            invariant
                j <= old_deps@.len(),
                old_deps@.no_duplicates(),
                to_remove@.no_duplicates(),
                forall|x: K| #[trigger] to_remove@.contains(x)
                    <==> (old_deps@.subrange(0, j as int).contains(x) && !new_deps@.contains(x)),
                new_deps@.to_set() == new_set,
                to_remove@ == old_deps@.subrange(0, j as int).filter(|x: K| !new_set.contains(x)),
            decreases old_deps@.len() - j,
        {
            let d = old_deps[j];
            proof {
                old_deps@.subrange(0, j as int).lemma_filter_push(d, |x: K| !new_set.contains(x));
                assert(new_deps@.contains(d) == new_set.contains(d));
                assert(old_deps@.subrange(0, j + 1) == old_deps@.subrange(0, j as int).push(d));
                lemma_push_contains(old_deps@.subrange(0, j as int), d);
                assert(!old_deps@.subrange(0, j as int).contains(d)) by {
                    if old_deps@.subrange(0, j as int).contains(d) {
                        let m = choose|m: int| 0 <= m < j && old_deps@.subrange(0, j as int)[m] == d;
                        assert(old_deps@[m] == old_deps@[j as int]);
                    }
                }
            }
            if !vec_contains(&new_deps, d) {
                proof {
                    lemma_push_fresh(to_remove@, d);
                }
                to_remove.push(d);
            }
            j += 1;
        }
        proof {
            assert(old_deps@.subrange(0, j as int) == old_deps@);
        }
        let ghost old_seq = old_deps@;
        let mut to_add: Vec<K> = Vec::new();
        let mut j: usize = 0;
        while j < new_deps.len()
            invariant
                j <= new_deps@.len(),
                new_deps@.no_duplicates(),
                to_add@.no_duplicates(),
                forall|x: K| #[trigger] to_add@.contains(x)
                    <==> (new_deps@.subrange(0, j as int).contains(x) && !old_deps@.contains(x)),
                old_deps@.to_set() == old_set,
                to_add@ == new_deps@.subrange(0, j as int).filter(|x: K| !old_set.contains(x)),
            decreases new_deps@.len() - j,
        {
            let d = new_deps[j];
            proof {
                new_deps@.subrange(0, j as int).lemma_filter_push(d, |x: K| !old_set.contains(x));
                assert(old_deps@.contains(d) == old_set.contains(d));
                assert(new_deps@.subrange(0, j + 1) == new_deps@.subrange(0, j as int).push(d));
                lemma_push_contains(new_deps@.subrange(0, j as int), d);
                assert(!new_deps@.subrange(0, j as int).contains(d)) by {
                    if new_deps@.subrange(0, j as int).contains(d) {
                        let m = choose|m: int| 0 <= m < j && new_deps@.subrange(0, j as int)[m] == d;
                        assert(new_deps@[m] == new_deps@[j as int]);
                    }
                }
            }
            if !vec_contains(&old_deps, d) {
                proof {
                    lemma_push_fresh(to_add@, d);
                }
                to_add.push(d);
            }
            j += 1;
        }
        proof {
            assert(new_deps@.subrange(0, j as int) == new_deps@);
        }
        proof {
            assert forall|x: K| #[trigger] to_remove@.contains(x) <==> (old_set.contains(x) && !new_set.contains(x)) by {
                assert(old_set.contains(x) == old_deps@.contains(x));
                assert(new_set.contains(x) == new_deps@.contains(x));
            }
            assert forall|x: K| #[trigger] to_add@.contains(x) <==> (new_set.contains(x) && !old_set.contains(x)) by {
                assert(old_set.contains(x) == old_deps@.contains(x));
                assert(new_set.contains(x) == new_deps@.contains(x));
            }
            assert(self.deps(from, c).to_set() =~= old_set.difference(Seq::<K>::empty().to_set()));
        }
        // Remove stale edges first, so cycle checks see the updated graph.
        let mut removed: Vec<K> = Vec::new();
        let mut j: usize = 0;
        while j < to_remove.len()
            invariant
                self.wf(),
                g0.wf(),
                c == channel.idx(),
                j <= to_remove@.len(),
                to_remove@.no_duplicates(),
                forall|x: K| #[trigger] to_remove@.contains(x) <==> (old_set.contains(x) && !new_set.contains(x)),
                removed@ == to_remove@.subrange(0, j as int),
                self.deps(from, c) == without_all(g0.deps(from, c), removed@),
                self.deps(from, c).to_set() == old_set.difference(removed@.to_set()),
                self.deps(from, c).no_duplicates(),
                forall|k: K, c2: nat| (k != from || c2 != c) ==> #[trigger] self.deps(k, c2) == g0.deps(k, c2),
            decreases to_remove@.len() - j,
        {
            let d = to_remove[j];
            let ghost before = *self;
            let ghost old_removed = removed@;
            proof {
                assert(to_remove@.contains(to_remove@[j as int]));
                assert(old_set.contains(d));
                assert(!removed@.contains(d)) by {
                    if removed@.contains(d) {
                        let m = choose|m: int| 0 <= m < removed@.len() && removed@[m] == d;
                        assert(to_remove@[m] == to_remove@[j as int]);
                    }
                }
                assert(!removed@.to_set().contains(d));
                assert(before.deps(from, c).to_set().contains(d));
            }
            let ok = self.remove_dependency(from, d, channel);
            proof {
                assert(ok);
                lemma_without(before.deps(from, c), d);
                before.lemma_wf_facts();
            }
            removed.push(d);
            proof {
                assert(removed@.drop_last() =~= old_removed);
                assert(removed@ == to_remove@.subrange(0, j + 1));
                lemma_push_contains(old_removed, d);
                assert forall|y: K| #[trigger] self.deps(from, c).to_set().contains(y)
                    == old_set.difference(removed@.to_set()).contains(y) by {
                    assert(self.deps(from, c).contains(y) == (before.deps(from, c).contains(y) && y != d));
                    assert(before.deps(from, c).to_set().contains(y) == old_set.difference(old_removed.to_set()).contains(y));
                    assert(removed@.contains(y) == (old_removed.contains(y) || y == d));
                }
                assert(self.deps(from, c).to_set() =~= old_set.difference(removed@.to_set()));
            }
            j += 1;
        }
        proof {
            assert(removed@ == to_remove@);
            assert forall|y: K| #[trigger] self.deps(from, c).to_set().contains(y)
                == old_set.intersect(new_set).contains(y) by {
                assert(removed@.to_set().contains(y) == to_remove@.contains(y));
            }
            assert(self.deps(from, c).to_set() =~= old_set.intersect(new_set));
        }
        let ghost g1 = *self;
        let ghost acc = |x: K| replace_accepts(g0, c, from, x, handling);
        proof {
            assert forall|k: K| k != from implies #[trigger] g0.deps(k, c) == g1.deps(k, c) by {}
            assert(to_add@.subrange(0, 0).filter(acc) =~= Seq::<K>::empty()) by {
                assert(to_add@.subrange(0, 0) =~= Seq::<K>::empty());
                to_add@.subrange(0, 0).filter_lemma(acc);
            }
            assert(g1.deps(from, c) + Seq::<K>::empty() =~= g1.deps(from, c));
        }
        // Add new edges; roll back on error.
        let mut added: Vec<K> = Vec::new();
        proof {
            assert(self.deps(from, c).to_set() =~= old_set.intersect(new_set).union(added@.to_set()));
        }
        let mut j: usize = 0;
        while j < to_add.len()
            invariant
                self.wf(),
                g0.wf(),
                c == channel.idx(),
                from.spec_index() < usize::MAX,
                forall|i: int| 0 <= i < to@.len() ==> (#[trigger] to@[i]).spec_index() < usize::MAX,
                new_set == to@.to_set(),
                j <= to_add@.len(),
                to_add@.no_duplicates(),
                forall|x: K| #[trigger] to_add@.contains(x) <==> (new_set.contains(x) && !old_set.contains(x)),
                self.deps(from, c).no_duplicates(),
                added@.no_duplicates(),
                forall|x: K| #[trigger] added@.contains(x)
                    <==> (to_add@.subrange(0, j as int).contains(x) && replace_accepts(g0, c, from, x, handling)),
                handling == CycleHandling::Error ==> forall|m: int| 0 <= m < j ==> !replace_cyclic(g0, c, from, #[trigger] to_add@[m]),
                self.deps(from, c).to_set() == old_set.intersect(new_set).union(added@.to_set()),
                forall|k: K, c2: nat| (k != from || c2 != c) ==> #[trigger] self.deps(k, c2) == g0.deps(k, c2),
                removed@.no_duplicates(),
                forall|x: K| #[trigger] removed@.contains(x) <==> (old_set.contains(x) && !new_set.contains(x)),
                old_set == g0.deps(from, c).to_set(),
                g0 == *old(self),
                new_set == to@.to_set(),
                acc == (|x: K| replace_accepts(g0, c, from, x, handling)),
                added@ == to_add@.subrange(0, j as int).filter(acc),
                self.deps(from, c) == g1.deps(from, c) + added@,
            decreases to_add@.len() - j,
        {
            let d = to_add[j];
            let ghost before = *self;
            let ghost old_added = added@;
            proof {
                assert(to_add@.contains(to_add@[j as int]));
                assert(new_set.contains(d));
                assert(to@.contains(d));
                let i = choose|i: int| 0 <= i < to@.len() && to@[i] == d;
                assert(to@[i].spec_index() < usize::MAX);
                assert(to_add@.subrange(0, j + 1) == to_add@.subrange(0, j as int).push(d));
                lemma_push_contains(to_add@.subrange(0, j as int), d);
                assert(!to_add@.subrange(0, j as int).contains(d)) by {
                    if to_add@.subrange(0, j as int).contains(d) {
                        let m2 = choose|m2: int| 0 <= m2 < j && to_add@.subrange(0, j as int)[m2] == d;
                        assert(to_add@[m2] == to_add@[j as int]);
                    }
                }
                assert(!added@.contains(d));
                assert(!before.deps(from, c).contains(d)) by {
                    if before.deps(from, c).contains(d) {
                        assert(before.deps(from, c).to_set().contains(d));
                        assert(!old_set.contains(d));
                        assert(added@.to_set().contains(d));
                    }
                }
                assert forall|k: K| k != from implies #[trigger] before.deps(k, c) == g0.deps(k, c) by {}
                Self::lemma_reach_to_same(before, g0, c, d, from);
            }
            match self.add_dependency(from, d, channel, handling) {
                Ok(true) => {
                    proof {
                        lemma_push_fresh(added@, d);
                        lemma_push_fresh(before.deps(from, c), d);
                    }
                    added.push(d);
                    proof {
                        assert(self.deps(from, c) == before.deps(from, c).push(d));
                        assert(self.deps(from, c) =~= g1.deps(from, c) + added@);
                        assert forall|y: K| #[trigger] self.deps(from, c).to_set().contains(y)
                            == old_set.intersect(new_set).union(added@.to_set()).contains(y) by {
                            assert(self.deps(from, c).contains(y) == (before.deps(from, c).contains(y) || y == d));
                            assert(before.deps(from, c).to_set().contains(y) == old_set.intersect(new_set).union(old_added.to_set()).contains(y));
                            assert(added@.contains(y) == (old_added.contains(y) || y == d));
                        }
                        assert(self.deps(from, c).to_set() =~= old_set.intersect(new_set).union(added@.to_set()));
                    }
                },
                Ok(false) => {
                    proof {
                        assert(self.deps(from, c) == before.deps(from, c));
                    }
                },
                Err(e) => {
                    // Roll back the additions, then restore the removals.
                    proof {
                        assert forall|x: K| #[trigger] added@.contains(x) implies !old_set.contains(x) by {
                            assert(to_add@.subrange(0, j as int).contains(x));
                            let q = choose|q: int| 0 <= q < j && to_add@.subrange(0, j as int)[q] == x;
                            assert(to_add@.contains(to_add@[q]));
                        }
                        assert(added@.subrange(0, 0) =~= Seq::<K>::empty());
                        assert(self.deps(from, c).to_set() =~= old_set.intersect(new_set).union(
                            added@.to_set().difference(added@.subrange(0, 0).to_set())));
                    }
                    let mut m: usize = 0;
                    while m < added.len()
                        invariant
                            self.wf(),
                            c == channel.idx(),
                            m <= added@.len(),
                            added@.no_duplicates(),
                            forall|x: K| #[trigger] added@.contains(x) ==> !old_set.contains(x),
                            self.deps(from, c).to_set() == old_set.intersect(new_set).union(
                                added@.to_set().difference(added@.subrange(0, m as int).to_set())),
                            self.deps(from, c).no_duplicates(),
                            forall|k: K, c2: nat| (k != from || c2 != c) ==> #[trigger] self.deps(k, c2) == g0.deps(k, c2),
                        decreases added@.len() - m,
                    {
                        let x = added[m];
                        let ghost b2 = *self;
                        proof {
                            assert(added@.contains(added@[m as int]));
                            assert(!added@.subrange(0, m as int).contains(x)) by {
                                if added@.subrange(0, m as int).contains(x) {
                                    let q = choose|q: int| 0 <= q < m && added@.subrange(0, m as int)[q] == x;
                                    assert(added@[q] == added@[m as int]);
                                }
                            }
                            assert(b2.deps(from, c).to_set().contains(x));
                        }
                        let _ = self.remove_dependency(from, x, channel);
                        proof {
                            lemma_without(b2.deps(from, c), x);
                            assert(added@.subrange(0, m + 1) == added@.subrange(0, m as int).push(x));
                            lemma_push_contains(added@.subrange(0, m as int), x);
                            assert forall|y: K| #[trigger] self.deps(from, c).to_set().contains(y)
                                == old_set.intersect(new_set).union(added@.to_set().difference(added@.subrange(0, m + 1).to_set())).contains(y) by {
                                assert(self.deps(from, c).contains(y) == (b2.deps(from, c).contains(y) && y != x));
                                assert(b2.deps(from, c).to_set().contains(y) == old_set.intersect(new_set).union(
                                    added@.to_set().difference(added@.subrange(0, m as int).to_set())).contains(y));
                            }
                            assert(self.deps(from, c).to_set() =~= old_set.intersect(new_set).union(
                                added@.to_set().difference(added@.subrange(0, m + 1).to_set())));
                        }
                        m += 1;
                    }
                    proof {
                        assert(added@.subrange(0, m as int) == added@);
                        assert(self.deps(from, c).to_set() =~= old_set.intersect(new_set).union(removed@.subrange(0, 0).to_set()));
                    }
                    let mut m: usize = 0;
                    while m < removed.len()
                        invariant
                            self.wf(),
                            g0.wf(),
                            c == channel.idx(),
                            from.spec_index() < usize::MAX,
                            m <= removed@.len(),
                            removed@.no_duplicates(),
                            forall|x: K| #[trigger] removed@.contains(x) <==> (old_set.contains(x) && !new_set.contains(x)),
                            self.deps(from, c).to_set() == old_set.intersect(new_set).union(removed@.subrange(0, m as int).to_set()),
                            self.deps(from, c).no_duplicates(),
                            forall|k: K, c2: nat| (k != from || c2 != c) ==> #[trigger] self.deps(k, c2) == g0.deps(k, c2),
                            old_set == g0.deps(from, c).to_set(),
                        decreases removed@.len() - m,
                    {
                        let x = removed[m];
                        let ghost b2 = *self;
                        proof {
                            g0.lemma_wf_facts();
                            assert(removed@.contains(removed@[m as int]));
                            assert(old_set.contains(x));
                            assert(g0.deps(from, c).contains(x));
                            assert(x != from);
                            assert(!removed@.subrange(0, m as int).contains(x)) by {
                                if removed@.subrange(0, m as int).contains(x) {
                                    let q = choose|q: int| 0 <= q < m && removed@.subrange(0, m as int)[q] == x;
                                    assert(removed@[q] == removed@[m as int]);
                                }
                            }
                            assert(!b2.deps(from, c).contains(x)) by {
                                if b2.deps(from, c).contains(x) {
                                    assert(b2.deps(from, c).to_set().contains(x));
                                }
                            }
                        }
                        let _ = self.add_dependency(from, x, channel, CycleHandling::Allow);
                        proof {
                            lemma_push_fresh(b2.deps(from, c), x);
                            assert(removed@.subrange(0, m + 1) == removed@.subrange(0, m as int).push(x));
                            lemma_push_contains(removed@.subrange(0, m as int), x);
                            assert forall|y: K| #[trigger] self.deps(from, c).to_set().contains(y)
                                == old_set.intersect(new_set).union(removed@.subrange(0, m + 1).to_set()).contains(y) by {
                                assert(self.deps(from, c).contains(y) == (b2.deps(from, c).contains(y) || y == x));
                                assert(b2.deps(from, c).to_set().contains(y) == old_set.intersect(new_set).union(
                                    removed@.subrange(0, m as int).to_set()).contains(y));
                            }
                            assert(self.deps(from, c).to_set() =~= old_set.intersect(new_set).union(removed@.subrange(0, m + 1).to_set()));
                        }
                        m += 1;
                    }
                    proof {
                        assert(removed@.subrange(0, m as int) == removed@);
                        assert forall|y: K| #[trigger] self.deps(from, c).to_set().contains(y) == old_set.contains(y) by {
                            assert(removed@.to_set().contains(y) == removed@.contains(y));
                        }
                        assert(self.deps(from, c).to_set() =~= old_set);
                        assert(handling == CycleHandling::Error);
                        assert(replace_cyclic(g0, c, from, d));
                    }
                    return Err(e);
                },
            }
            proof {
                assert(handling == CycleHandling::Error ==> !replace_cyclic(g0, c, from, d));
                assert forall|x: K| #[trigger] added@.contains(x)
                    <==> (to_add@.subrange(0, j + 1).contains(x) && replace_accepts(g0, c, from, x, handling)) by {
                    assert(to_add@.subrange(0, j + 1).contains(x) == (to_add@.subrange(0, j as int).contains(x) || x == d));
                }
                to_add@.subrange(0, j as int).lemma_filter_push(d, acc);
                assert(to_add@.subrange(0, j + 1) =~= to_add@.subrange(0, j as int).push(d));
                if added@.len() > old_added.len() {
                    assert(added@.contains(d)) by { assert(added@[added@.len() - 1] == d); }
                    assert(acc(d));
                } else {
                    assert(!added@.contains(d));
                    assert(!acc(d));
                }
            }
            j += 1;
        }
        proof {
            assert(to_add@.subrange(0, j as int) == to_add@);
            let acc = Set::new(|d: K| new_set.contains(d) && !old_set.contains(d) && replace_accepts(g0, c, from, d, handling));
            assert forall|y: K| #[trigger] added@.to_set().contains(y) == acc.contains(y) by {
                assert(added@.to_set().contains(y) == added@.contains(y));
            }
            assert(added@.to_set() =~= acc);
            if handling == CycleHandling::Error {
                assert forall|d: K| #[trigger] new_set.contains(d) && !old_set.contains(d) implies !replace_cyclic(g0, c, from, d) by {
                    assert(to_add@.contains(d));
                    let m = choose|m: int| 0 <= m < to_add@.len() && to_add@[m] == d;
                }
            }
        }
        Ok(true)
    }

    fn handle_cycle(from: K, to: K, channel: Channel, handling: CycleHandling) -> (r: Result<bool, CycleError<K>>)
        ensures
            r == cycle_outcome(from, to, channel, handling),
    {
        match handling {
            CycleHandling::DebugAssert => Ok(false),
            CycleHandling::Error => Err(CycleError { from, to, channel }),
            CycleHandling::Ignore | CycleHandling::Allow => Ok(false),
        }
    }

    /// Checks whether adding `from -> to` would create a cycle, by a
    /// depth-first search from `to` looking for `from`.
    pub(crate) fn would_create_cycle(&self, from: K, to: K, channel: Channel) -> (r: bool)
        requires
            self.wf(),
        ensures
            r == self.reaches(channel.idx(), to, from),
    {
        let ch = channel.index() as usize;
        let ghost c = channel.idx();
        let mut visited = IndexSet::new();
        let mut stack: Vec<K> = Vec::new();
        stack.push(to);
        proof {
            self.lemma_reaches_refl(c, to);
            <usize as vstd::set_lib::FiniteFull>::full_properties();
            assert(stack@.contains(to)) by { assert(stack@[0] == to); }
        }
        while stack.len() > 0
            invariant
                self.wf(),
                ch == c,
                c == channel.idx(),
                c < 64,
                Set::<usize>::full().finite(),
                visited.contents().finite(),
                visited.contents().len() <= Set::<usize>::full().len(),
                forall|i: int| 0 <= i < stack@.len() ==> self.reaches(c, to, #[trigger] stack@[i]),
                visited.contents().contains(to.spec_index()) || stack@.contains(to),
                !visited.contents().contains(from.spec_index()),
                forall|k: K, s: K| visited.contents().contains(k.spec_index()) && #[trigger] self.deps(k, c).contains(s)
                    ==> visited.contents().contains(s.spec_index()) || stack@.contains(s),
            decreases Set::<usize>::full().len() - visited.contents().len(), stack@.len(),
        {
            let ghost old_stack = stack@;
            let ghost old_visited = visited.contents();
            let current = stack.pop().unwrap();
            proof {
                assert(old_stack == stack@.push(current));
                assert(self.reaches(c, to, old_stack[old_stack.len() - 1]));
            }
            if current.key_eq(&from) {
                proof {
                    assert(old_stack[old_stack.len() - 1] == current);
                    assert(self.reaches(c, to, current));
                }
                return true;
            }
            let idx = current.index();
            if !visited.insert(idx) {
                proof {
                    assert forall|k: K, s: K| visited.contents().contains(k.spec_index()) && #[trigger] self.deps(k, c).contains(s)
                        implies visited.contents().contains(s.spec_index()) || stack@.contains(s) by {
                        if !visited.contents().contains(s.spec_index()) {
                            assert(old_stack.contains(s));
                            let j = choose|j: int| 0 <= j < old_stack.len() && old_stack[j] == s;
                            if j == old_stack.len() - 1 {
                                assert(s == current);
                            } else {
                                assert(stack@[j] == s);
                            }
                        }
                    }
                    if !visited.contents().contains(to.spec_index()) {
                        let j = choose|j: int| 0 <= j < old_stack.len() && old_stack[j] == to;
                        if j == old_stack.len() - 1 {
                            assert(to == current);
                        } else {
                            assert(stack@[j] == to);
                        }
                    }
                }
                continue;
            }
            proof {
                if idx == from.spec_index() {
                    K::lemma_index_injective(current, from);
                }
                vstd::set_lib::lemma_len_subset(visited.contents(), Set::<usize>::full());
                assert(visited.contents().len() == old_visited.len() + 1);
            }
            let ghost mid_stack = stack@;
            let fwd = &self.forward[ch];
            if idx < fwd.len() {
                let list = &fwd[idx];
                let mut j: usize = 0;
                while j < list.len()
                    invariant
                        self.wf(),
                        ch == c,
                        c < 64,
                        fwd == &self.forward@[ch as int],
                        idx < fwd@.len(),
                        list == &fwd@[idx as int],
                        idx == current.spec_index(),
                        j <= list@.len(),
                        stack@ == mid_stack + list@.subrange(0, j as int),
                        self.reaches(c, to, current),
                        forall|i: int| 0 <= i < mid_stack.len() ==> self.reaches(c, to, #[trigger] mid_stack[i]),
                        forall|i: int| 0 <= i < stack@.len() ==> self.reaches(c, to, #[trigger] stack@[i]),
                    decreases list@.len() - j,
                {
                    proof {
                        assert(self.deps(current, c) == list@);
                        assert(self.deps(current, c).contains(list@[j as int]));
                        self.lemma_reaches_step(c, to, current, list@[j as int]);
                    }
                    stack.push(list[j]);
                    proof {
                        assert(stack@ == mid_stack + list@.subrange(0, j + 1));
                    }
                    j += 1;
                }
                proof {
                    assert(list@.subrange(0, j as int) == list@);
                }
            }
            proof {
                assert(self.deps(current, c) == slot(self.forward@, c as int, idx as int));
                assert forall|k: K, s: K| visited.contents().contains(k.spec_index()) && #[trigger] self.deps(k, c).contains(s)
                    implies visited.contents().contains(s.spec_index()) || stack@.contains(s) by {
                    if k.spec_index() == idx {
                        K::lemma_index_injective(k, current);
                        let j = choose|j: int| 0 <= j < self.deps(current, c).len() && self.deps(current, c)[j] == s;
                        assert(stack@[mid_stack.len() + j] == s);
                    } else if !visited.contents().contains(s.spec_index()) {
                        assert(old_visited.contains(k.spec_index()));
                        assert(old_stack.contains(s));
                        let j = choose|j: int| 0 <= j < old_stack.len() && old_stack[j] == s;
                        if j == old_stack.len() - 1 {
                            assert(s == current);
                        } else {
                            assert(stack@[j] == s);
                        }
                    }
                }
                if !visited.contents().contains(to.spec_index()) {
                    let j = choose|j: int| 0 <= j < old_stack.len() && old_stack[j] == to;
                    if j == old_stack.len() - 1 {
                        assert(to == current);
                    } else {
                        assert(stack@[j] == to);
                    }
                }
            }
        }
        proof {
            if self.reaches(c, to, from) {
                let p = choose|p: Seq<K>| #[trigger] self.is_path(c, p) && p[0] == to && p.last() == from;
                self.lemma_closed_contains_path(c, visited.contents(), p, p.len() - 1);
            }
        }
        false
    }
}


/// Returns `true` if `v` contains `x`.
pub fn vec_contains<K: Key>(v: &Vec<K>, x: K) -> (r: bool)
    ensures
        r == v@.contains(x),
{
    let mut i: usize = 0;
    while i < v.len()
        invariant
            i <= v@.len(),
            forall|j: int| 0 <= j < i ==> v@[j] != x,
        decreases v@.len() - i,
    {
        if v[i].key_eq(&x) {
            assert(v@[i as int] == x);
            return true;
        }
        i += 1;
    }
    false
}

/// Returns a copy of `v`.
pub fn copy_keys<K: Copy>(v: &Vec<K>) -> (r: Vec<K>)
    ensures
        r@ == v@,
{
    let mut r: Vec<K> = Vec::new();
    let mut i: usize = 0;
    while i < v.len()
        invariant
            i <= v@.len(),
            r@ == v@.subrange(0, i as int),
        decreases v@.len() - i,
    {
        r.push(v[i]);
        i += 1;
    }
    assert(v@.subrange(0, i as int) == v@);
    r
}

/// Returns the position of `x` in `v`, if any.
pub fn vec_position<K: Key>(v: &Vec<K>, x: K) -> (r: Option<usize>)
    ensures
        match r {
            Some(i) => i < v@.len() && v@[i as int] == x && forall|j: int| 0 <= j < i ==> v@[j] != x,
            None => !v@.contains(x),
        },
{
    let mut i: usize = 0;
    while i < v.len()
        invariant
            i <= v@.len(),
            forall|j: int| 0 <= j < i ==> v@[j] != x,
        decreases v@.len() - i,
    {
        if v[i].key_eq(&x) {
            return Some(i);
        }
        i += 1;
    }
    false_none(v, x)
}

fn false_none<K>(v: &Vec<K>, x: K) -> (r: Option<usize>)
    requires
        forall|j: int| 0 <= j < v@.len() ==> v@[j] != x,
    ensures
        r is None,
        !v@.contains(x),
{
    None
}


/// `s` without repeated values, keeping first occurrences in order.
pub open spec fn dedup<K>(s: Seq<K>) -> Seq<K>
    decreases s.len(),
{
    if s.len() == 0 {
        Seq::empty()
    } else {
        let d = dedup(s.drop_last());
        if d.contains(s.last()) {
            d
        } else {
            d.push(s.last())
        }
    }
}

/// [`dedup`] keeps every value exactly once.
pub proof fn lemma_dedup<K>(s: Seq<K>)
    ensures
        dedup(s).no_duplicates(),
        forall|x: K| #[trigger] dedup(s).contains(x) == s.contains(x),
    decreases s.len(),
{
    if s.len() > 0 {
        lemma_dedup(s.drop_last());
        let d = dedup(s.drop_last());
        assert forall|x: K| #[trigger] s.contains(x) == (s.drop_last().contains(x) || x == s.last()) by {
            if s.contains(x) {
                let j = choose|j: int| 0 <= j < s.len() && s[j] == x;
                if j < s.len() - 1 {
                    assert(s.drop_last()[j] == x);
                }
            }
            if s.drop_last().contains(x) {
                let j = choose|j: int| 0 <= j < s.drop_last().len() && s.drop_last()[j] == x;
                assert(s[j] == x);
            }
        }
        if !d.contains(s.last()) {
            lemma_push_fresh(d, s.last());
        }
    }
}

/// Adding `d` as a dependency of `from` would close a cycle.
pub open spec fn replace_cyclic<K: DenseKey>(g: DirtyGraph<K>, c: nat, from: K, d: K) -> bool {
    d == from || g.reaches(c, d, from)
}

/// [`DirtyGraph::replace_dependencies`] adds `d` under `handling`.
pub open spec fn replace_accepts<K: DenseKey>(g: DirtyGraph<K>, c: nat, from: K, d: K, handling: CycleHandling) -> bool {
    d != from && (handling == CycleHandling::Allow || !g.reaches(c, d, from))
}

/// What [`DirtyGraph::add_dependency`] returns for a refused (cyclic) edge.
pub open spec fn cycle_outcome<K>(from: K, to: K, channel: Channel, handling: CycleHandling) -> Result<bool, CycleError<K>> {
    match handling {
        CycleHandling::Error => Err(CycleError { from, to, channel }),
        _ => Ok(false),
    }
}


/// Laws relating the graph operations.
impl<K: DenseKey> DirtyGraph<K> {
    /// No key depends, through one or more dependencies, on itself in
    /// channel `c`.
    pub open spec fn acyclic(self, c: nat) -> bool {
        forall|k: K| !#[trigger] self.depends_transitively(c, k, k)
    }

    /// Adding a fresh dependency and then removing it gives back the graph
    /// as it was: the removal reports the edge, and every adjacency list is
    /// restored in order.
    pub proof fn lemma_add_remove_roundtrip(
        g0: Self,
        g1: Self,
        g2: Self,
        from: K,
        to: K,
        channel: Channel,
        handling: CycleHandling,
        r1: Result<bool, CycleError<K>>,
        r2: bool,
    )
        requires
            g0.wf(),
            g0.add_outcome(g1, from, to, channel, handling, r1),
            r1 == Ok::<bool, CycleError<K>>(true),
            g1.remove_outcome(g2, from, to, channel, r2),
        ensures
            r2,
            g2.same_as(g0),
    {
        let c = channel.idx();
        g0.lemma_wf_facts();
        let d0 = g0.deps(from, c);
        let r0 = g0.rdeps(to, c);
        assert(!d0.contains(to));
        assert(!r0.contains(from));
        lemma_push_fresh(d0, to);
        lemma_push_fresh(r0, from);
        lemma_index_of_unique(d0.push(to), to, d0.len() as int);
        lemma_index_of_unique(r0.push(from), from, r0.len() as int);
        assert(d0.push(to).contains(to)) by { assert(d0.push(to)[d0.len() as int] == to); }
        assert(r0.push(from).contains(from)) by { assert(r0.push(from)[r0.len() as int] == from); }
        assert(without(d0.push(to), to) =~= d0);
        assert(without(r0.push(from), from) =~= r0);
        assert forall|k: K, c2: nat| #[trigger] g2.deps(k, c2) == g0.deps(k, c2) by {
            if k == from && c2 == c {
            } else {
                assert(g1.deps(k, c2) == g0.deps(k, c2));
            }
        }
        assert forall|k: K, c2: nat| #[trigger] g2.rdeps(k, c2) == g0.rdeps(k, c2) by {
            if k == to && c2 == c {
            } else {
                assert(g1.rdeps(k, c2) == g0.rdeps(k, c2));
            }
        }
    }

    /// Prepending a direct dependency to a chain.
    pub proof fn lemma_reaches_prepend(self, c: nat, x: K, a: K, y: K)
        requires
            self.deps(x, c).contains(a),
            self.reaches(c, a, y),
        ensures
            self.reaches(c, x, y),
            self.depends_transitively(c, x, y),
    {
        let p = choose|p: Seq<K>| #[trigger] self.is_path(c, p) && p[0] == a && p.last() == y;
        let q = seq![x] + p;
        assert forall|i: int| 0 <= i < q.len() - 1 implies #[trigger] self.edge_at(c, q, i) by {
            if i > 0 {
                assert(self.edge_at(c, p, i - 1));
            }
        }
        assert(self.is_path(c, q));
    }

    /// Chains compose.
    pub proof fn lemma_reaches_trans(self, c: nat, x: K, y: K, z: K)
        requires
            self.reaches(c, x, y),
            self.reaches(c, y, z),
        ensures
            self.reaches(c, x, z),
    {
        let p = choose|p: Seq<K>| #[trigger] self.is_path(c, p) && p[0] == x && p.last() == y;
        let q = choose|q: Seq<K>| #[trigger] self.is_path(c, q) && q[0] == y && q.last() == z;
        let r = p + q.drop_first();
        assert forall|i: int| 0 <= i < r.len() - 1 implies #[trigger] self.edge_at(c, r, i) by {
            if i < p.len() - 1 {
                assert(self.edge_at(c, p, i));
            } else if i == p.len() - 1 {
                assert(self.edge_at(c, q, 0));
            } else {
                assert(self.edge_at(c, q, i - p.len() + 1));
            }
        }
        assert(self.is_path(c, r));
        if q.len() == 1 {
            assert(r =~= p);
        }
    }

    /// A chain of at least one dependency is a chain.
    pub proof fn lemma_depends_reaches(self, c: nat, x: K, y: K)
        requires
            self.depends_transitively(c, x, y),
        ensures
            self.reaches(c, x, y),
    {
        let p = choose|p: Seq<K>| #[trigger] self.is_path(c, p) && p.len() >= 2 && p[0] == x && p.last() == y;
        assert(self.is_path(c, p));
    }

    /// A chain of `g1` (of at least one step), where `g1` is `g0` plus the
    /// edge `from -> to` in channel `c`, is a chain of `g0` or passes through
    /// that edge.
    proof fn lemma_path_with_edge(g0: Self, g1: Self, c: nat, from: K, to: K, q: Seq<K>)
        requires
            g1.is_path(c, q),
            q.len() >= 2,
            forall|k: K, z: K| #[trigger] g1.deps(k, c).contains(z) ==> g0.deps(k, c).contains(z) || (k == from && z == to),
        ensures
            g0.depends_transitively(c, q[0], q.last()) || (g0.reaches(c, q[0], from) && g0.reaches(c, to, q.last())),
        decreases q.len(),
    {
        let x = q[0];
        let a = q[1];
        let y = q.last();
        assert(g1.edge_at(c, q, 0));
        assert(g1.deps(x, c).contains(a));
        let old_edge = g0.deps(x, c).contains(a);
        if q.len() == 2 {
            if old_edge {
                g0.lemma_depends_direct(c, x, a);
            } else {
                g0.lemma_reaches_refl(c, from);
                g0.lemma_reaches_refl(c, to);
            }
        } else {
            let rest = q.drop_first();
            assert forall|i: int| 0 <= i < rest.len() - 1 implies #[trigger] g1.edge_at(c, rest, i) by {
                assert(g1.edge_at(c, q, i + 1));
            }
            assert(g1.is_path(c, rest));
            Self::lemma_path_with_edge(g0, g1, c, from, to, rest);
            assert(rest[0] == a && rest.last() == y);
            if old_edge {
                if g0.depends_transitively(c, a, y) {
                    g0.lemma_depends_prepend(c, x, a, y);
                } else {
                    g0.lemma_reaches_prepend(c, x, a, from);
                }
            } else {
                g0.lemma_reaches_refl(c, from);
                if g0.depends_transitively(c, a, y) {
                    g0.lemma_depends_reaches(c, a, y);
                }
            }
        }
    }

    /// Graphs with the same dependencies in channel `c` have the same chains
    /// there.
    proof fn lemma_same_chains(g0: Self, g1: Self, c: nat, k: K)
        requires
            forall|x: K| #[trigger] g1.deps(x, c) == g0.deps(x, c),
            g1.depends_transitively(c, k, k),
        ensures
            g0.depends_transitively(c, k, k),
    {
        let p = choose|p: Seq<K>| #[trigger] g1.is_path(c, p) && p.len() >= 2 && p[0] == k && p.last() == k;
        assert forall|i: int| 0 <= i < p.len() - 1 implies #[trigger] g0.edge_at(c, p, i) by {
            assert(g1.edge_at(c, p, i));
        }
        assert(g0.is_path(c, p));
    }

    /// Adding a dependency with any cycle handling but `Allow` keeps every
    /// channel free of cycles.
    pub proof fn lemma_add_keeps_acyclic(
        g0: Self,
        g1: Self,
        from: K,
        to: K,
        channel: Channel,
        handling: CycleHandling,
        r: Result<bool, CycleError<K>>,
        c: nat,
    )
        requires
            g0.wf(),
            g0.acyclic(c),
            handling != CycleHandling::Allow,
            g0.add_outcome(g1, from, to, channel, handling, r),
        ensures
            g1.acyclic(c),
    {
        let ch = channel.idx();
        assert forall|k: K| !#[trigger] g1.depends_transitively(c, k, k) by {
            if g1.depends_transitively(c, k, k) {
                if c != ch || from == to || g0.reaches(ch, to, from) || g0.deps(from, ch).contains(to) {
                    assert forall|x: K| #[trigger] g1.deps(x, c) == g0.deps(x, c) by {
                        if from == to || g0.reaches(ch, to, from) || g0.deps(from, ch).contains(to) {
                            assert(g1.same_as(g0));
                        }
                    }
                    Self::lemma_same_chains(g0, g1, c, k);
                } else {
                    assert forall|x: K, z: K| #[trigger] g1.deps(x, c).contains(z) implies g0.deps(x, c).contains(z) || (x == from && z == to) by {
                        if x == from {
                            lemma_push_contains(g0.deps(from, c), to);
                        }
                    }
                    let p = choose|p: Seq<K>| #[trigger] g1.is_path(c, p) && p.len() >= 2 && p[0] == k && p.last() == k;
                    Self::lemma_path_with_edge(g0, g1, c, from, to, p);
                    if g0.reaches(c, k, from) && g0.reaches(c, to, k) {
                        g0.lemma_reaches_trans(c, to, k, from);
                    }
                }
            }
        }
    }
}

} // verus!
