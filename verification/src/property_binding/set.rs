//! Registered one-way bindings, their dependency order and their dirty state.
use vstd::prelude::*;

use std::marker::PhantomData;

use super::endpoint::{BindingId, EndpointKey, PropertyEndpoint};
use super::error::{BindingDrainError, BindingError};
use super::host::BindingHost;
use super::report::{BindingReport, BindingStats, BindingWrite};
use crate::dirty::graph::{lemma_push_contains, lemma_without};
use crate::dirty::drain::{
    affected_keys, completion_after, count_in, is_stuck, is_topological, lemma_acyclic_collect_complete, lemma_count_zero,
    lemma_stuck_has_cycle, ready_in,
};
use crate::dirty::set::{lemma_seq_remove_key, seq_remove_key};
use crate::dirty::hashed::{index_set_contents, IndexSet};
use crate::dirty::{Channel, CycleHandling, DenseKey, DirtyGraph, DirtyTracker, Key};
use crate::property::ErasedTypeMismatch;

verus! {

/// What evaluating one binding during a drain came to.
#[derive(Clone, Copy, Debug, PartialEq, Eq)]
pub enum EvalOutcome {
    /// The source had no value; nothing was written.
    MissingSource,
    /// The converted value was written to the target.
    Written,
    /// The conversion refused the source value.
    Refused(ErasedTypeMismatch),
}

/// The raw ids strictly increase.
pub open spec fn ascending_raw(s: Seq<u32>) -> bool {
    forall|i: int, j: int| 0 <= i < j < s.len() ==> s[i] < s[j]
}

/// Whether `k` is held by the optional skip set.
pub open spec fn skipped(skip: Option<&IndexSet>, k: u32) -> bool {
    match skip {
        Some(set) => index_set_contents(*set).contains(k as usize),
        None => false,
    }
}

/// A graph whose edges in channel `c` are all edges of an acyclic graph has
/// no cycle in `c` either.
/// Removing a key that is not dirty leaves the dirty keys as they are.
proof fn lemma_seq_remove_key_absent<K: Key, C: Copy, V, M: Fn(&V) -> Result<V, ErasedTypeMismatch>>(
    s: Seq<u32>,
    x: u32,
    set: BindingSet<K, C, V, M>,
)
    requires
        set.wf(),
        s == set.dirty_keys(),
        !set.active(x as int),
    ensures
        seq_remove_key(s, x) == s,
{
    assert(!s.contains(x));
}

proof fn lemma_sub_acyclic(g0: DirtyGraph<u32>, g1: DirtyGraph<u32>, c: nat)
    requires
        g0.acyclic(c),
        forall|a: u32, b: u32| #[trigger] g1.deps(a, c).contains(b) ==> g0.deps(a, c).contains(b),
    ensures
        g1.acyclic(c),
{
    assert forall|k: u32| !#[trigger] g1.depends_transitively(c, k, k) by {
        if g1.depends_transitively(c, k, k) {
            let p = choose|p: Seq<u32>| #[trigger] g1.is_path(c, p) && p.len() >= 2 && p[0] == k
                && p.last() == k;
            assert forall|i: int| 0 <= i < p.len() - 1 implies #[trigger] g0.edge_at(c, p, i) by {
                assert(g1.edge_at(c, p, i));
            }
            assert(g0.is_path(c, p));
            assert(g0.depends_transitively(c, k, k));
        }
    }
}

/// The `u32` values below `n`, as many as `n`.
proof fn lemma_u32_below(n: int)
    requires
        0 <= n <= u32::MAX as int + 1,
    ensures
        Set::new(|k: u32| (k as int) < n).finite(),
        Set::new(|k: u32| (k as int) < n).len() == n,
    decreases n,
{
    if n == 0 {
        assert(Set::new(|k: u32| (k as int) < n) =~= Set::<u32>::empty());
    } else {
        lemma_u32_below(n - 1);
        assert(Set::new(|k: u32| (k as int) < n) =~= Set::new(|k: u32| (k as int) < n - 1).insert(
            (n - 1) as u32,
        ));
    }
}

/// Nothing depends on `x`, so only `x` itself reaches it.
proof fn lemma_no_incoming(g: DirtyGraph<u32>, c: nat, x: u32, a: u32)
    requires
        forall|k: u32| !#[trigger] g.deps(k, c).contains(x),
        g.reaches(c, a, x),
    ensures
        a == x,
{
    let p = choose|p: Seq<u32>| #[trigger] g.is_path(c, p) && p[0] == a && p.last() == x;
    if p.len() >= 2 {
        assert(g.edge_at(c, p, p.len() - 2));
    }
}

/// In a graph whose edges are those of `g0`, none touching `id`, plus edges
/// out of `id` to keys of `ups` and edges into `id`, a chain from `id` to
/// another key `d` leaves `id` to some key of `ups` from which `g0` reaches
/// `d`.
proof fn lemma_path_from_fresh(
    g0: DirtyGraph<u32>,
    g: DirtyGraph<u32>,
    c: nat,
    id: u32,
    ups: Set<u32>,
    p: Seq<u32>,
)
    requires
        g.is_path(c, p),
        p[0] == id,
        p.last() != id,
        forall|k: u32, z: u32| #[trigger] g.deps(k, c).contains(z) ==> (k != id && z != id
            && g0.deps(k, c).contains(z)) || (k == id && ups.contains(z)) || z == id,
    ensures
        exists|u: u32| #[trigger] ups.contains(u) && g0.reaches(c, u, p.last()),
    decreases p.len(),
{
    assert(p.len() >= 2);
    assert(g.edge_at(c, p, 0));
    let q = p.drop_first();
    assert(g.is_path(c, q)) by {
        assert forall|i: int| 0 <= i < q.len() - 1 implies #[trigger] g.edge_at(c, q, i) by {
            assert(g.edge_at(c, p, i + 1));
        }
    }
    if q.contains(id) {
        let j = choose|j: int| 0 <= j < q.len() && q[j] == id;
        let t = q.subrange(j, q.len() as int);
        assert(g.is_path(c, t)) by {
            assert forall|i: int| 0 <= i < t.len() - 1 implies #[trigger] g.edge_at(c, t, i) by {
                assert(g.edge_at(c, q, i + j));
            }
        }
        assert(t.last() == p.last());
        lemma_path_from_fresh(g0, g, c, id, ups, t);
    } else {
        let u = q[0];
        assert(ups.contains(u));
        assert forall|i: int| 0 <= i < q.len() - 1 implies #[trigger] g0.edge_at(c, q, i) by {
            assert(g.edge_at(c, q, i));
            assert(q[i] != id);
            assert(q[i + 1] != id);
        }
        assert(g0.is_path(c, q));
        assert(g0.reaches(c, u, p.last()));
    }
}

/// A chain from `a` to `b` is `a == b` or a dependency of at least one step.
proof fn lemma_reach_split(g: DirtyGraph<u32>, c: nat, a: u32, b: u32)
    requires
        g.reaches(c, a, b),
    ensures
        a == b || g.depends_transitively(c, a, b),
{
    let p = choose|p: Seq<u32>| #[trigger] g.is_path(c, p) && p[0] == a && p.last() == b;
    if p.len() >= 2 {
        assert(g.depends_transitively(c, a, b));
    }
}

/// A key that reaches a direct dependent of a key of `roots` is affected by
/// `roots`.
proof fn lemma_reaches_affected(g: DirtyGraph<u32>, c: nat, roots: Set<u32>, y: u32, r: u32, z: u32)
    requires
        g.reaches(c, y, r),
        g.deps(r, c).contains(z),
        roots.contains(z),
    ensures
        affected_keys(g, c, roots).contains(y),
{
    g.lemma_depends_direct(c, r, z);
    g.lemma_depends_reaches(c, r, z);
    g.lemma_reaches_trans(c, y, r, z);
    lemma_reach_split(g, c, y, z);
}

/// One drain pass over an acyclic graph: it starts from the dirty keys `d0`
/// and ends with dirty keys `d1`, each outside `d0` and a direct dependent of
/// some key of `d0`. The keys affected by what is dirty strictly shrink.
proof fn lemma_pass_shrinks(g: DirtyGraph<u32>, c: nat, d0: Set<u32>, d1: Set<u32>, universe: Set<u32>)
    requires
        g.acyclic(c),
        universe.finite(),
        affected_keys(g, c, d0).subset_of(universe),
        exists|k: u32| #[trigger] d0.contains(k),
        forall|k: u32| #[trigger] d1.contains(k) ==> !d0.contains(k) && exists|z: u32|
            #[trigger] d0.contains(z) && g.deps(k, c).contains(z),
    ensures
        affected_keys(g, c, d0).finite(),
        affected_keys(g, c, d1).finite(),
        affected_keys(g, c, d1).len() < affected_keys(g, c, d0).len(),
{
    let l = affected_keys(g, c, d0);
    let l1 = affected_keys(g, c, d1);
    vstd::set_lib::lemma_len_subset(l, universe);
    let k0 = choose|k: u32| #[trigger] d0.contains(k);
    assert(l.contains(k0));
    assert forall|y: u32| #[trigger] l1.contains(y) implies l.contains(y) by {
        let r = choose|r: u32| #[trigger] d1.contains(r) && (y == r || g.depends_transitively(c, y, r));
        let z = choose|z: u32| #[trigger] d0.contains(z) && g.deps(r, c).contains(z);
        if y == r {
            g.lemma_reaches_refl(c, r);
        } else {
            g.lemma_depends_reaches(c, y, r);
        }
        lemma_reaches_affected(g, c, d0, y, r, z);
    }
    if is_stuck(g, c, l) {
        lemma_stuck_has_cycle(g, c, l);
        assert(false);
    }
    let x = choose|x: u32| #[trigger] l.contains(x) && !(count_in(g.deps(x, c), l) > 0);
    lemma_count_zero(g.deps(x, c), l);
    assert(!l1.contains(x)) by {
        if l1.contains(x) {
            let r = choose|r: u32| #[trigger] d1.contains(r) && (x == r || g.depends_transitively(c, x, r));
            let z = choose|z: u32| #[trigger] d0.contains(z) && g.deps(r, c).contains(z);
            if x == r {
                assert(l.contains(z));
            } else {
                let p = choose|p: Seq<u32>| #[trigger] g.is_path(c, p) && p.len() >= 2 && p[0] == x && p.last() == r;
                let w = p[1];
                assert(g.edge_at(c, p, 0));
                let q = p.drop_first();
                assert forall|i: int| 0 <= i < q.len() - 1 implies #[trigger] g.edge_at(c, q, i) by {
                    assert(g.edge_at(c, p, i + 1));
                }
                assert(g.is_path(c, q));
                assert(g.reaches(c, w, r));
                lemma_reaches_affected(g, c, d0, w, r, z);
            }
        }
    }
    assert(l1.subset_of(l.remove(x)));
    vstd::set_lib::lemma_len_subset(l1, l.remove(x));
}

/// One registered binding: it reads `source`, converts the value with `map`,
/// and writes `target` with `write_context`.
struct Binding<K, C, M> {
    source: EndpointKey<K>,
    target: EndpointKey<K>,
    write_context: C,
    map: M,
}

/// Registered one-way bindings, their write contexts and dirty state.
///
/// The set stores bindings and a binding-local dependency graph over binding
/// ids: a binding depends on the binding that writes the endpoint it reads.
/// It stores no property value; values are read from and written to a host
/// passed to [`Self::drain`]. Values cross as `V`; each binding converts its
/// source value with its own `M`, which reports a value of the wrong type.
pub struct BindingSet<K, C, V, M> {
    binding_channel: Channel,
    bindings: Vec<Option<Binding<K, C, M>>>,
    active_bindings: usize,
    tracker: DirtyTracker<u32>,
    marker: PhantomData<V>,
}

impl<K: Key, C: Copy, V, M: Fn(&V) -> Result<V, ErasedTypeMismatch>> BindingSet<K, C, V, M> {
    /// The number of binding slots ever handed out (ids are never reused).
    pub closed spec fn slot_count(self) -> nat {
        self.bindings@.len()
    }

    /// Binding `i` is registered and not removed.
    pub closed spec fn active(self, i: int) -> bool {
        0 <= i < self.bindings@.len() && self.bindings@[i] is Some
    }

    /// The endpoint binding `i` reads.
    pub closed spec fn source_of(self, i: int) -> EndpointKey<K> {
        self.bindings@[i]->0.source
    }

    /// The endpoint binding `i` writes.
    pub closed spec fn target_of(self, i: int) -> EndpointKey<K> {
        self.bindings@[i]->0.target
    }

    /// The write context of binding `i`.
    pub closed spec fn context_of(self, i: int) -> C {
        self.bindings@[i]->0.write_context
    }

    /// The conversion of binding `i`.
    pub closed spec fn map_of(self, i: int) -> M {
        self.bindings@[i]->0.map
    }

    /// The channel of the binding-local graph and dirty set.
    pub closed spec fn channel_view(self) -> Channel {
        self.binding_channel
    }

    /// The binding-local dependency graph over raw binding ids.
    pub closed spec fn graph(self) -> DirtyGraph<u32> {
        self.tracker.graph_view()
    }

    /// The dirty bindings, in marking order.
    pub closed spec fn dirty_keys(self) -> Seq<u32> {
        self.tracker.dirty_view().keys(self.binding_channel.idx())
    }

    /// The raw ids of the active bindings.
    pub open spec fn active_ids(self) -> Set<u32> {
        Set::new(|k: u32| self.active(k as int))
    }

    /// Active binding `d` reads the endpoint active binding `u` writes, so `d`
    /// depends on `u`.
    pub open spec fn reads(self, d: int, u: int) -> bool {
        self.active(d) && self.active(u) && self.source_of(d) == self.target_of(u)
    }

    /// The bindings and the graph agree, and the graph has no cycle.
    pub closed spec fn wf(self) -> bool {
        let c = self.binding_channel.idx();
        &&& self.tracker.wf()
        &&& self.tracker.handling() == CycleHandling::Error
        &&& self.bindings@.len() <= u32::MAX as int + 1
        &&& self.bindings@.len() <= usize::MAX
        &&& self.active_ids().finite()
        &&& self.active_bindings == self.active_ids().len()
        &&& forall|a: u32, b: u32| #[trigger]
            self.graph().deps(a, c).contains(b) <==> self.reads(a as int, b as int)
        &&& self.graph().acyclic(c)
        &&& forall|i: int| #[trigger] self.active(i) ==> self.source_of(i) != self.target_of(i)
        &&& forall|i: int, j: int|
            #![trigger self.target_of(i), self.target_of(j)]
            self.active(i) && self.active(j) && self.target_of(i) == self.target_of(j) ==> i == j
        &&& forall|k: u32| #[trigger] self.dirty_keys().contains(k) ==> self.active(k as int)
        &&& forall|i: int, v: &V| self.active(i) ==> #[trigger] call_requires(self.map_of(i), (v,))
    }

    /// A set that differs from a well-formed one only in its dirty bindings,
    /// all of them active, is well formed.
    proof fn lemma_frame(self, new: Self)
        requires
            self.wf(),
            new.bindings == self.bindings,
            new.active_bindings == self.active_bindings,
            new.binding_channel == self.binding_channel,
            new.tracker.wf(),
            new.tracker.handling() == self.tracker.handling(),
            new.graph() == self.graph(),
            forall|k: u32| #[trigger] new.dirty_keys().contains(k) ==> self.active(k as int),
        ensures
            new.wf(),
            self.same_bindings(new),
    {
        assert(new.active_ids() =~= self.active_ids());
        assert forall|i: int| #[trigger] new.active(i) implies new.source_of(i) != new.target_of(i) by {
            assert(self.active(i));
        }
        assert forall|i: int, j: int|
            #![trigger new.target_of(i), new.target_of(j)]
            new.active(i) && new.active(j) && new.target_of(i) == new.target_of(j) implies i == j by {
            assert(self.active(i) && self.active(j) && self.target_of(i) == self.target_of(j));
        }
        assert forall|i: int, v: &V| new.active(i) implies #[trigger] call_requires(
            new.map_of(i),
            (v,),
        ) by {
            assert(self.active(i));
            assert(call_requires(self.map_of(i), (v,)));
        }
        assert forall|a: u32, b: u32| #[trigger]
            new.graph().deps(a, new.binding_channel.idx()).contains(b) <==> new.reads(a as int, b as int) by {
            assert(self.graph().deps(a, self.binding_channel.idx()).contains(b) <==> self.reads(a as int, b as int));
        }
    }

    /// The raw id of every binding slot fits `u32`.
    proof fn lemma_ids_fit(self, i: int)
        requires
            self.wf(),
            0 <= i < self.slot_count(),
        ensures
            i <= u32::MAX,
    {
    }

    /// There are no more active bindings than slots.
    proof fn lemma_active_le_slots(self)
        requires
            self.wf(),
        ensures
            self.active_ids().len() <= self.slot_count(),
    {
        lemma_u32_below(self.slot_count() as int);
        assert(self.active_ids().subset_of(Set::new(|k: u32| (k as int) < self.slot_count())));
        vstd::set_lib::lemma_len_subset(self.active_ids(), Set::new(|k: u32| (k as int) < self.slot_count()));
    }

    /// An empty binding set whose graph and dirty set live in
    /// `binding_channel`.
    pub fn new(binding_channel: Channel) -> (r: Self)
        ensures
            r.wf(),
            r.slot_count() == 0,
            r.channel_view() == binding_channel,
            r.dirty_keys() == Seq::<u32>::empty(),
    {
        let r = BindingSet {
            binding_channel,
            bindings: Vec::new(),
            active_bindings: 0,
            tracker: DirtyTracker::with_cycle_handling(CycleHandling::Error),
            marker: PhantomData,
        };
        proof {
            let c = binding_channel.idx();
            assert(r.active_ids() =~= Set::<u32>::empty());
            assert forall|k: u32| !#[trigger] r.graph().depends_transitively(c, k, k) by {
                if r.graph().depends_transitively(c, k, k) {
                    let p = choose|p: Seq<u32>| #[trigger] r.graph().is_path(c, p) && p.len() >= 2
                        && p[0] == k && p.last() == k;
                    assert(r.graph().edge_at(c, p, 0));
                }
            }
        }
        r
    }

    /// The channel of the binding-local graph and dirty set.
    pub fn binding_channel(&self) -> (r: Channel)
        ensures
            r == self.channel_view(),
    {
        self.binding_channel
    }

    /// The number of active bindings.
    pub fn len(&self) -> (r: usize)
        requires
            self.wf(),
        ensures
            r == self.active_ids().len(),
    {
        self.active_bindings
    }

    /// Whether no binding is active.
    pub fn is_empty(&self) -> (r: bool)
        requires
            self.wf(),
        ensures
            r == (self.active_ids().len() == 0),
    {
        self.active_bindings == 0
    }

    /// Whether some binding waits to be drained.
    pub fn has_dirty_bindings(&self) -> (r: bool)
        requires
            self.wf(),
        ensures
            r == (self.dirty_keys().len() > 0),
    {
        self.tracker.has_dirty(self.binding_channel)
    }

    /// Whether `binding` is registered and not removed.
    fn is_active(&self, binding: BindingId) -> (r: bool)
        ensures
            r == self.active(binding.raw() as int),
    {
        match binding.index() {
            Some(index) => index < self.bindings.len() && self.bindings[index].is_some(),
            None => false,
        }
    }

    /// Marks `binding` dirty; returns `false` when it is not active or was
    /// already dirty.
    pub fn mark_binding_dirty(&mut self, binding: BindingId) -> (r: bool)
        requires
            old(self).wf(),
        ensures
            final(self).wf(),
            old(self).same_bindings(*final(self)),
            r == (old(self).active(binding.raw() as int) && !old(self).dirty_keys().contains(
                binding.raw(),
            )),
            final(self).dirty_keys() == if r {
                old(self).dirty_keys().push(binding.raw())
            } else {
                old(self).dirty_keys()
            },
    {
        if !self.is_active(binding) {
            return false;
        }
        let ghost before = self.dirty_keys();
        let r = self.tracker.mark(binding.get(), self.binding_channel);
        proof {
            assert forall|k: u32| #[trigger] self.dirty_keys().contains(k) implies old(self).active(
                k as int,
            ) by {
                if r && k == binding.raw() {
                } else if r {
                    assert(before.push(binding.raw()).contains(k));
                    let i = choose|i: int| 0 <= i < before.push(binding.raw()).len() && before.push(binding.raw())[i] == k;
                    assert(before.contains(k));
                }
            }
            old(self).lemma_frame(*self);
        }
        r
    }

    /// The active bindings that read `endpoint`, in id order.
    fn readers_of(&self, endpoint: EndpointKey<K>) -> (r: Vec<u32>)
        requires
            self.wf(),
        ensures
            ascending_raw(r@),
            forall|k: u32| #[trigger] r@.contains(k) <==> (self.active(k as int) && self.source_of(
                k as int,
            ) == endpoint),
    {
        let mut out: Vec<u32> = Vec::new();
        let mut i: usize = 0;
        while i < self.bindings.len()
            invariant
                self.wf(),
                i <= self.bindings.len(),
                ascending_raw(out@),
                forall|j: int| 0 <= j < out@.len() ==> out@[j] < i,
                forall|k: u32| #[trigger] out@.contains(k) <==> (k < i && self.active(k as int)
                    && self.source_of(k as int) == endpoint),
            decreases self.bindings.len() - i,
        {
            proof {
                self.lemma_ids_fit(i as int);
            }
            let hit = match &self.bindings[i] {
                Some(b) => b.source.key_eq(&endpoint),
                None => false,
            };
            if hit {
                let ghost before = out@;
                out.push(i as u32);
                proof {
                    assert forall|k: u32| #[trigger] out@.contains(k) <==> (k < i + 1 && self.active(
                        k as int,
                    ) && self.source_of(k as int) == endpoint) by {
                        if out@.contains(k) && k != i as u32 {
                            let q = choose|q: int| 0 <= q < out@.len() && out@[q] == k;
                            assert(q < before.len());
                            assert(before[q] == k);
                            assert(before.contains(k));
                        }
                        if out@.contains(k) && k == i as u32 {
                            assert(self.active(i as int) && self.source_of(i as int) == endpoint);
                        }
                        if k < i && self.active(k as int) && self.source_of(k as int) == endpoint {
                            assert(before.contains(k));
                            let q = choose|q: int| 0 <= q < before.len() && before[q] == k;
                            assert(out@[q] == k);
                        }
                        if k == i as u32 {
                            assert(out@[out@.len() - 1] == k);
                        }
                    }
                }
            } else {
                proof {
                    assert forall|k: u32| #[trigger] out@.contains(k) <==> (k < i + 1 && self.active(
                        k as int,
                    ) && self.source_of(k as int) == endpoint) by {
                        if out@.contains(k) {
                            let q = choose|q: int| 0 <= q < out@.len() && out@[q] == k;
                        }
                    }
                }
            }
            i = i + 1;
        }
        out
    }

    /// The active bindings that write `endpoint`, in id order.
    fn writers_of(&self, endpoint: EndpointKey<K>) -> (r: Vec<u32>)
        requires
            self.wf(),
        ensures
            ascending_raw(r@),
            forall|k: u32| #[trigger] r@.contains(k) <==> (self.active(k as int) && self.target_of(
                k as int,
            ) == endpoint),
    {
        let mut out: Vec<u32> = Vec::new();
        let mut i: usize = 0;
        while i < self.bindings.len()
            invariant
                self.wf(),
                i <= self.bindings.len(),
                ascending_raw(out@),
                forall|j: int| 0 <= j < out@.len() ==> out@[j] < i,
                forall|k: u32| #[trigger] out@.contains(k) <==> (k < i && self.active(k as int)
                    && self.target_of(k as int) == endpoint),
            decreases self.bindings.len() - i,
        {
            proof {
                self.lemma_ids_fit(i as int);
            }
            let hit = match &self.bindings[i] {
                Some(b) => b.target.key_eq(&endpoint),
                None => false,
            };
            if hit {
                let ghost before = out@;
                out.push(i as u32);
                proof {
                    assert forall|k: u32| #[trigger] out@.contains(k) <==> (k < i + 1 && self.active(
                        k as int,
                    ) && self.target_of(k as int) == endpoint) by {
                        if out@.contains(k) && k != i as u32 {
                            let q = choose|q: int| 0 <= q < out@.len() && out@[q] == k;
                            assert(q < before.len());
                            assert(before[q] == k);
                            assert(before.contains(k));
                        }
                        if out@.contains(k) && k == i as u32 {
                            assert(self.active(i as int) && self.target_of(i as int) == endpoint);
                        }
                        if k < i && self.active(k as int) && self.target_of(k as int) == endpoint {
                            assert(before.contains(k));
                            let q = choose|q: int| 0 <= q < before.len() && before[q] == k;
                            assert(out@[q] == k);
                        }
                        if k == i as u32 {
                            assert(out@[out@.len() - 1] == k);
                        }
                    }
                }
            } else {
                proof {
                    assert forall|k: u32| #[trigger] out@.contains(k) <==> (k < i + 1 && self.active(
                        k as int,
                    ) && self.target_of(k as int) == endpoint) by {
                        if out@.contains(k) {
                            let q = choose|q: int| 0 <= q < out@.len() && out@[q] == k;
                        }
                    }
                }
            }
            i = i + 1;
        }
        out
    }

    /// The active binding that writes `target`, if any.
    fn active_target_binding(&self, target: EndpointKey<K>) -> (r: Option<BindingId>)
        requires
            self.wf(),
        ensures
            match r {
                Some(b) => self.active(b.raw() as int) && self.target_of(b.raw() as int) == target,
                None => forall|k: int| #[trigger] self.active(k) ==> self.target_of(k) != target,
            },
    {
        let writers = self.writers_of(target);
        if writers.len() > 0 {
            proof {
                assert(writers@.contains(writers@[0]));
            }
            Some(BindingId::new(writers[0]))
        } else {
            proof {
                assert forall|k: int| #[trigger] self.active(k) implies self.target_of(k) != target by {
                    self.lemma_ids_fit(k);
                    if self.target_of(k) == target {
                        assert(writers@.contains(k as u32));
                    }
                }
            }
            None
        }
    }

    /// Marks the active bindings that read `source`, except those in `skip`;
    /// returns whether any of them became dirty.
    fn mark_endpoint_changed_skipping(
        &mut self,
        source: EndpointKey<K>,
        skip: Option<&IndexSet>,
    ) -> (r: bool)
        requires
            old(self).wf(),
        ensures
            final(self).wf(),
            old(self).same_bindings(*final(self)),
            final(self).dirty_keys().subrange(0, old(self).dirty_keys().len() as int) == old(
                self,
            ).dirty_keys(),
            forall|k: u32| #[trigger] final(self).dirty_keys().contains(k) <==> (old(
                self,
            ).dirty_keys().contains(k) || (old(self).active(k as int) && old(self).source_of(
                k as int,
            ) == source && !skipped(skip, k))),
            r == exists|k: u32| #[trigger] old(self).active(k as int) && old(self).source_of(
                k as int,
            ) == source && !skipped(skip, k) && !old(self).dirty_keys().contains(k),
    {
        let readers = self.readers_of(source);
        let ghost base = self.dirty_keys();
        let mut marked = false;
        let mut i: usize = 0;
        while i < readers.len()
            invariant
                old(self).wf(),
                self.wf(),
                old(self).same_bindings(*self),
                base == old(self).dirty_keys(),
                i <= readers.len(),
                ascending_raw(readers@),
                forall|k: u32| #[trigger] readers@.contains(k) <==> (old(self).active(k as int)
                    && old(self).source_of(k as int) == source),
                base.len() <= self.dirty_keys().len(),
                self.dirty_keys().subrange(0, base.len() as int) == base,
                forall|k: u32| #[trigger] self.dirty_keys().contains(k) <==> (base.contains(k) || (
                readers@.take(i as int).contains(k) && !skipped(skip, k))),
                marked == exists|k: u32| #[trigger] readers@.take(i as int).contains(k) && !skipped(
                    skip,
                    k,
                ) && !base.contains(k),
            decreases readers.len() - i,
        {
            let b = readers[i];
            let ghost before = self.dirty_keys();
            let ghost prev = *self;
            let skip_it = match skip {
                Some(set) => set.contains(b as usize),
                None => false,
            };
            proof {
                assert(readers@.contains(b));
                assert(readers@.take(i as int + 1) == readers@.take(i as int).push(b));
            }
            if !skip_it {
                let newly = self.tracker.mark(b, self.binding_channel);
                proof {
                    assert forall|k: u32| #[trigger] self.dirty_keys().contains(k) implies old(
                        self,
                    ).active(k as int) by {
                        if k == b {
                            assert(readers@.contains(b));
                        } else {
                            if newly {
                                assert(before.push(b).contains(k));
                                let q = choose|q: int| 0 <= q < before.push(b).len() && before.push(b)[q] == k;
                                assert(before.contains(k));
                            }
                        }
                    }
                    prev.lemma_frame(*self);
                    assert(self.dirty_keys().subrange(0, base.len() as int) =~= base);
                    lemma_push_contains(before, b);
                    lemma_push_contains(readers@.take(i as int), b);
                    assert forall|k: u32| #[trigger] self.dirty_keys().contains(k) <==> (base.contains(
                        k,
                    ) || (readers@.take(i as int + 1).contains(k) && !skipped(skip, k))) by {
                        if newly && k != b && self.dirty_keys().contains(k) {
                            let q = choose|q: int| 0 <= q < before.push(b).len() && before.push(b)[q] == k;
                            assert(before.contains(k));
                        }
                        if k == b && newly {
                            assert(self.dirty_keys()[self.dirty_keys().len() - 1] == b);
                        }
                        if k != b && before.contains(k) && newly {
                            let q = choose|q: int| 0 <= q < before.len() && before[q] == k;
                            assert(self.dirty_keys()[q] == k);
                        }
                    }
                    if newly {
                        assert(readers@.take(i as int + 1).contains(b) && !skipped(skip, b) && !base.contains(b));
                    }
                    if !newly {
                        assert(before.contains(b));
                    }
                }
                marked = marked || newly;
            }
            proof {
                lemma_push_contains(readers@.take(i as int), b);
                assert(!readers@.take(i as int).contains(b)) by {
                    if readers@.take(i as int).contains(b) {
                        let q = choose|q: int| 0 <= q < i && readers@.take(i as int)[q] == b;
                        assert(readers@[q] < readers@[i as int]);
                    }
                }
                if exists|k: u32| #[trigger] readers@.take(i as int + 1).contains(k) && !skipped(skip, k)
                    && !base.contains(k) {
                    let k = choose|k: u32| #[trigger] readers@.take(i as int + 1).contains(k) && !skipped(
                        skip,
                        k,
                    ) && !base.contains(k);
                    if k != b {
                        assert(readers@.take(i as int).contains(k));
                    }
                }
                if exists|k: u32| #[trigger] readers@.take(i as int).contains(k) && !skipped(skip, k)
                    && !base.contains(k) {
                    let k = choose|k: u32| #[trigger] readers@.take(i as int).contains(k) && !skipped(
                        skip,
                        k,
                    ) && !base.contains(k);
                    assert(readers@.take(i as int + 1).contains(k));
                }
                if !skip_it && !base.contains(b) {
                    assert(readers@.take(i as int + 1).contains(b));
                }
            }
            i = i + 1;
        }
        proof {
            assert(readers@.take(readers@.len() as int) == readers@);
            if marked {
                let k = choose|k: u32| #[trigger] readers@.take(readers@.len() as int).contains(k)
                    && !skipped(skip, k) && !base.contains(k);
                assert(readers@.contains(k));
            }
            if exists|k: u32| #[trigger] old(self).active(k as int) && old(self).source_of(
                k as int,
            ) == source && !skipped(skip, k) && !old(self).dirty_keys().contains(k) {
                let k = choose|k: u32| #[trigger] old(self).active(k as int) && old(self).source_of(
                    k as int,
                ) == source && !skipped(skip, k) && !old(self).dirty_keys().contains(k);
                assert(readers@.contains(k));
                assert(readers@.take(readers@.len() as int).contains(k));
            }
        }
        marked
    }

    /// Marks the active bindings that read `source` dirty; returns whether any
    /// of them became dirty.
    pub fn mark_endpoint_changed(&mut self, source: EndpointKey<K>) -> (r: bool)
        requires
            old(self).wf(),
        ensures
            final(self).wf(),
            old(self).same_bindings(*final(self)),
            final(self).dirty_keys().subrange(0, old(self).dirty_keys().len() as int) == old(
                self,
            ).dirty_keys(),
            forall|k: u32| #[trigger] final(self).dirty_keys().contains(k) <==> (old(
                self,
            ).dirty_keys().contains(k) || (old(self).active(k as int) && old(self).source_of(
                k as int,
            ) == source)),
            r == exists|k: u32| #[trigger] old(self).active(k as int) && old(self).source_of(
                k as int,
            ) == source && !old(self).dirty_keys().contains(k),
    {
        let r = self.mark_endpoint_changed_skipping(source, None);
        proof {
            if r {
                let k = choose|k: u32| #[trigger] old(self).active(k as int) && old(self).source_of(
                    k as int,
                ) == source && !skipped(None, k) && !old(self).dirty_keys().contains(k);
                assert(old(self).active(k as int) && old(self).source_of(k as int) == source
                    && !old(self).dirty_keys().contains(k));
            }
        }
        r
    }

    /// Marks the active bindings that read `source` dirty; returns whether any
    /// of them became dirty.
    pub fn mark_source_changed<T>(&mut self, source: PropertyEndpoint<K, T>) -> (r: bool)
        requires
            old(self).wf(),
        ensures
            final(self).wf(),
            old(self).same_bindings(*final(self)),
            forall|k: u32| #[trigger] final(self).dirty_keys().contains(k) <==> (old(
                self,
            ).dirty_keys().contains(k) || (old(self).active(k as int) && old(self).source_of(
                k as int,
            ).owner_view() == source.owner_view() && old(self).source_of(k as int).property_view()
                == source.property_view().id_view())),
    {
        let key = source.key();
        let r = self.mark_endpoint_changed(key);
        proof {
            assert forall|k: u32| #[trigger] self.dirty_keys().contains(k) <==> (old(
                self,
            ).dirty_keys().contains(k) || (old(self).active(k as int) && old(self).source_of(
                k as int,
            ).owner_view() == source.owner_view() && old(self).source_of(k as int).property_view()
                == source.property_view().id_view())) by {
                if old(self).active(k as int) {
                    EndpointKey::<K>::lemma_fields_eq(old(self).source_of(k as int), key);
                }
            }
        }
        r
    }

    /// Removes `binding`; returns `false` when it is unknown or already
    /// removed. Ids are never reused.
    pub fn unbind(&mut self, binding: BindingId) -> (r: bool)
        requires
            old(self).wf(),
        ensures
            final(self).wf(),
            r == old(self).active(binding.raw() as int),
            final(self).slot_count() == old(self).slot_count(),
            final(self).channel_view() == old(self).channel_view(),
            forall|i: int| #[trigger] final(self).active(i) == (old(self).active(i) && i != binding.raw()),
            forall|i: int| #[trigger] final(self).active(i) ==> old(self).same_binding_at(*final(self), i),
            final(self).dirty_keys() == seq_remove_key(old(self).dirty_keys(), binding.raw()),
    {
        let index = match binding.index() {
            Some(index) => index,
            None => {
                return false;
            },
        };
        if index >= self.bindings.len() || self.bindings[index].is_none() {
            proof {
                assert(!old(self).active(binding.raw() as int));
                lemma_seq_remove_key_absent(old(self).dirty_keys(), binding.raw(), *old(self));
            }
            return false;
        }
        let ghost prev = *self;
        let ghost c = self.binding_channel.idx();
        let ghost raw = binding.raw();
        self.bindings.set(index, None);
        proof {
            assert(self.active_ids() =~= prev.active_ids().remove(raw));
            assert(prev.active_ids().contains(raw));
        }
        self.active_bindings = self.active_bindings - 1;
        self.tracker.remove_key(binding.get());
        proof {
            assert(self.active_ids() =~= prev.active_ids().remove(raw));
            prev.tracker.graph_view().lemma_wf_facts();
            prev.tracker.dirty_view().lemma_wf_facts();
            lemma_seq_remove_key(prev.dirty_keys(), raw);
            assert forall|a: u32, b: u32| #[trigger]
                self.graph().deps(a, c).contains(b) <==> self.reads(a as int, b as int) by {
                lemma_without(prev.graph().deps(a, c), raw);
                assert(prev.graph().deps(a, c).contains(b) <==> prev.reads(a as int, b as int));
            }
            assert forall|a: u32, b: u32| #[trigger] self.graph().deps(a, c).contains(b)
                implies prev.graph().deps(a, c).contains(b) by {
                lemma_without(prev.graph().deps(a, c), raw);
            }
            lemma_sub_acyclic(prev.graph(), self.graph(), c);
            assert forall|i: int| #[trigger] self.active(i) implies self.source_of(i) != self.target_of(i) by {
                assert(prev.active(i));
            }
            assert forall|i: int, j: int|
                #![trigger self.target_of(i), self.target_of(j)]
                self.active(i) && self.active(j) && self.target_of(i) == self.target_of(j) implies i == j by {
                assert(prev.active(i) && prev.active(j) && prev.target_of(i) == prev.target_of(j));
            }
            assert forall|k: u32| #[trigger] self.dirty_keys().contains(k) implies self.active(k as int) by {
                assert(prev.dirty_keys().contains(k));
            }
            assert forall|i: int, v: &V| self.active(i) implies #[trigger] call_requires(self.map_of(i), (v,)) by {
                assert(prev.active(i));
                assert(call_requires(prev.map_of(i), (v,)));
            }
        }
        true
    }

    /// Binding `i` reads or writes `endpoint`.
    pub open spec fn touches(self, i: int, endpoint: EndpointKey<K>) -> bool {
        self.source_of(i) == endpoint || self.target_of(i) == endpoint
    }

    /// Binding `i` reads or writes an endpoint of `owner`.
    pub open spec fn owned_by(self, i: int, owner: K) -> bool {
        self.source_of(i).owner_view() == owner || self.target_of(i).owner_view() == owner
    }

    /// What `clear_owner` (when `by_owner`) or `clear_endpoint` selects.
    spec fn cleared_by(self, i: int, endpoint: EndpointKey<K>, owner: K, by_owner: bool) -> bool {
        if by_owner {
            self.owned_by(i, owner)
        } else {
            self.touches(i, endpoint)
        }
    }

    /// The active bindings that `cleared_by` selects, in id order.
    fn collect_cleared(&self, endpoint: EndpointKey<K>, owner: K, by_owner: bool) -> (r: Vec<u32>)
        requires
            self.wf(),
        ensures
            ascending_raw(r@),
            forall|k: u32| #[trigger] r@.contains(k) <==> (self.active(k as int) && self.cleared_by(
                k as int,
                endpoint,
                owner,
                by_owner,
            )),
    {
        let mut out: Vec<u32> = Vec::new();
        let mut i: usize = 0;
        while i < self.bindings.len()
            invariant
                self.wf(),
                i <= self.bindings.len(),
                ascending_raw(out@),
                forall|j: int| 0 <= j < out@.len() ==> out@[j] < i,
                forall|k: u32| #[trigger] out@.contains(k) <==> (k < i && self.active(k as int)
                    && self.cleared_by(k as int, endpoint, owner, by_owner)),
            decreases self.bindings.len() - i,
        {
            proof {
                self.lemma_ids_fit(i as int);
            }
            let hit = match &self.bindings[i] {
                Some(b) => if by_owner {
                    b.source.owner().key_eq(&owner) || b.target.owner().key_eq(&owner)
                } else {
                    b.source.key_eq(&endpoint) || b.target.key_eq(&endpoint)
                },
                None => false,
            };
            let ghost before = out@;
            if hit {
                out.push(i as u32);
            }
            proof {
                lemma_push_contains(before, i as u32);
                assert forall|k: u32| #[trigger] out@.contains(k) <==> (k < i + 1 && self.active(
                    k as int,
                ) && self.cleared_by(k as int, endpoint, owner, by_owner)) by {
                    if k == i as u32 && hit {
                        assert(self.active(i as int) && self.cleared_by(i as int, endpoint, owner, by_owner));
                    }
                    if k < i + 1 && self.active(k as int) && self.cleared_by(k as int, endpoint, owner, by_owner) {
                        if k < i {
                            assert(before.contains(k));
                        } else {
                            assert(hit);
                        }
                    }
                    if out@.contains(k) && k != i as u32 {
                        assert(before.contains(k));
                    }
                    if !hit && out@.contains(k) {
                        assert(before.contains(k));
                    }
                }
            }
            i = i + 1;
        }
        out
    }

    /// Unbinds every binding of `ids`, all active and in id order; returns
    /// how many were removed.
    fn unbind_each(&mut self, ids: &Vec<u32>) -> (r: usize)
        requires
            old(self).wf(),
            ascending_raw(ids@),
            forall|j: int| 0 <= j < ids@.len() ==> old(self).active(#[trigger] ids@[j] as int),
        ensures
            final(self).wf(),
            r == ids@.len(),
            final(self).slot_count() == old(self).slot_count(),
            final(self).channel_view() == old(self).channel_view(),
            forall|i: int| #[trigger] final(self).active(i) == (old(self).active(i) && !(0 <= i
                <= u32::MAX && ids@.contains(i as u32))),
            forall|i: int| #[trigger] final(self).active(i) ==> old(self).same_binding_at(*final(self), i),
            forall|k: u32| #[trigger] final(self).dirty_keys().contains(k) <==> (old(
                self,
            ).dirty_keys().contains(k) && !ids@.contains(k)),
    {
        let mut n: usize = 0;
        let mut j: usize = 0;
        while j < ids.len()
            invariant
                old(self).wf(),
                self.wf(),
                j <= ids.len(),
                n == j,
                ascending_raw(ids@),
                forall|q: int| 0 <= q < ids@.len() ==> old(self).active(#[trigger] ids@[q] as int),
                self.slot_count() == old(self).slot_count(),
                self.channel_view() == old(self).channel_view(),
                forall|i: int| #[trigger] self.active(i) == (old(self).active(i) && !(0 <= i <= u32::MAX
                    && ids@.take(j as int).contains(i as u32))),
                forall|i: int| #[trigger] self.active(i) ==> old(self).same_binding_at(*self, i),
                forall|k: u32| #[trigger] self.dirty_keys().contains(k) <==> (old(
                    self,
                ).dirty_keys().contains(k) && !ids@.take(j as int).contains(k)),
            decreases ids.len() - j,
        {
            let id = ids[j];
            let ghost prev = *self;
            proof {
                lemma_push_contains(ids@.take(j as int), id);
                assert(ids@.take(j as int + 1) == ids@.take(j as int).push(id));
                assert(!ids@.take(j as int).contains(id)) by {
                    if ids@.take(j as int).contains(id) {
                        let q = choose|q: int| 0 <= q < j && ids@.take(j as int)[q] == id;
                        assert(ids@[q] < ids@[j as int]);
                    }
                }
                assert(old(self).active(id as int));
            }
            let removed = self.unbind(BindingId::new(id));
            proof {
                prev.tracker.dirty_view().lemma_wf_facts();
                lemma_seq_remove_key(prev.dirty_keys(), id);
                assert forall|i: int| #[trigger] self.active(i) implies old(self).same_binding_at(*self, i) by {
                    assert(prev.active(i));
                }
            }
            n = n + 1;
            j = j + 1;
        }
        proof {
            assert(ids@.take(ids@.len() as int) == ids@);
        }
        n
    }

    /// Removes the active bindings that read or write `endpoint`; returns
    /// how many were removed.
    pub fn clear_endpoint(&mut self, endpoint: EndpointKey<K>) -> (r: usize)
        requires
            old(self).wf(),
        ensures
            final(self).wf(),
            r == old(self).active_ids().filter(|k: u32| old(self).touches(k as int, endpoint)).len(),
            final(self).slot_count() == old(self).slot_count(),
            forall|i: int| #[trigger] final(self).active(i) == (old(self).active(i) && !old(self).touches(i, endpoint)),
            forall|i: int| #[trigger] final(self).active(i) ==> old(self).same_binding_at(*final(self), i),
            forall|k: u32| #[trigger] final(self).dirty_keys().contains(k) <==> (old(
                self,
            ).dirty_keys().contains(k) && !old(self).touches(k as int, endpoint)),
    {
        let ids = self.collect_cleared(endpoint, endpoint.owner(), false);
        proof {
            self.lemma_cleared_count(ids@, endpoint, endpoint.owner_view(), false);
            assert(self.active_ids().filter(|k: u32| self.cleared_by(k as int, endpoint, endpoint.owner_view(), false))
                =~= self.active_ids().filter(|k: u32| self.touches(k as int, endpoint)));
        }
        self.unbind_each(&ids)
    }

    /// Removes the active bindings that read or write an endpoint of
    /// `owner`; returns how many were removed.
    pub fn clear_owner(&mut self, owner: K) -> (r: usize)
        requires
            old(self).wf(),
        ensures
            final(self).wf(),
            r == old(self).active_ids().filter(|k: u32| old(self).owned_by(k as int, owner)).len(),
            final(self).slot_count() == old(self).slot_count(),
            forall|i: int| #[trigger] final(self).active(i) == (old(self).active(i) && !old(self).owned_by(i, owner)),
            forall|i: int| #[trigger] final(self).active(i) ==> old(self).same_binding_at(*final(self), i),
            forall|k: u32| #[trigger] final(self).dirty_keys().contains(k) <==> (old(
                self,
            ).dirty_keys().contains(k) && !old(self).owned_by(k as int, owner)),
    {
        let any = EndpointKey::new(owner, crate::property::PropertyId::new(0));
        let ids = self.collect_cleared(any, owner, true);
        proof {
            self.lemma_cleared_count(ids@, any, owner, true);
            assert(self.active_ids().filter(|k: u32| self.cleared_by(k as int, any, owner, true))
                =~= self.active_ids().filter(|k: u32| self.owned_by(k as int, owner)));
        }
        self.unbind_each(&ids)
    }

    /// The collected ids are exactly the selected active bindings, so there
    /// are as many as the selected set has members.
    proof fn lemma_cleared_count(self, ids: Seq<u32>, endpoint: EndpointKey<K>, owner: K, by_owner: bool)
        requires
            self.wf(),
            ascending_raw(ids),
            forall|k: u32| #[trigger] ids.contains(k) <==> (self.active(k as int) && self.cleared_by(
                k as int,
                endpoint,
                owner,
                by_owner,
            )),
        ensures
            ids.len() == self.active_ids().filter(|k: u32| self.cleared_by(k as int, endpoint, owner, by_owner)).len(),
            forall|i: int| #[trigger] self.active(i) ==> (ids.contains(i as u32) <==> self.cleared_by(i, endpoint, owner, by_owner)),
            forall|j: int| 0 <= j < ids.len() ==> self.active(#[trigger] ids[j] as int),
    {
        assert forall|j: int| 0 <= j < ids.len() implies self.active(#[trigger] ids[j] as int) by {
            assert(ids.contains(ids[j]));
        }
        let sel = self.active_ids().filter(|k: u32| self.cleared_by(k as int, endpoint, owner, by_owner));
        assert(ids.to_set() =~= sel);
        assert forall|i: int, j: int| 0 <= i < ids.len() && 0 <= j < ids.len() && i != j implies ids[i] != ids[j] by {
            if i < j {
                assert(ids[i] < ids[j]);
            } else {
                assert(ids[j] < ids[i]);
            }
        }
        ids.unique_seq_to_set();
        assert forall|i: int| #[trigger] self.active(i) implies (ids.contains(i as u32) <==> self.cleared_by(i, endpoint, owner, by_owner)) by {
            self.lemma_ids_fit(i);
        }
    }

    /// Some active binding writes `target`.
    pub open spec fn target_taken(self, target: EndpointKey<K>) -> bool {
        exists|k: int| #[trigger] self.active(k) && self.target_of(k) == target
    }

    /// Registering a binding from `source` to `target` would close a cycle
    /// through the active reader `d` of `target`: an active writer of
    /// `source` reaches `d` in the graph.
    pub open spec fn closes_cycle_at(self, source: EndpointKey<K>, target: EndpointKey<K>, d: int) -> bool {
        &&& self.active(d)
        &&& self.source_of(d) == target
        &&& exists|u: u32| #[trigger] self.active(u as int) && self.target_of(u as int) == source
            && self.graph().reaches(self.channel_view().idx(), u, d as u32)
    }

    /// `new` is `self` with binding `id` added: it reads `source`, writes
    /// `target`, and carries `context` and `map`.
    pub open spec fn registered_as(
        self,
        new: Self,
        source: EndpointKey<K>,
        target: EndpointKey<K>,
        context: C,
        map: M,
        id: int,
    ) -> bool {
        &&& id == self.slot_count()
        &&& new.slot_count() == self.slot_count() + 1
        &&& new.channel_view() == self.channel_view()
        &&& forall|i: int| #[trigger] new.active(i) == (self.active(i) || i == id)
        &&& forall|i: int| #[trigger] self.active(i) ==> self.same_binding_at(new, i)
        &&& new.source_of(id) == source
        &&& new.target_of(id) == target
        &&& new.context_of(id) == context
        &&& new.map_of(id) == map
        &&& new.dirty_keys() == self.dirty_keys()
    }

    /// Registers a one-way binding from `source` to `target` that converts
    /// values with `map` and writes with `write_context`.
    ///
    /// Refused, leaving the set as it was: a binding of an endpoint to itself;
    /// a target that an active binding already writes; a set whose ids are
    /// exhausted; and a binding that would close a dependency cycle, reported
    /// at the first reader of `target` (in id order) that a writer of
    /// `source` reaches.
    pub fn bind_map<S, T>(
        &mut self,
        source: PropertyEndpoint<K, S>,
        target: PropertyEndpoint<K, T>,
        write_context: C,
        map: M,
    ) -> (r: Result<BindingId, BindingError<K>>)
        requires
            old(self).wf(),
            forall|v: &V| #[trigger] call_requires(map, (v,)),
        ensures
            final(self).wf(),
            r is Err ==> *final(self) == *old(self),
            source.key_view() == target.key_view() ==> r == Err::<BindingId, BindingError<K>>(
                BindingError::SelfBinding { endpoint: source.key_view() },
            ),
            source.key_view() != target.key_view() && old(self).target_taken(target.key_view()) ==> (
            r matches Err(BindingError::TargetAlreadyBound { target: t, existing: e }) && t
                == target.key_view() && old(self).active(e.raw() as int) && old(self).target_of(
                e.raw() as int,
            ) == t),
            source.key_view() != target.key_view() && !old(self).target_taken(target.key_view())
                && old(self).slot_count() > u32::MAX ==> r == Err::<BindingId, BindingError<K>>(
                BindingError::TooManyBindings,
            ),
            source.key_view() != target.key_view() && !old(self).target_taken(target.key_view())
                && old(self).slot_count() <= u32::MAX && (exists|d: int| #[trigger] old(self).closes_cycle_at(
                source.key_view(),
                target.key_view(),
                d,
            )) ==> (r matches Err(BindingError::Cycle { dependent: d, dependency: n }) && n.raw()
                == old(self).slot_count() && old(self).closes_cycle_at(
                source.key_view(),
                target.key_view(),
                d.raw() as int,
            ) && forall|e: int| e < d.raw() ==> !#[trigger] old(self).closes_cycle_at(
                source.key_view(),
                target.key_view(),
                e,
            )),
            source.key_view() != target.key_view() && !old(self).target_taken(target.key_view())
                && old(self).slot_count() <= u32::MAX && !(exists|d: int| #[trigger] old(self).closes_cycle_at(
                source.key_view(),
                target.key_view(),
                d,
            )) ==> (r matches Ok(id) && old(self).registered_as(
                *final(self),
                source.key_view(),
                target.key_view(),
                write_context,
                map,
                id.raw() as int,
            )),
    {
        let source_key = source.key();
        let target_key = target.key();
        if source_key.key_eq(&target_key) {
            return Err(BindingError::SelfBinding { endpoint: source_key });
        }
        match self.active_target_binding(target_key) {
            Some(existing) => {
                return Err(BindingError::TargetAlreadyBound { target: target_key, existing });
            },
            None => {},
        }
        let len = self.bindings.len();
        if len as u64 > u32::MAX as u64 {
            return Err(BindingError::TooManyBindings);
        }
        let id_raw = len as u32;
        let ch = self.binding_channel;
        let ghost c = ch.idx();
        let ghost g0 = self.graph();
        let ups = self.writers_of(source_key);
        let downs = self.readers_of(target_key);
        let mut j: usize = 0;
        while j < downs.len()
            invariant
                source_key == source.key_view(),
                target_key == target.key_view(),
                source_key != target_key,
                !old(self).target_taken(target_key),
                old(self).slot_count() <= u32::MAX,
                id_raw == old(self).slot_count(),
                self.wf(),
                *self == *old(self),
                g0 == self.graph(),
                c == self.binding_channel.idx(),
                ch == self.binding_channel,
                j <= downs.len(),
                ascending_raw(downs@),
                forall|k: u32| #[trigger] downs@.contains(k) <==> (self.active(k as int) && self.source_of(
                    k as int,
                ) == target_key),
                forall|k: u32| #[trigger] ups@.contains(k) <==> (self.active(k as int) && self.target_of(
                    k as int,
                ) == source_key),
                forall|q: int, u: u32| 0 <= q < j && #[trigger] ups@.contains(u) ==> !g0.reaches(
                    c,
                    u,
                    #[trigger] downs@[q],
                ),
            decreases downs.len() - j,
        {
            let d = downs[j];
            let mut q: usize = 0;
            while q < ups.len()
                invariant
                    source_key == source.key_view(),
                    target_key == target.key_view(),
                    source_key != target_key,
                    !old(self).target_taken(target_key),
                    old(self).slot_count() <= u32::MAX,
                    id_raw == old(self).slot_count(),
                    self.wf(),
                    g0 == self.graph(),
                    c == self.binding_channel.idx(),
                    ch == self.binding_channel,
                    q <= ups.len(),
                    j < downs.len(),
                    d == downs@[j as int],
                    *self == *old(self),
                    ascending_raw(downs@),
                    forall|k: u32| #[trigger] downs@.contains(k) <==> (self.active(k as int) && self.source_of(
                        k as int,
                    ) == target_key),
                    forall|k: u32| #[trigger] ups@.contains(k) <==> (self.active(k as int) && self.target_of(
                        k as int,
                    ) == source_key),
                    forall|qq: int, u: u32| 0 <= qq < j && #[trigger] ups@.contains(u) ==> !g0.reaches(
                        c,
                        u,
                        #[trigger] downs@[qq],
                    ),
                    forall|w: int| 0 <= w < q ==> !g0.reaches(c, #[trigger] ups@[w], d),
                decreases ups.len() - q,
            {
                if self.tracker.graph().would_create_cycle(d, ups[q], ch) {
                    proof {
                        let u = ups@[q as int];
                        assert(ups@.contains(u));
                        assert(downs@.contains(downs@[j as int]));
                        assert(downs@.contains(d));
                        assert(self.closes_cycle_at(source_key, target_key, d as int));
                        assert forall|e: int| e < d implies !#[trigger] self.closes_cycle_at(
                            source_key,
                            target_key,
                            e,
                        ) by {
                            if self.closes_cycle_at(source_key, target_key, e) {
                                self.lemma_ids_fit(e);
                                assert(downs@.contains(e as u32));
                                let qe = choose|qe: int| 0 <= qe < downs@.len() && downs@[qe] == e as u32;
                                if qe >= j {
                                    if qe > j {
                                        assert(downs@[j as int] < downs@[qe]);
                                    }
                                }
                                let w = choose|w: u32| #[trigger] self.active(w as int) && self.target_of(w as int) == source_key
                                    && self.graph().reaches(self.channel_view().idx(), w, e as u32);
                                assert(ups@.contains(w));
                            }
                        }
                    }
                    return Err(BindingError::Cycle {
                        dependent: BindingId::new(d),
                        dependency: BindingId::new(id_raw),
                    });
                }
                q = q + 1;
            }
            proof {
                assert forall|u: u32| #[trigger] ups@.contains(u) implies !g0.reaches(c, u, d) by {
                    let w = choose|w: int| 0 <= w < ups@.len() && ups@[w] == u;
                    assert(!g0.reaches(c, ups@[w], d));
                }
            }
            j = j + 1;
        }
        proof {
            assert forall|e: int| !#[trigger] self.closes_cycle_at(source_key, target_key, e) by {
                if self.closes_cycle_at(source_key, target_key, e) {
                    self.lemma_ids_fit(e);
                    assert(downs@.contains(e as u32));
                    let qe = choose|qe: int| 0 <= qe < downs@.len() && downs@[qe] == e as u32;
                    let w = choose|w: u32| #[trigger] self.active(w as int) && self.target_of(w as int) == source_key
                        && self.graph().reaches(self.channel_view().idx(), w, e as u32);
                    assert(ups@.contains(w));
                }
            }
            self.lemma_active_le_slots();
        }
        let ghost prev = *self;
        self.bindings.push(Some(Binding { source: source_key, target: target_key, write_context, map }));
        let new_len = self.bindings.len();
        self.active_bindings = self.active_bindings + 1;
        let ghost pushed = *self;
        proof {
            assert(pushed.active_ids() =~= prev.active_ids().insert(id_raw));
            assert(!prev.active_ids().contains(id_raw));
            assert forall|i: int| #[trigger] pushed.active(i) == (prev.active(i) || i == id_raw) by {}
            assert forall|i: int| #[trigger] prev.active(i) implies prev.same_binding_at(pushed, i) by {
                assert(pushed.bindings@[i] == prev.bindings@[i]);
            }
            assert forall|k: u32| !#[trigger] g0.deps(k, c).contains(id_raw) by {
                assert(g0.deps(k, c).contains(id_raw) <==> prev.reads(k as int, id_raw as int));
            }
            assert forall|z: u32| !#[trigger] g0.deps(id_raw, c).contains(z) by {
                assert(g0.deps(id_raw, c).contains(z) <==> prev.reads(id_raw as int, z as int));
            }
        }
        let mut a: usize = 0;
        while a < ups.len()
            invariant
                self.bindings == pushed.bindings,
                self.active_bindings == pushed.active_bindings,
                self.binding_channel == pushed.binding_channel,
                self.tracker.wf(),
                self.tracker.handling() == CycleHandling::Error,
                self.dirty_keys() == prev.dirty_keys(),
                self.graph().acyclic(c),
                c == ch.idx(),
                ch == self.binding_channel,
                id_raw == prev.slot_count(),
                new_len == id_raw + 1,
                a <= ups.len(),
                ascending_raw(ups@),
                forall|k: u32| #[trigger] ups@.contains(k) <==> (prev.active(k as int) && prev.target_of(
                    k as int,
                ) == source_key),
                forall|k: u32| !#[trigger] g0.deps(k, c).contains(id_raw),
                forall|z: u32| !#[trigger] g0.deps(id_raw, c).contains(z),
                forall|k: u32, z: u32| #[trigger] self.graph().deps(k, c).contains(z) <==> (g0.deps(
                    k,
                    c,
                ).contains(z) || (k == id_raw && ups@.take(a as int).contains(z))),
            decreases ups.len() - a,
        {
            let u = ups[a];
            let ghost gp = self.graph();
            proof {
                assert(ups@.contains(u));
                lemma_push_contains(ups@.take(a as int), u);
                assert(ups@.take(a as int + 1) == ups@.take(a as int).push(u));
                assert(!ups@.take(a as int).contains(u)) by {
                    if ups@.take(a as int).contains(u) {
                        let q = choose|q: int| 0 <= q < a && ups@.take(a as int)[q] == u;
                        assert(ups@[q] < ups@[a as int]);
                    }
                }
                assert forall|k: u32| !#[trigger] gp.deps(k, c).contains(id_raw) by {
                    if k == id_raw && ups@.take(a as int).contains(id_raw) {
                        assert(ups@.contains(id_raw));
                    }
                }
                if gp.reaches(c, u, id_raw) {
                    lemma_no_incoming(gp, c, id_raw, u);
                }
                assert(!gp.deps(id_raw, c).contains(u));
            }
            let r = self.tracker.add_dependency(id_raw, u, ch);
            proof {
                DirtyGraph::<u32>::lemma_add_keeps_acyclic(gp, self.graph(), id_raw, u, ch, CycleHandling::Error, r, c);
                lemma_push_contains(gp.deps(id_raw, c), u);
            }
            a = a + 1;
        }
        proof {
            assert(ups@.take(ups@.len() as int) == ups@);
        }
        let mut b: usize = 0;
        while b < downs.len()
            invariant
                self.bindings == pushed.bindings,
                self.active_bindings == pushed.active_bindings,
                self.binding_channel == pushed.binding_channel,
                self.tracker.wf(),
                self.tracker.handling() == CycleHandling::Error,
                self.dirty_keys() == prev.dirty_keys(),
                self.graph().acyclic(c),
                c == ch.idx(),
                ch == self.binding_channel,
                id_raw == prev.slot_count(),
                new_len == id_raw + 1,
                b <= downs.len(),
                ascending_raw(downs@),
                forall|k: u32| #[trigger] ups@.contains(k) <==> (prev.active(k as int) && prev.target_of(
                    k as int,
                ) == source_key),
                forall|k: u32| #[trigger] downs@.contains(k) <==> (prev.active(k as int) && prev.source_of(
                    k as int,
                ) == target_key),
                forall|qq: int, u: u32| 0 <= qq < downs@.len() && #[trigger] ups@.contains(u) ==> !g0.reaches(
                    c,
                    u,
                    #[trigger] downs@[qq],
                ),
                forall|k: u32| !#[trigger] g0.deps(k, c).contains(id_raw),
                forall|z: u32| !#[trigger] g0.deps(id_raw, c).contains(z),
                forall|k: u32, z: u32| #[trigger] self.graph().deps(k, c).contains(z) <==> (g0.deps(
                    k,
                    c,
                ).contains(z) || (k == id_raw && ups@.contains(z)) || (z == id_raw && downs@.take(
                    b as int,
                ).contains(k))),
            decreases downs.len() - b,
        {
            let d = downs[b];
            let ghost gp = self.graph();
            proof {
                assert(downs@.contains(d));
                lemma_push_contains(downs@.take(b as int), d);
                assert(downs@.take(b as int + 1) == downs@.take(b as int).push(d));
                assert(!downs@.take(b as int).contains(d)) by {
                    if downs@.take(b as int).contains(d) {
                        let q = choose|q: int| 0 <= q < b && downs@.take(b as int)[q] == d;
                        assert(downs@[q] < downs@[b as int]);
                    }
                }
                if gp.reaches(c, id_raw, d) {
                    let p = choose|p: Seq<u32>| #[trigger] gp.is_path(c, p) && p[0] == id_raw && p.last() == d;
                    assert forall|k: u32, z: u32| #[trigger] gp.deps(k, c).contains(z) implies (k != id_raw
                        && z != id_raw && g0.deps(k, c).contains(z)) || (k == id_raw
                        && ups@.to_set().contains(z)) || z == id_raw by {
                        if k == id_raw && ups@.contains(z) {
                            assert(ups@.to_set().contains(z));
                        }
                    }
                    lemma_path_from_fresh(g0, gp, c, id_raw, ups@.to_set(), p);
                    let u = choose|u: u32| #[trigger] ups@.to_set().contains(u) && g0.reaches(c, u, p.last());
                    assert(ups@.contains(u));
                    assert(!g0.reaches(c, u, downs@[b as int]));
                }
                assert(!gp.deps(d, c).contains(id_raw));
            }
            let r = self.tracker.add_dependency(d, id_raw, ch);
            proof {
                DirtyGraph::<u32>::lemma_add_keeps_acyclic(gp, self.graph(), d, id_raw, ch, CycleHandling::Error, r, c);
                lemma_push_contains(gp.deps(d, c), id_raw);
            }
            b = b + 1;
        }
        proof {
            assert(downs@.take(downs@.len() as int) == downs@);
            let n = *self;
            assert(n.active_ids() =~= pushed.active_ids());
            assert forall|k: u32, z: u32| #[trigger] n.graph().deps(k, c).contains(z) <==> n.reads(k as int, z as int) by {
                assert(g0.deps(k, c).contains(z) <==> prev.reads(k as int, z as int));
                if k == id_raw && z == id_raw {
                    if ups@.contains(z) {
                    }
                    if downs@.contains(k) {
                    }
                }
            }
            assert forall|i: int| #[trigger] n.active(i) implies n.source_of(i) != n.target_of(i) by {
                if i != id_raw {
                    assert(prev.active(i));
                }
            }
            assert forall|i: int, j: int|
                #![trigger n.target_of(i), n.target_of(j)]
                n.active(i) && n.active(j) && n.target_of(i) == n.target_of(j) implies i == j by {
                if i != id_raw && j != id_raw {
                    assert(prev.active(i) && prev.active(j) && prev.target_of(i) == prev.target_of(j));
                } else if i != id_raw {
                    assert(prev.active(i) && prev.target_of(i) == target_key);
                } else if j != id_raw {
                    assert(prev.active(j) && prev.target_of(j) == target_key);
                }
            }
            assert forall|k: u32| #[trigger] n.dirty_keys().contains(k) implies n.active(k as int) by {
                assert(prev.dirty_keys().contains(k));
            }
            assert forall|i: int, v: &V| n.active(i) implies #[trigger] call_requires(n.map_of(i), (v,)) by {
                if i != id_raw {
                    assert(prev.active(i));
                    assert(call_requires(prev.map_of(i), (v,)));
                }
            }
            assert forall|i: int| #[trigger] prev.active(i) implies prev.same_binding_at(n, i) by {
                assert(prev.same_binding_at(pushed, i));
            }
        }
        Ok(BindingId::new(id_raw))
    }

    /// What binding `binding` does with `read`, the value read from its
    /// source: `Ok(None)` when the binding is not active; `MissingSource`
    /// when there was no value; `SourceTypeMismatch` when the conversion
    /// refuses it; otherwise the target to write, the converted value and the
    /// write context.
    pub fn evaluate_read(&self, binding: BindingId, read: Option<V>) -> (r: Result<
        Option<(EndpointKey<K>, V, C)>,
        BindingError<K>,
    >)
        requires
            self.wf(),
        ensures
            !self.active(binding.raw() as int) ==> r == Ok::<Option<(EndpointKey<K>, V, C)>, BindingError<K>>(None),
            self.active(binding.raw() as int) ==> match read {
                None => r == Err::<Option<(EndpointKey<K>, V, C)>, BindingError<K>>(
                    BindingError::MissingSource { binding, endpoint: self.source_of(binding.raw() as int) },
                ),
                Some(v) => match r {
                    Ok(Some((target, mapped, context))) => {
                        &&& target == self.target_of(binding.raw() as int)
                        &&& context == self.context_of(binding.raw() as int)
                        &&& call_ensures(
                            self.map_of(binding.raw() as int),
                            (&v,),
                            Ok::<V, ErasedTypeMismatch>(mapped),
                        )
                    },
                    Err(BindingError::SourceTypeMismatch { binding: b, endpoint, expected, actual }) => {
                        &&& b == binding
                        &&& endpoint == self.source_of(binding.raw() as int)
                        &&& call_ensures(
                            self.map_of(binding.raw() as int),
                            (&v,),
                            Err::<V, ErasedTypeMismatch>(ErasedTypeMismatch { expected, actual }),
                        )
                    },
                    _ => false,
                },
            },
    {
        let index = binding.get() as usize;
        if index >= self.bindings.len() {
            return Ok(None);
        }
        match &self.bindings[index] {
            None => Ok(None),
            Some(b) => match read {
                None => Err(BindingError::MissingSource { binding, endpoint: b.source }),
                Some(value) => {
                    proof {
                        assert(call_requires(self.map_of(index as int), (&value,)));
                    }
                    match (b.map)(&value) {
                        Err(mismatch) => Err(
                            BindingError::SourceTypeMismatch {
                                binding,
                                endpoint: b.source,
                                expected: mismatch.expected,
                                actual: mismatch.actual,
                            },
                        ),
                        Ok(mapped) => Ok(Some((b.target, mapped, b.write_context))),
                    }
                },
            },
        }
    }

    /// How a store-like host went from `before` to `after` when a binding
    /// reading `source` and writing `target` with `context` through `map`
    /// was evaluated with result `r`.
    pub open spec fn evaluated_as<H: BindingHost<K, C, V> + ?Sized>(
        before: &H,
        after: &H,
        source: EndpointKey<K>,
        target: EndpointKey<K>,
        context: C,
        map: M,
        r: Result<Option<(EndpointKey<K>, BindingWrite)>, BindingError<K>>,
    ) -> bool {
        let read = before.stored(source);
        let unchanged = after.writes() == before.writes() && forall|e: EndpointKey<K>| #[trigger] after.stored(e) == before.stored(e);
        match r {
            Ok(Some((t, w))) => {
                &&& read is Some
                &&& after.writes().len() == before.writes().len() + 1
                &&& after.writes().drop_last() == before.writes()
                &&& after.writes().last().0 == target
                &&& after.writes().last().2 == context
                &&& after.writes().last().3 == w
                &&& call_ensures(map, (&read->0,), Ok::<V, ErasedTypeMismatch>(after.writes().last().1))
                &&& after.stored(target) == Some(after.writes().last().1)
                &&& forall|e: EndpointKey<K>| e != target ==> #[trigger] after.stored(e) == before.stored(e)
            },
            Ok(None) => unchanged,
            Err(BindingError::MissingSource { .. }) => read is None && unchanged,
            Err(BindingError::SourceTypeMismatch { expected, actual, .. }) => {
                &&& read is Some
                &&& call_ensures(map, (&read->0,), Err::<V, ErasedTypeMismatch>(ErasedTypeMismatch { expected, actual }))
                &&& unchanged
            },
            _ => true,
        }
    }

    /// Evaluates binding `raw`: reads its source from `host`, converts the
    /// value, and writes its target. `Ok(None)` when the binding is not
    /// active.
    fn evaluate_raw<H: BindingHost<K, C, V> + ?Sized>(&self, raw: u32, host: &mut H) -> (r: Result<
        Option<(EndpointKey<K>, BindingWrite)>,
        BindingError<K>,
    >)
        requires
            self.wf(),
        ensures
            r matches Ok(None) ==> !self.active(raw as int),
            r matches Ok(Some((t, w))) ==> self.active(raw as int) && t == self.target_of(raw as int),
            r matches Err(e) ==> self.active(raw as int) && match e {
                BindingError::MissingSource { binding, endpoint } => binding.raw() == raw && endpoint
                    == self.source_of(raw as int),
                BindingError::SourceTypeMismatch { binding, endpoint, .. } => binding.raw() == raw
                    && endpoint == self.source_of(raw as int),
                _ => false,
            },
            old(host).obeys_store_spec() ==> final(host).obeys_store_spec() && Self::evaluated_as(
                &*old(host),
                &*final(host),
                self.source_of(raw as int),
                self.target_of(raw as int),
                self.context_of(raw as int),
                self.map_of(raw as int),
                r,
            ),
    {
        let index = raw as usize;
        if index >= self.bindings.len() {
            return Ok(None);
        }
        let source = match &self.bindings[index] {
            None => return Ok(None),
            Some(binding) => binding.source,
        };
        let id = BindingId::new(raw);
        let read = host.get_erased(source);
        match self.evaluate_read(id, read) {
            Ok(Some((target, mapped, context))) => {
                let write = host.set_erased(target, mapped, context);
                proof {
                    if old(host).obeys_store_spec() {
                        assert(host.writes().drop_last() =~= old(host).writes());
                    }
                }
                Ok(Some((target, write)))
            },
            Ok(None) => Ok(None),
            Err(e) => Err(e),
        }
    }

    /// Marks dirty again the active bindings of `raws` from position `from`
    /// on.
    fn remark_dirty_batch(&mut self, raws: &Vec<u32>, from: usize)
        requires
            old(self).wf(),
            from <= raws.len(),
        ensures
            final(self).wf(),
            old(self).same_bindings(*final(self)),
            forall|k: u32| #[trigger] final(self).dirty_keys().contains(k) <==> (old(
                self,
            ).dirty_keys().contains(k) || (old(self).active(k as int) && raws@.subrange(
                from as int,
                raws@.len() as int,
            ).contains(k))),
    {
        let mut i = from;
        proof {
            assert(raws@.subrange(from as int, from as int) =~= Seq::<u32>::empty());
        }
        while i < raws.len()
            invariant
                old(self).wf(),
                self.wf(),
                old(self).same_bindings(*self),
                from <= i <= raws.len(),
                forall|k: u32| #[trigger] self.dirty_keys().contains(k) <==> (old(
                    self,
                ).dirty_keys().contains(k) || (old(self).active(k as int)
                    && raws@.subrange(from as int, i as int).contains(k))),
            decreases raws.len() - i,
        {
            let raw = raws[i];
            let ghost prev = *self;
            let ghost before = self.dirty_keys();
            let ghost seen = raws@.subrange(from as int, i as int);
            proof {
                assert(raws@.subrange(from as int, i as int + 1) == seen.push(raw));
                lemma_push_contains(seen, raw);
            }
            if self.is_active(BindingId::new(raw)) {
                let newly = self.tracker.mark(raw, self.binding_channel);
                proof {
                    lemma_push_contains(before, raw);
                    assert forall|k: u32| #[trigger] self.dirty_keys().contains(k) implies prev.active(k as int) by {
                        if k != raw {
                            assert(before.contains(k));
                        }
                    }
                    prev.lemma_frame(*self);
                }
            }
            i = i + 1;
        }
    }

    /// The keys still to be reached by draining what is dirty: the dirty
    /// bindings and everything that depends on them.
    pub open spec fn pending_closure(self) -> Set<u32> {
        affected_keys(self.graph(), self.channel_view().idx(), self.dirty_keys().to_set())
    }

    /// Everything dirty, and everything that depends on it, is active.
    proof fn lemma_closure_active(self)
        requires
            self.wf(),
        ensures
            self.pending_closure().subset_of(self.active_ids()),
    {
        let c = self.channel_view().idx();
        assert forall|y: u32| #[trigger] self.pending_closure().contains(y) implies self.active_ids().contains(y) by {
            let r = choose|r: u32| #[trigger] self.dirty_keys().to_set().contains(r) && (y == r
                || self.graph().depends_transitively(c, y, r));
            if y != r {
                let p = choose|p: Seq<u32>| #[trigger] self.graph().is_path(c, p) && p.len() >= 2
                    && p[0] == y && p.last() == r;
                assert(self.graph().edge_at(c, p, 0));
                assert(self.reads(y as int, p[1] as int));
            } else {
                assert(self.dirty_keys().contains(r));
            }
        }
    }

    /// Evaluates dirty bindings until none is left.
    ///
    /// Each pass takes every dirty binding and evaluates them in dependency
    /// order (smallest id first among the ready ones). A binding whose write
    /// changed its target marks the bindings that read that target for a
    /// later pass, unless they are in the current one. A binding whose source
    /// has no value is skipped and stays clean. Any other evaluation error
    /// stops the drain: the failed binding and the rest of its pass are
    /// marked dirty again, and writes already made stand.
    ///
    /// For a host that behaves as a store, the course of the drain is stated
    /// pass by pass: which bindings each pass evaluates and in what order,
    /// what each reads and writes, what it marks, and what the report counts.
    pub fn drain<H: BindingHost<K, C, V> + ?Sized>(&mut self, host: &mut H) -> (r: Result<
        BindingReport,
        BindingDrainError<K>,
    >)
        requires
            old(self).wf(),
        ensures
            final(self).wf(),
            old(self).same_bindings(*final(self)),
            r is Ok ==> final(self).dirty_keys().len() == 0,
            r matches Err(e) ==> (e.error_view() matches BindingError::SourceTypeMismatch { binding, .. }
                && final(self).dirty_keys().contains(binding.raw())),
            old(host).obeys_store_spec() ==> final(host).obeys_store_spec() && exists|runs: Seq<(Seq<u32>, Seq<EvalOutcome>, Seq<(EndpointKey<K>, V, C, BindingWrite)>)>| #[trigger] old(
                self,
            ).drain_outcome(*final(self), &*old(host), &*final(host), runs, r),
    {
        let ghost logs = old(host).obeys_store_spec();
        let ghost base = Self::store_of(&*old(host));
        let ghost dirty0 = old(self).dirty_keys().to_set();
        let ghost s0 = *old(self);
        let ghost mut runs: Seq<(Seq<u32>, Seq<EvalOutcome>, Seq<(EndpointKey<K>, V, C, BindingWrite)>)> = Seq::empty();
        let ghost mut prior: Seq<(EndpointKey<K>, V, C, BindingWrite)> = Seq::empty();
        let mut report = BindingReport::default();
        proof {
            assert(old(host).writes() + prior =~= old(host).writes());
            assert(self.dirty_keys().to_set() == s0.pass_input(dirty0, runs, 0));
            if logs {
                assert(host.obeys_store_spec());
                assert(forall|e: EndpointKey<K>| #[trigger] host.stored(e) == Self::stored_after(base, prior, e));
                assert(s0.drain_runs(base, dirty0, runs));
                assert(Self::writes_before(runs, 0) == prior);
                assert(Self::report_counts(report, runs));
            }
        }
        let ch = self.binding_channel;
        let ghost c = ch.idx();
        let ghost g = self.graph();
        while self.tracker.has_dirty(ch)
            invariant
                self.wf(),
                old(self).same_bindings(*self),
                s0 == *old(self),
                ch == self.binding_channel,
                c == ch.idx(),
                g == self.graph(),
                logs == old(host).obeys_store_spec(),
                base == Self::store_of(&*old(host)),
                dirty0 == old(self).dirty_keys().to_set(),
                prior == Self::writes_before(runs, runs.len() as int),
                logs ==> {
                    &&& host.obeys_store_spec()
                    &&& host.writes() == old(host).writes() + prior
                    &&& forall|e: EndpointKey<K>| #[trigger] host.stored(e) == Self::stored_after(base, prior, e)
                    &&& s0.drain_runs(base, dirty0, runs)
                    &&& forall|p: int| 0 <= p < runs.len() ==> Self::completed(#[trigger] runs[p])
                    &&& self.dirty_keys().to_set() == s0.pass_input(dirty0, runs, runs.len() as int)
                    &&& Self::report_counts(report, runs)
                },
            decreases self.pending_closure().len(),
        {
            let ghost d0 = self.dirty_keys().to_set();
            let ghost start = *self;
            proof {
                self.tracker.dirty_view().lemma_wf_facts();
                assert forall|k: u32| #[trigger] self.tracker.dirty_view().keys(c).contains(k) implies k.spec_index() < usize::MAX by {
                    assert(self.active(k as int));
                }
                let k0 = self.dirty_keys()[0];
                assert(d0.contains(k0));
                self.lemma_closure_active();
            }
            let pass = self.tracker.drain_sorted_deterministic(ch);
            let raws: Vec<u32> = pass.collect_with_completion().0;
            proof {
                vstd::seq_lib::seq_to_set_is_finite(start.dirty_keys());
                lemma_acyclic_collect_complete(g, c, d0, raws@, completion_after(false, d0, raws@));
                start.lemma_frame(*self);
                assert(s0.pass_order(d0, raws@));
                assert forall|k: u32| #[trigger] raws@.contains(k) implies s0.active(k as int) by {
                    assert(raws@.to_set().contains(k));
                    assert(start.dirty_keys().contains(k));
                    assert(start.active(k as int));
                }
            }
            let mut batch = IndexSet::new();
            let mut n: usize = 0;
            while n < raws.len()
                invariant
                    n <= raws.len(),
                    forall|x: usize| #[trigger] index_set_contents(batch).contains(x) <==> exists|q: int|
                        0 <= q < n && raws@[q] as usize == x,
                decreases raws.len() - n,
            {
                batch.insert(raws[n] as usize);
                proof {
                    assert forall|x: usize| #[trigger] index_set_contents(batch).contains(x) <==> exists|q: int|
                        0 <= q < n + 1 && raws@[q] as usize == x by {
                        if exists|q: int| 0 <= q < n + 1 && raws@[q] as usize == x {
                            let q = choose|q: int| 0 <= q < n + 1 && raws@[q] as usize == x;
                            if q < n {
                                assert(exists|q2: int| 0 <= q2 < n && raws@[q2] as usize == x);
                            }
                        }
                    }
                }
                n = n + 1;
            }
            proof {
                assert forall|k: u32| #[trigger] skipped(Some(&batch), k) <==> d0.contains(k) by {
                    if skipped(Some(&batch), k) {
                        let q = choose|q: int| 0 <= q < raws@.len() && raws@[q] as usize == k as usize;
                        assert(raws@[q] == k);
                        assert(raws@.to_set().contains(k));
                    }
                    if d0.contains(k) {
                        assert(raws@.to_set().contains(k));
                        let q = choose|q: int| 0 <= q < raws@.len() && raws@[q] == k;
                        assert(raws@[q] as usize == k as usize);
                    }
                }
            }
            let ghost mut outs: Seq<EvalOutcome> = Seq::empty();
            let ghost mut cws: Seq<(EndpointKey<K>, V, C, BindingWrite)> = Seq::empty();
            proof {
                assert(prior + cws =~= prior);
                assert(Self::missing_count(outs) == 0);
                assert(Self::changed_count(prior + cws) == Self::changed_count(prior));
                assert forall|k: u32| #[trigger] self.dirty_keys().contains(k) <==> s0.marked((raws@, outs, cws), 0).contains(k) by {
                    if self.dirty_keys().contains(k) {
                        assert(self.dirty_keys().to_set().contains(k));
                    }
                }
            }
            let mut index: usize = 0;
            while index < raws.len()
                invariant
                    self.wf(),
                    old(self).same_bindings(*self),
                    s0 == *old(self),
                    ch == self.binding_channel,
                    c == ch.idx(),
                    g == self.graph(),
                    index <= raws.len(),
                    raws@.to_set() == d0,
                    forall|k: u32| #[trigger] skipped(Some(&batch), k) <==> d0.contains(k),
                    forall|k: u32| #[trigger] self.dirty_keys().contains(k) ==> !d0.contains(k)
                        && exists|z: u32| #[trigger] d0.contains(z) && g.deps(k, c).contains(z),
                    forall|k: u32| #[trigger] raws@.contains(k) ==> s0.active(k as int),
                    logs == old(host).obeys_store_spec(),
                    base == Self::store_of(&*old(host)),
                    dirty0 == old(self).dirty_keys().to_set(),
                    prior == Self::writes_before(runs, runs.len() as int),
                    outs.len() == index,
                    forall|i: int| 0 <= i < outs.len() ==> !(#[trigger] outs[i] is Refused),
                    logs ==> {
                        &&& Self::written_count(outs) == cws.len()
                        &&& host.obeys_store_spec()
                        &&& host.writes() == old(host).writes() + prior + cws
                        &&& forall|e: EndpointKey<K>| #[trigger] host.stored(e) == Self::stored_after(base, prior + cws, e)
                        &&& s0.drain_runs(base, dirty0, runs)
                        &&& forall|p: int| 0 <= p < runs.len() ==> Self::completed(#[trigger] runs[p])
                        &&& d0 == s0.pass_input(dirty0, runs, runs.len() as int)
                        &&& s0.pass_order(d0, raws@)
                        &&& forall|i: int| 0 <= i < outs.len() ==> #[trigger] s0.evaluation_ok(base, prior, (raws@, outs, cws), i)
                        &&& forall|k: u32| #[trigger] self.dirty_keys().contains(k) <==> s0.marked((raws@, outs, cws), index as int).contains(k)
                        &&& report.evaluated_view() as int == Self::wrapped_count((prior + cws).len() as int)
                        &&& report.skipped_view() as int == Self::wrapped_count(
                            (Self::missing_before(runs, runs.len() as int) + Self::missing_count(outs)) as int,
                        )
                        &&& report.changed_view() as int == Self::wrapped_count(Self::changed_count(prior + cws) as int)
                        &&& report.channels_view()@ == Self::written_channels(prior + cws)
                    },
                decreases raws.len() - index,
            {
                let raw = raws[index];
                proof {
                    assert(raws@.to_set().contains(raw));
                    assert(raws@.contains(raw));
                }
                let ghost here = *self;
                let ghost pre = Self::store_of(&*host);
                let ghost pre_writes = host.writes();
                let ghost read = host.stored(s0.source_of(raw as int));
                let evaluated = self.evaluate_raw(raw, host);
                proof {
                    assert(s0.active(raw as int));
                    assert(s0.same_binding_at(here, raw as int));
                }
                match evaluated {
                    Ok(Some((target, write))) => {
                        let ghost x = host.writes().last();
                        proof {
                            if logs {
                                assert(cws.push(x).drop_last() =~= cws);
                                assert(read is Some);
                                assert(x.0 == s0.target_of(raw as int));
                                assert(x.2 == s0.context_of(raw as int));
                                assert(call_ensures(s0.map_of(raw as int), (&read->0,), Ok::<V, ErasedTypeMismatch>(x.1)));
                                s0.lemma_evaluation_step(base, prior, raws@, outs, cws, EvalOutcome::Written, cws.push(x), read);
                                assert(host.writes() =~= host.writes().drop_last().push(x));
                                assert(host.writes() =~= pre_writes.push(x));
                                assert(host.writes() =~= old(host).writes() + prior + cws.push(x));
                                assert forall|e: EndpointKey<K>| #[trigger] host.stored(e) == Self::stored_after(base, prior + cws.push(x), e) by {
                                    assert((prior + cws.push(x)).drop_last() =~= prior + cws);
                                }
                                assert((prior + cws.push(x)).drop_last() =~= prior + cws);
                                Self::lemma_wrapped_count_step(report.evaluated_view(), (prior + cws).len() as int);
                                if write.changed_view() {
                                    Self::lemma_wrapped_count_step(report.changed_view(), Self::changed_count(prior + cws) as int);
                                }
                            }
                        }
                        report.record(write);
                        let ghost marked_before = *self;
                        if write.did_change() {
                            let ghost prev = *self;
                            self.mark_endpoint_changed_skipping(target, Some(&batch));
                            proof {
                                assert forall|k: u32| #[trigger] self.dirty_keys().contains(k) implies !d0.contains(k)
                                    && exists|z: u32| #[trigger] d0.contains(z) && g.deps(k, c).contains(z) by {
                                    if !prev.dirty_keys().contains(k) {
                                        assert(prev.reads(k as int, raw as int));
                                        assert(g.deps(k, c).contains(raw));
                                        assert(d0.contains(raw));
                                    }
                                }
                            }
                        }
                        proof {
                            if logs {
                                let run2 = (raws@, outs.push(EvalOutcome::Written), cws.push(x));
                                assert(outs.push(EvalOutcome::Written).take(index as int) =~= outs);
                                assert forall|k: u32| #[trigger] self.dirty_keys().contains(k) <==> s0.marked(run2, index + 1).contains(k) by {
                                    if s0.active(k as int) {
                                        assert(s0.same_binding_at(marked_before, k as int));
                                    }
                                    assert(skipped(Some(&batch), k) == raws@.contains(k)) by {
                                        assert(raws@.to_set().contains(k) == raws@.contains(k));
                                    }
                                }
                            }
                            outs = outs.push(EvalOutcome::Written);
                            cws = cws.push(x);
                        }
                    },
                    Ok(None) => {
                        proof {
                            assert(false);
                        }
                    },
                    Err(BindingError::MissingSource { .. }) => {
                        proof {
                            if logs {
                                s0.lemma_evaluation_step(base, prior, raws@, outs, cws, EvalOutcome::MissingSource, cws, read);
                                assert forall|e: EndpointKey<K>| #[trigger] host.stored(e) == Self::stored_after(base, prior + cws, e) by {
                                    assert(host.stored(e) == pre(e));
                                }
                                Self::lemma_wrapped_count_step(
                                    report.skipped_view(),
                                    (Self::missing_before(runs, runs.len() as int) + Self::missing_count(outs)) as int,
                                );
                                let run2 = (raws@, outs.push(EvalOutcome::MissingSource), cws);
                                assert forall|k: u32| #[trigger] self.dirty_keys().contains(k) <==> s0.marked(run2, index + 1).contains(k) by {}
                            }
                        }
                        report.record_skipped_missing_source();
                        proof {
                            outs = outs.push(EvalOutcome::MissingSource);
                        }
                    },
                    Err(error) => {
                        let ghost m = match error {
                            BindingError::SourceTypeMismatch { expected, actual, .. } => ErasedTypeMismatch { expected, actual },
                            _ => arbitrary(),
                        };
                        let ghost run2 = (raws@, outs.push(EvalOutcome::Refused(m)), cws);
                        let ghost runs2 = runs.push(run2);
                        proof {
                            if logs {
                                s0.lemma_evaluation_step(base, prior, raws@, outs, cws, EvalOutcome::Refused(m), cws, read);
                            }
                        }
                        self.remark_dirty_batch(&raws, index);
                        proof {
                            assert(raws@.subrange(index as int, raws@.len() as int)[0] == raw);
                            assert(raws@.subrange(index as int, raws@.len() as int).contains(raw));
                            if logs {
                                s0.lemma_push_pass(base, dirty0, runs, run2);
                                assert(Self::writes_before(runs2, runs2.len() as int) =~= prior + cws);
                                assert(run2.1.drop_last() =~= outs);
                                assert forall|k: u32| #[trigger] self.dirty_keys().contains(k) <==> (s0.marked(run2, index + 1).contains(k)
                                    || raws@.subrange(index as int, raws@.len() as int).contains(k)) by {
                                    if raws@.subrange(index as int, raws@.len() as int).contains(k) {
                                        let q = choose|q: int| 0 <= q < raws@.subrange(index as int, raws@.len() as int).len()
                                            && raws@.subrange(index as int, raws@.len() as int)[q] == k;
                                        assert(raws@.contains(raws@[index + q]));
                                    }
                                }
                                assert(host.writes() =~= old(host).writes() + Self::writes_before(runs2, runs2.len() as int));
                                assert forall|e: EndpointKey<K>| #[trigger] host.stored(e) == Self::stored_after(base, Self::writes_before(runs2, runs2.len() as int), e) by {
                                    assert(host.stored(e) == pre(e));
                                }
                            }
                        }
                        let failure = BindingDrainError::new(error, report);
                        proof {
                            if logs {
                                assert(s0.drain_outcome(*self, &*old(host), &*host, runs2, Err(failure)));
                            }
                        }
                        return Err(failure);
                    },
                }
                index = index + 1;
            }
            proof {
                let d1 = self.dirty_keys().to_set();
                assert forall|k: u32| #[trigger] d1.contains(k) implies !d0.contains(k) && exists|z: u32|
                    #[trigger] d0.contains(z) && g.deps(k, c).contains(z) by {
                    assert(self.dirty_keys().contains(k));
                }
                start.lemma_closure_active();
                lemma_pass_shrinks(g, c, d0, d1, start.active_ids());
                if logs {
                    let run = (raws@, outs, cws);
                    let runs2 = runs.push(run);
                    s0.lemma_push_pass(base, dirty0, runs, run);
                    assert(Self::completed(run));
                    assert(self.dirty_keys().to_set() =~= s0.pass_input(dirty0, runs2, runs2.len() as int));
                }
                s0.lemma_runs_extend(dirty0, runs, (raws@, outs, cws), runs.len() as int);
                runs = runs.push((raws@, outs, cws));
                prior = prior + cws;
            }
        }
        proof {
            if logs {
                assert(self.dirty_keys().to_set() =~= Set::<u32>::empty());
                if runs.len() == 0 && old(self).dirty_keys().len() > 0 {
                    assert(dirty0.contains(old(self).dirty_keys()[0]));
                }
                assert(s0.drain_outcome(*self, &*old(host), &*host, runs, Ok(report)));
            }
        }
        Ok(report)
    }


    /// How many of `outcomes` wrote.
    pub open spec fn written_count(outcomes: Seq<EvalOutcome>) -> nat
        decreases outcomes.len(),
    {
        if outcomes.len() == 0 {
            0
        } else {
            Self::written_count(outcomes.drop_last()) + if outcomes.last() is Written { 1nat } else { 0nat }
        }
    }

    /// How many of `outcomes` found no source value.
    pub open spec fn missing_count(outcomes: Seq<EvalOutcome>) -> nat
        decreases outcomes.len(),
    {
        if outcomes.len() == 0 {
            0
        } else {
            Self::missing_count(outcomes.drop_last()) + if outcomes.last() is MissingSource { 1nat } else { 0nat }
        }
    }

    /// How many of `writes` reported a change.
    pub open spec fn changed_count(writes: Seq<(EndpointKey<K>, V, C, BindingWrite)>) -> nat
        decreases writes.len(),
    {
        if writes.len() == 0 {
            0
        } else {
            Self::changed_count(writes.drop_last()) + if writes.last().3.changed_view() { 1nat } else { 0nat }
        }
    }

    /// The channels that `writes` reported dirtied.
    pub open spec fn written_channels(writes: Seq<(EndpointKey<K>, V, C, BindingWrite)>) -> Set<nat>
        decreases writes.len(),
    {
        if writes.len() == 0 {
            Set::empty()
        } else {
            Self::written_channels(writes.drop_last()).union(writes.last().3.channels_view()@)
        }
    }

    /// The value a store that started as `base` holds for `endpoint` after
    /// `writes`.
    pub open spec fn stored_after(base: spec_fn(EndpointKey<K>) -> Option<V>, writes: Seq<(EndpointKey<K>, V, C, BindingWrite)>, endpoint: EndpointKey<K>) -> Option<V>
        decreases writes.len(),
    {
        if writes.len() == 0 {
            base(endpoint)
        } else if writes.last().0 == endpoint {
            Some(writes.last().1)
        } else {
            Self::stored_after(base, writes.drop_last(), endpoint)
        }
    }

    /// `order` lists exactly the bindings of `input`, each after the ones it
    /// depends on, taking at each step the ready binding of smallest id.
    pub open spec fn pass_order(self, input: Set<u32>, order: Seq<u32>) -> bool {
        let g = self.graph();
        let c = self.channel_view().idx();
        &&& is_topological(g, c, input, order)
        &&& forall|i: int, k: u32| 0 <= i < order.len() && #[trigger] ready_in(g, c, input.difference(order.subrange(0, i).to_set()), k)
            ==> (#[trigger] order[i]).spec_index() <= k.spec_index()
        &&& order.to_set() == input
    }

    /// Evaluation `i` of pass `run` (its order, outcomes and writes), with
    /// `prior` written by the passes before over a store that started as
    /// `base`: the source read gives the stored value; with none the binding
    /// is skipped; otherwise its conversion either gives the value written to
    /// its target with its context, or refuses.
    pub open spec fn evaluation_ok(self, base: spec_fn(EndpointKey<K>) -> Option<V>, prior: Seq<(EndpointKey<K>, V, C, BindingWrite)>, run: (Seq<u32>, Seq<EvalOutcome>, Seq<(EndpointKey<K>, V, C, BindingWrite)>), i: int) -> bool {
        let b = run.0[i] as int;
        let k = Self::written_count(run.1.take(i)) as int;
        let read = Self::stored_after(base, prior + run.2.take(k), self.source_of(b));
        match run.1[i] {
            EvalOutcome::MissingSource => read is None,
            EvalOutcome::Written => {
                &&& read is Some
                &&& k < run.2.len()
                &&& run.2[k].0 == self.target_of(b)
                &&& run.2[k].2 == self.context_of(b)
                &&& call_ensures(self.map_of(b), (&read->0,), Ok::<V, ErasedTypeMismatch>(run.2[k].1))
            },
            EvalOutcome::Refused(mismatch) => {
                &&& read is Some
                &&& call_ensures(self.map_of(b), (&read->0,), Err::<V, ErasedTypeMismatch>(mismatch))
            },
        }
    }

    /// The bindings that evaluation `i` of `run` marks dirty: when it wrote
    /// and the write reported a change, the active readers of its target
    /// outside the pass.
    pub open spec fn marks_of(self, run: (Seq<u32>, Seq<EvalOutcome>, Seq<(EndpointKey<K>, V, C, BindingWrite)>), i: int) -> Set<u32> {
        if run.1[i] is Written && run.2[Self::written_count(run.1.take(i)) as int].3.changed_view() {
            Set::new(|k: u32| self.active(k as int) && self.source_of(k as int) == self.target_of(run.0[i] as int) && !run.0.contains(k))
        } else {
            Set::empty()
        }
    }

    /// The bindings the first `n` evaluations of `run` mark dirty.
    pub open spec fn marked(self, run: (Seq<u32>, Seq<EvalOutcome>, Seq<(EndpointKey<K>, V, C, BindingWrite)>), n: int) -> Set<u32>
        decreases n,
    {
        if n <= 0 {
            Set::empty()
        } else {
            self.marked(run, n - 1).union(self.marks_of(run, n - 1))
        }
    }

    /// Pass `run` evaluated its first outcomes in order, over `input`.
    pub open spec fn pass_ok(self, base: spec_fn(EndpointKey<K>) -> Option<V>, prior: Seq<(EndpointKey<K>, V, C, BindingWrite)>, input: Set<u32>, run: (Seq<u32>, Seq<EvalOutcome>, Seq<(EndpointKey<K>, V, C, BindingWrite)>)) -> bool {
        &&& self.pass_order(input, run.0)
        &&& run.1.len() <= run.0.len()
        &&& Self::written_count(run.1) == run.2.len()
        &&& forall|i: int| 0 <= i < run.1.len() ==> #[trigger] self.evaluation_ok(base, prior, run, i)
    }

    /// Pass `run` evaluated every binding of its order, and no conversion
    /// refused.
    pub open spec fn completed(run: (Seq<u32>, Seq<EvalOutcome>, Seq<(EndpointKey<K>, V, C, BindingWrite)>)) -> bool {
        &&& run.1.len() == run.0.len()
        &&& forall|i: int| 0 <= i < run.1.len() ==> !(#[trigger] run.1[i] is Refused)
    }

    /// The writes of the first `p` passes.
    pub open spec fn writes_before(runs: Seq<(Seq<u32>, Seq<EvalOutcome>, Seq<(EndpointKey<K>, V, C, BindingWrite)>)>, p: int) -> Seq<(EndpointKey<K>, V, C, BindingWrite)>
        decreases p,
    {
        if p <= 0 || runs.len() < p {
            Seq::empty()
        } else {
            Self::writes_before(runs, p - 1) + runs[p - 1].2
        }
    }

    /// The skipped evaluations of the first `p` passes.
    pub open spec fn missing_before(runs: Seq<(Seq<u32>, Seq<EvalOutcome>, Seq<(EndpointKey<K>, V, C, BindingWrite)>)>, p: int) -> nat
        decreases p,
    {
        if p <= 0 || runs.len() < p {
            0
        } else {
            Self::missing_before(runs, p - 1) + Self::missing_count(runs[p - 1].1)
        }
    }

    /// The bindings pass `p` of `runs` goes over: those dirty at the start
    /// for the first pass, then those the pass before marked.
    pub open spec fn pass_input(self, dirty: Set<u32>, runs: Seq<(Seq<u32>, Seq<EvalOutcome>, Seq<(EndpointKey<K>, V, C, BindingWrite)>)>, p: int) -> Set<u32> {
        if p <= 0 {
            dirty
        } else {
            self.marked(runs[p - 1], runs[p - 1].1.len() as int)
        }
    }

    /// `runs` is the course of a drain that started with `dirty` over a store
    /// that started as `base`: each pass goes over what the pass before
    /// marked, in dependency order, and every pass but the last completed.
    pub open spec fn drain_runs(self, base: spec_fn(EndpointKey<K>) -> Option<V>, dirty: Set<u32>, runs: Seq<(Seq<u32>, Seq<EvalOutcome>, Seq<(EndpointKey<K>, V, C, BindingWrite)>)>) -> bool {
        &&& forall|p: int| 0 <= p < runs.len() ==> #[trigger] self.pass_ok(
            base,
            Self::writes_before(runs, p),
            self.pass_input(dirty, runs, p),
            runs[p],
        )
        &&& forall|p: int| 0 <= p < runs.len() - 1 ==> Self::completed(#[trigger] runs[p])
    }

    /// The store a host's reads give.
    pub open spec fn store_of<H: BindingHost<K, C, V> + ?Sized>(host: &H) -> spec_fn(EndpointKey<K>) -> Option<V> {
        |e: EndpointKey<K>| host.stored(e)
    }

    /// The report counts what the passes of `runs` did: one evaluation per
    /// write, the skipped evaluations, the writes that reported a change, and
    /// the channels those writes dirtied; the counters wrap.
    pub open spec fn report_counts(report: BindingReport, runs: Seq<(Seq<u32>, Seq<EvalOutcome>, Seq<(EndpointKey<K>, V, C, BindingWrite)>)>) -> bool {
        let writes = Self::writes_before(runs, runs.len() as int);
        &&& report.evaluated_view() as int == Self::wrapped_count(writes.len() as int)
        &&& report.skipped_view() as int == Self::wrapped_count(Self::missing_before(runs, runs.len() as int) as int)
        &&& report.changed_view() as int == Self::wrapped_count(Self::changed_count(writes) as int)
        &&& report.channels_view()@ == Self::written_channels(writes)
    }

    /// Fewer outcomes hold no more writes; a write at `i` lies before the end.
    proof fn lemma_written_take(outs: Seq<EvalOutcome>, i: int)
        requires
            0 <= i <= outs.len(),
        ensures
            Self::written_count(outs.take(i)) <= Self::written_count(outs),
            i < outs.len() && outs[i] is Written ==> Self::written_count(outs.take(i)) < Self::written_count(outs),
        decreases outs.len(),
    {
        if i < outs.len() {
            let t = outs.drop_last();
            if i < t.len() {
                Self::lemma_written_take(t, i);
                assert(t.take(i) =~= outs.take(i));
            } else {
                assert(t =~= outs.take(i));
            }
        } else {
            assert(outs.take(i) =~= outs);
        }
    }

    /// Marks of the first `n` evaluations do not change when the pass goes
    /// on.
    proof fn lemma_marked_extend(self, order: Seq<u32>, outs: Seq<EvalOutcome>, cws: Seq<(EndpointKey<K>, V, C, BindingWrite)>, o: EvalOutcome, cws2: Seq<(EndpointKey<K>, V, C, BindingWrite)>, n: int)
        requires
            0 <= n <= outs.len(),
            Self::written_count(outs) == cws.len(),
            cws.len() <= cws2.len(),
            forall|j: int| 0 <= j < cws.len() ==> cws2[j] == cws[j],
        ensures
            self.marked((order, outs.push(o), cws2), n) == self.marked((order, outs, cws), n),
        decreases n,
    {
        if n > 0 {
            self.lemma_marked_extend(order, outs, cws, o, cws2, n - 1);
            let i = n - 1;
            assert(outs.push(o).take(i) =~= outs.take(i));
            Self::lemma_written_take(outs, i);
            assert(outs.push(o)[i] == outs[i]);
            let k = Self::written_count(outs.take(i)) as int;
            if outs[i] is Written {
                assert(cws2[k] == cws[k]);
            }
            assert(self.marks_of((order, outs.push(o), cws2), i) == self.marks_of((order, outs, cws), i));
        }
    }

    /// One more evaluation, with outcome `o` on source value `read`, keeps
    /// the pass's evaluations in order; the marks so far stay and the new
    /// evaluation's marks are added.
    proof fn lemma_evaluation_step(
        self,
        base: spec_fn(EndpointKey<K>) -> Option<V>,
        prior: Seq<(EndpointKey<K>, V, C, BindingWrite)>,
        order: Seq<u32>,
        outs: Seq<EvalOutcome>,
        cws: Seq<(EndpointKey<K>, V, C, BindingWrite)>,
        o: EvalOutcome,
        cws2: Seq<(EndpointKey<K>, V, C, BindingWrite)>,
        read: Option<V>,
    )
        requires
            outs.len() < order.len(),
            Self::written_count(outs) == cws.len(),
            forall|i: int| 0 <= i < outs.len() ==> #[trigger] self.evaluation_ok(base, prior, (order, outs, cws), i),
            read == Self::stored_after(base, prior + cws, self.source_of(order[outs.len() as int] as int)),
            o is Written ==> {
                &&& cws2.len() == cws.len() + 1
                &&& cws2.drop_last() == cws
                &&& read is Some
                &&& cws2.last().0 == self.target_of(order[outs.len() as int] as int)
                &&& cws2.last().2 == self.context_of(order[outs.len() as int] as int)
                &&& call_ensures(self.map_of(order[outs.len() as int] as int), (&read->0,), Ok::<V, ErasedTypeMismatch>(cws2.last().1))
            },
            o is MissingSource ==> cws2 == cws && read is None,
            o matches EvalOutcome::Refused(m) ==> cws2 == cws && read is Some
                && call_ensures(self.map_of(order[outs.len() as int] as int), (&read->0,), Err::<V, ErasedTypeMismatch>(m)),
        ensures
            Self::written_count(outs.push(o)) == cws2.len(),
            forall|i: int| 0 <= i < outs.len() + 1 ==> #[trigger] self.evaluation_ok(base, prior, (order, outs.push(o), cws2), i),
            self.marked((order, outs.push(o), cws2), outs.len() + 1int) == self.marked((order, outs, cws), outs.len() as int).union(
                self.marks_of((order, outs.push(o), cws2), outs.len() as int),
            ),
            Self::missing_count(outs.push(o)) == Self::missing_count(outs) + if o is MissingSource { 1nat } else { 0nat },
    {
        let outs2 = outs.push(o);
        assert(outs2.drop_last() =~= outs);
        assert(outs2.take(outs.len() as int) =~= outs);
        assert forall|j: int| 0 <= j < cws.len() implies cws2[j] == cws[j] by {
            if o is Written {
                assert(cws2.drop_last()[j] == cws2[j]);
            }
        }
        assert(cws2.take(cws.len() as int) =~= cws);
        assert forall|i: int| 0 <= i < outs.len() + 1 implies #[trigger] self.evaluation_ok(base, prior, (order, outs2, cws2), i) by {
            if i < outs.len() {
                assert(self.evaluation_ok(base, prior, (order, outs, cws), i));
                assert(outs2.take(i) =~= outs.take(i));
                Self::lemma_written_take(outs, i);
                let k = Self::written_count(outs.take(i)) as int;
                assert(cws2.take(k) =~= cws.take(k));
                assert(outs2[i] == outs[i]);
                if outs[i] is Written {
                    assert(cws2[k] == cws[k]);
                }
            }
        }
        self.lemma_marked_extend(order, outs, cws, o, cws2, outs.len() as int);
    }

    /// Passes added after the first `p` leave what those passes wrote,
    /// skipped and marked.
    proof fn lemma_runs_extend(self, dirty: Set<u32>, runs: Seq<(Seq<u32>, Seq<EvalOutcome>, Seq<(EndpointKey<K>, V, C, BindingWrite)>)>, x: (Seq<u32>, Seq<EvalOutcome>, Seq<(EndpointKey<K>, V, C, BindingWrite)>), p: int)
        requires
            0 <= p <= runs.len(),
        ensures
            Self::writes_before(runs.push(x), p) == Self::writes_before(runs, p),
            Self::missing_before(runs.push(x), p) == Self::missing_before(runs, p),
            self.pass_input(dirty, runs.push(x), p) == self.pass_input(dirty, runs, p),
        decreases p,
    {
        if p > 0 {
            self.lemma_runs_extend(dirty, runs, x, p - 1);
            assert(runs.push(x)[p - 1] == runs[p - 1]);
        }
    }

    /// How a drain that failed left things: its last pass stopped at a
    /// conversion that refused, reported as the error; that binding and the
    /// rest of its pass are dirty again beside what the pass marked.
    pub open spec fn failed_as(self, after: Self, runs: Seq<(Seq<u32>, Seq<EvalOutcome>, Seq<(EndpointKey<K>, V, C, BindingWrite)>)>, e: BindingDrainError<K>) -> bool {
        let last = runs.last();
        let n = last.1.len() as int;
        let b = last.0[n - 1];
        &&& runs.len() > 0
        &&& n > 0
        &&& match last.1[n - 1] {
            EvalOutcome::Refused(m) => match e.error_view() {
                BindingError::SourceTypeMismatch { binding, endpoint, expected, actual } => {
                    &&& binding.raw() == b
                    &&& endpoint == self.source_of(b as int)
                    &&& m == (ErasedTypeMismatch { expected, actual })
                },
                _ => false,
            },
            _ => false,
        }
        &&& forall|i: int| 0 <= i < n - 1 ==> !(#[trigger] last.1[i] is Refused)
        &&& forall|k: u32| #[trigger] after.dirty_keys().contains(k) <==> (self.marked(last, n).contains(k)
            || last.0.subrange(n - 1, last.0.len() as int).contains(k))
        &&& Self::report_counts(e.report_view(), runs)
    }

    /// A drain from this binding set to `after`, over a store-like host that
    /// went from `host0` to `host1`, ran as `runs` says and returned `r`: the
    /// host received exactly the writes of the passes and holds what they
    /// wrote; on success the last pass marked nothing.
    pub open spec fn drain_outcome<H: BindingHost<K, C, V> + ?Sized>(
        self,
        after: Self,
        host0: &H,
        host1: &H,
        runs: Seq<(Seq<u32>, Seq<EvalOutcome>, Seq<(EndpointKey<K>, V, C, BindingWrite)>)>,
        r: Result<BindingReport, BindingDrainError<K>>,
    ) -> bool {
        let base = Self::store_of(host0);
        let writes = Self::writes_before(runs, runs.len() as int);
        &&& self.drain_runs(base, self.dirty_keys().to_set(), runs)
        &&& host1.writes() == host0.writes() + writes
        &&& forall|e: EndpointKey<K>| #[trigger] host1.stored(e) == Self::stored_after(base, writes, e)
        &&& match r {
            Ok(report) => {
                &&& runs.len() == 0 ==> self.dirty_keys().len() == 0
                &&& runs.len() > 0 ==> Self::completed(runs.last()) && self.marked(runs.last(), runs.last().1.len() as int)
                    == Set::<u32>::empty()
                &&& Self::report_counts(report, runs)
            },
            Err(e) => self.failed_as(after, runs, e),
        }
    }

    /// Appending a pass run over what the passes so far left keeps the
    /// course of the drain.
    proof fn lemma_push_pass(self, base: spec_fn(EndpointKey<K>) -> Option<V>, dirty: Set<u32>, runs: Seq<(Seq<u32>, Seq<EvalOutcome>, Seq<(EndpointKey<K>, V, C, BindingWrite)>)>, run: (Seq<u32>, Seq<EvalOutcome>, Seq<(EndpointKey<K>, V, C, BindingWrite)>))
        requires
            self.drain_runs(base, dirty, runs),
            forall|p: int| 0 <= p < runs.len() ==> Self::completed(#[trigger] runs[p]),
            self.pass_ok(base, Self::writes_before(runs, runs.len() as int), self.pass_input(dirty, runs, runs.len() as int), run),
        ensures
            self.drain_runs(base, dirty, runs.push(run)),
            forall|p: int| 0 <= p < runs.len() ==> Self::completed(#[trigger] runs.push(run)[p]),
            Self::writes_before(runs.push(run), runs.len() + 1int) == Self::writes_before(runs, runs.len() as int) + run.2,
            Self::missing_before(runs.push(run), runs.len() + 1int) == Self::missing_before(runs, runs.len() as int) + Self::missing_count(run.1),
            self.pass_input(dirty, runs.push(run), runs.len() + 1int) == self.marked(run, run.1.len() as int),
    {
        let t = runs.push(run);
        self.lemma_runs_extend(dirty, runs, run, runs.len() as int);
        assert(t[runs.len() as int] == run);
        assert forall|p: int| 0 <= p < t.len() implies #[trigger] self.pass_ok(
            base,
            Self::writes_before(t, p),
            self.pass_input(dirty, t, p),
            t[p],
        ) by {
            self.lemma_runs_extend(dirty, runs, run, p);
            if p < runs.len() {
                assert(t[p] == runs[p]);
                assert(self.pass_ok(base, Self::writes_before(runs, p), self.pass_input(dirty, runs, p), runs[p]));
            }
        }
        assert forall|p: int| 0 <= p < runs.len() implies Self::completed(#[trigger] t[p]) by {
            assert(t[p] == runs[p]);
        }
    }

    /// `n` items counted on a counter that wraps past `usize::MAX`.
    pub open spec fn wrapped_count(n: int) -> int {
        n % (usize::MAX as int + 1)
    }

    /// Counting one more item on a wrapping counter.
    proof fn lemma_wrapped_count_step(count: usize, n: int)
        requires
            n >= 0,
            count as int == Self::wrapped_count(n),
        ensures
            count.wrapping_add(1) as int == Self::wrapped_count(n + 1),
    {
        let m = usize::MAX as int + 1;
        vstd::arithmetic::div_mod::lemma_add_mod_noop(n, 1, m);
        vstd::arithmetic::div_mod::lemma_small_mod(1, m as nat);
        if count as int + 1 < m {
            vstd::arithmetic::div_mod::lemma_small_mod((count as int + 1) as nat, m as nat);
        } else {
            vstd::arithmetic::div_mod::lemma_mod_self_0(m);
        }
    }

    /// The endpoint binding `i` reads (when `sources`) or writes.
    pub open spec fn end_of(self, i: int, sources: bool) -> EndpointKey<K> {
        if sources {
            self.source_of(i)
        } else {
            self.target_of(i)
        }
    }

    /// The distinct endpoints read (when `sources`) or written by active
    /// bindings with ids below `n`.
    pub open spec fn endpoints_below(self, n: int, sources: bool) -> Set<EndpointKey<K>> {
        Set::new(|e: EndpointKey<K>| exists|i: int| 0 <= i < n && #[trigger] self.active(i) && self.end_of(i, sources) == e)
    }

    /// The distinct endpoints that active bindings read (when `sources`) or
    /// write.
    pub open spec fn endpoints(self, sources: bool) -> Set<EndpointKey<K>> {
        self.endpoints_below(self.slot_count() as int, sources)
    }

    /// The active bindings whose source some active binding writes: each
    /// has exactly one dependency.
    pub open spec fn dependent_bindings(self) -> Set<u32> {
        self.active_ids().filter(|b: u32| self.target_taken(self.source_of(b as int)))
    }

    /// Counts the distinct endpoints read (when `sources`) or written by
    /// active bindings.
    fn count_endpoints(&self, sources: bool) -> (r: usize)
        requires
            self.wf(),
        ensures
            self.endpoints(sources).finite(),
            r == self.endpoints(sources).len(),
    {
        let mut count: usize = 0;
        let mut i: usize = 0;
        proof {
            assert(self.endpoints_below(0, sources) =~= Set::empty());
        }
        while i < self.bindings.len()
            invariant
                self.wf(),
                i <= self.bindings.len(),
                self.endpoints_below(i as int, sources).finite(),
                count == self.endpoints_below(i as int, sources).len(),
                count <= i,
            decreases self.bindings.len() - i,
        {
            let ghost seen = self.endpoints_below(i as int, sources);
            match &self.bindings[i] {
                None => {
                    proof {
                        assert(self.endpoints_below(i as int + 1, sources) =~= seen);
                    }
                },
                Some(b) => {
                    let e = if sources {
                        b.source
                    } else {
                        b.target
                    };
                    let mut fresh = true;
                    let mut j: usize = 0;
                    while j < i
                        invariant
                            self.wf(),
                            j <= i,
                            i < self.bindings.len(),
                            e == self.end_of(i as int, sources),
                            fresh == forall|q: int| 0 <= q < j && #[trigger] self.active(q) ==> self.end_of(q, sources) != e,
                        decreases i - j,
                    {
                        let same = match &self.bindings[j] {
                            None => false,
                            Some(other) => if sources {
                                other.source.key_eq(&e)
                            } else {
                                other.target.key_eq(&e)
                            },
                        };
                        proof {
                            if same {
                                assert(self.active(j as int) && self.end_of(j as int, sources) == e);
                            } else {
                                assert(!(self.active(j as int) && self.end_of(j as int, sources) == e));
                            }
                        }
                        if same {
                            fresh = false;
                        }
                        j = j + 1;
                    }
                    proof {
                        let next = self.endpoints_below(i as int + 1, sources);
                        assert(self.active(i as int));
                        assert forall|x: EndpointKey<K>| #[trigger] next.contains(x) <==> (seen.contains(x) || x == e) by {
                            if next.contains(x) {
                                let q = choose|q: int| 0 <= q < i + 1 && #[trigger] self.active(q) && self.end_of(q, sources) == x;
                                if q < i {
                                    assert(seen.contains(x));
                                }
                            }
                            if x == e {
                                assert(self.active(i as int) && self.end_of(i as int, sources) == x);
                            }
                            if seen.contains(x) {
                                let q = choose|q: int| 0 <= q < i && #[trigger] self.active(q) && self.end_of(q, sources) == x;
                                assert(0 <= q < i + 1 && self.active(q) && self.end_of(q, sources) == x);
                            }
                        }
                        if fresh {
                            assert(next =~= seen.insert(e));
                            assert(!seen.contains(e));
                        } else {
                            let q = choose|q: int| 0 <= q < i && #[trigger] self.active(q) && self.end_of(q, sources) == e;
                            assert(seen.contains(e));
                            assert(next =~= seen);
                        }
                    }
                    if fresh {
                        count = count + 1;
                    }
                },
            }
            i = i + 1;
        }
        count
    }

    /// Counts the active bindings whose source some active binding writes.
    fn dependency_edge_count(&self) -> (r: usize)
        requires
            self.wf(),
        ensures
            self.dependent_bindings().finite(),
            r == self.dependent_bindings().len(),
    {
        let mut count: usize = 0;
        let mut i: usize = 0;
        let ghost pred = |b: u32| self.target_taken(self.source_of(b as int));
        proof {
            assert(self.active_ids().filter(pred).filter(|b: u32| (b as int) < 0) =~= Set::empty());
        }
        while i < self.bindings.len()
            invariant
                self.wf(),
                i <= self.bindings.len(),
                pred == (|b: u32| self.target_taken(self.source_of(b as int))),
                self.active_ids().filter(pred).filter(|b: u32| (b as int) < i).finite(),
                count == self.active_ids().filter(pred).filter(|b: u32| (b as int) < i).len(),
                count <= i,
            decreases self.bindings.len() - i,
        {
            proof {
                self.lemma_ids_fit(i as int);
            }
            let ghost seen = self.active_ids().filter(pred).filter(|b: u32| (b as int) < i);
            let hit = match &self.bindings[i] {
                None => false,
                Some(b) => self.active_target_binding(b.source).is_some(),
            };
            proof {
                let next = self.active_ids().filter(pred).filter(|b: u32| (b as int) < i + 1);
                if hit {
                    assert(self.target_taken(self.source_of(i as int)));
                    assert(next =~= seen.insert(i as u32));
                    assert(!seen.contains(i as u32));
                } else {
                    assert(next =~= seen);
                }
            }
            if hit {
                count = count + 1;
            }
            i = i + 1;
        }
        proof {
            assert(self.active_ids().filter(pred).filter(|b: u32| (b as int) < i) =~= self.dependent_bindings());
        }
        count
    }

    /// A snapshot of the set's structure: active bindings, slots, distinct
    /// source and target endpoints, dependency edges, and dirty bindings.
    pub fn stats(&self) -> (r: BindingStats)
        requires
            self.wf(),
        ensures
            r.counts() == (
                self.active_ids().len() as usize,
                self.slot_count() as usize,
                self.endpoints(true).len() as usize,
                self.endpoints(false).len() as usize,
                self.dependent_bindings().len() as usize,
                self.dirty_keys().len() as usize,
                self.dirty_keys().len() > 0,
            ),
    {
        let sources = self.count_endpoints(true);
        let targets = self.count_endpoints(false);
        let edges = self.dependency_edge_count();
        let dirty = self.tracker.dirty().len(self.binding_channel);
        BindingStats::new(
            self.active_bindings,
            self.bindings.len(),
            sources,
            targets,
            edges,
            dirty,
            self.has_dirty_bindings(),
        )
    }

    /// At most one active binding writes any endpoint.
    pub proof fn lemma_single_writer(self, i: int, j: int)
        requires
            self.wf(),
            self.active(i),
            self.active(j),
            self.target_of(i) == self.target_of(j),
        ensures
            i == j,
    {
    }

    /// The dependency graph holds exactly one edge per pair of active
    /// bindings where the first reads what the second writes, and it has no
    /// cycle.
    pub proof fn lemma_graph_matches_bindings(self, a: u32, b: u32)
        requires
            self.wf(),
        ensures
            self.graph().deps(a, self.channel_view().idx()).contains(b) <==> self.reads(a as int, b as int),
            self.graph().acyclic(self.channel_view().idx()),
    {
    }

    /// No active binding reads the endpoint it writes.
    pub proof fn lemma_no_self_binding(self, i: int)
        requires
            self.wf(),
            self.active(i),
        ensures
            self.source_of(i) != self.target_of(i),
    {
    }

    /// Only active bindings are ever dirty.
    pub proof fn lemma_dirty_are_active(self, k: u32)
        requires
            self.wf(),
            self.dirty_keys().contains(k),
        ensures
            self.active(k as int),
    {
    }

    /// Binding `i` has the same endpoints, context and conversion in both.
    pub open spec fn same_binding_at(self, other: Self, i: int) -> bool {
        &&& self.source_of(i) == other.source_of(i)
        &&& self.target_of(i) == other.target_of(i)
        &&& self.context_of(i) == other.context_of(i)
        &&& self.map_of(i) == other.map_of(i)
    }

    /// The two sets hold the same bindings and the same graph.
    pub open spec fn same_bindings(self, other: Self) -> bool {
        &&& self.slot_count() == other.slot_count()
        &&& forall|i: int| #[trigger] self.active(i) == other.active(i)
        &&& forall|i: int| #[trigger] self.active(i) ==> self.same_binding_at(other, i)
        &&& self.channel_view() == other.channel_view()
        &&& self.graph() == other.graph()
    }
}

} // verus!
