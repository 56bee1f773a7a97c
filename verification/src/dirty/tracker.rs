use vstd::prelude::*;

use super::channel::Channel;
use super::drain::{affected_keys, DrainSorted, DrainSortedDeterministic};
use super::drain_builder::{drain_keys, newly_reported, traced_expansion, AnyOrder, DrainBuilder, DrainMode, NoTrace, Within};
use super::graph::{CycleError, CycleHandling, DirtyGraph};
use super::key::DenseKey;
use super::policy::PropagationPolicy;
use super::scratch::TraversalScratch;
use super::set::DirtySet;
use super::trace::DirtyTrace;

verus! {

/// A dependency graph and a dirty set bundled together, with a configured
/// cycle-handling mode for new dependencies.
#[derive(Debug, Clone)]
pub struct DirtyTracker<K> {
    graph: DirtyGraph<K>,
    dirty: DirtySet<K>,
    cycle_handling: CycleHandling,
}

impl<K: DenseKey> DirtyTracker<K> {
    /// The dependency graph.
    pub closed spec fn graph_view(self) -> DirtyGraph<K> {
        self.graph
    }

    /// The dirty set.
    pub closed spec fn dirty_view(self) -> DirtySet<K> {
        self.dirty
    }

    /// The cycle handling used by [`add_dependency`](Self::add_dependency).
    pub closed spec fn handling(self) -> CycleHandling {
        self.cycle_handling
    }

    /// Both parts are well formed.
    pub open spec fn wf(self) -> bool {
        self.graph_view().wf() && self.dirty_view().wf()
    }

    /// Creates a configurable drain builder over `channel`.
    pub fn drain(&mut self, channel: Channel) -> (b: DrainBuilder<'_, '_, '_, K, AnyOrder, NoTrace>)
        ensures
            *b.dirty == old(self).dirty_view(),
            *final(b.dirty) == final(self).dirty_view(),
            *b.graph == old(self).graph_view(),
            final(self).graph_view() == old(self).graph_view(),
            final(self).handling() == old(self).handling(),
            b.channel == channel,
            b.mode == DrainMode::DirtyOnly,
            b.within is All,
    {
        DrainBuilder::new(&mut self.dirty, &self.graph, channel)
    }

    /// Creates an empty tracker with the default cycle handling.
    pub fn new() -> (t: Self)
        ensures
            t.wf(),
            t.handling() == CycleHandling::DebugAssert,
            forall|k: K, c: nat| #[trigger] t.graph_view().deps(k, c) == Seq::<K>::empty(),
            forall|k: K, c: nat| #[trigger] t.graph_view().rdeps(k, c) == Seq::<K>::empty(),
            forall|c: nat| #[trigger] t.dirty_view().keys(c) == Seq::<K>::empty(),
            t.dirty_view().gen() == 0,
    {
        Self::with_cycle_handling(CycleHandling::DebugAssert)
    }

    /// Creates an empty tracker that adds dependencies with `cycle_handling`.
    pub fn with_cycle_handling(cycle_handling: CycleHandling) -> (t: Self)
        ensures
            t.wf(),
            t.handling() == cycle_handling,
            forall|k: K, c: nat| #[trigger] t.graph_view().deps(k, c) == Seq::<K>::empty(),
            forall|k: K, c: nat| #[trigger] t.graph_view().rdeps(k, c) == Seq::<K>::empty(),
            forall|c: nat| #[trigger] t.dirty_view().keys(c) == Seq::<K>::empty(),
            t.dirty_view().gen() == 0,
    {
        DirtyTracker { graph: DirtyGraph::new(), dirty: DirtySet::new(), cycle_handling }
    }

    /// The dependency graph.
    pub fn graph(&self) -> (r: &DirtyGraph<K>)
        ensures
            *r == self.graph_view(),
    {
        &self.graph
    }

    /// The dependency graph, for direct edits.
    pub fn graph_mut(&mut self) -> (r: &mut DirtyGraph<K>)
        ensures
            *r == old(self).graph_view(),
            final(self).graph_view() == *final(r),
            final(self).dirty_view() == old(self).dirty_view(),
            final(self).handling() == old(self).handling(),
    {
        &mut self.graph
    }

    /// The dirty set.
    pub fn dirty(&self) -> (r: &DirtySet<K>)
        ensures
            *r == self.dirty_view(),
    {
        &self.dirty
    }

    /// The dirty set, for direct edits.
    pub fn dirty_mut(&mut self) -> (r: &mut DirtySet<K>)
        ensures
            *r == old(self).dirty_view(),
            final(self).dirty_view() == *final(r),
            final(self).graph_view() == old(self).graph_view(),
            final(self).handling() == old(self).handling(),
    {
        &mut self.dirty
    }

    /// The dirty set's generation counter.
    pub fn generation(&self) -> (r: u64)
        ensures
            r == self.dirty_view().gen(),
    {
        self.dirty.generation()
    }

    /// The cycle handling used by [`add_dependency`](Self::add_dependency).
    pub fn cycle_handling(&self) -> (r: CycleHandling)
        ensures
            r == self.handling(),
    {
        self.cycle_handling
    }

    /// Changes the cycle handling used by [`add_dependency`](Self::add_dependency).
    pub fn set_cycle_handling(&mut self, handling: CycleHandling)
        ensures
            final(self).handling() == handling,
            final(self).graph_view() == old(self).graph_view(),
            final(self).dirty_view() == old(self).dirty_view(),
    {
        self.cycle_handling = handling;
    }

    /// Adds the dependency `from -> to` with the configured cycle handling.
    pub fn add_dependency(&mut self, from: K, to: K, channel: Channel) -> (r: Result<bool, CycleError<K>>)
        requires
            old(self).wf(),
            from.spec_index() < usize::MAX,
            to.spec_index() < usize::MAX,
        ensures
            final(self).wf(),
            old(self).graph_view().add_outcome(final(self).graph_view(), from, to, channel, old(self).handling(), r),
            final(self).dirty_view() == old(self).dirty_view(),
            final(self).handling() == old(self).handling(),
    {
        self.graph.add_dependency(from, to, channel, self.cycle_handling)
    }

    /// Adds the dependency `from -> to` with the given cycle handling.
    pub fn add_dependency_with(&mut self, from: K, to: K, channel: Channel, handling: CycleHandling) -> (r: Result<bool, CycleError<K>>)
        requires
            old(self).wf(),
            from.spec_index() < usize::MAX,
            to.spec_index() < usize::MAX,
        ensures
            final(self).wf(),
            old(self).graph_view().add_outcome(final(self).graph_view(), from, to, channel, handling, r),
            final(self).dirty_view() == old(self).dirty_view(),
            final(self).handling() == old(self).handling(),
    {
        self.graph.add_dependency(from, to, channel, handling)
    }

    /// Removes the dependency `from -> to`; returns whether it existed.
    pub fn remove_dependency(&mut self, from: K, to: K, channel: Channel) -> (r: bool)
        requires
            old(self).wf(),
        ensures
            final(self).wf(),
            old(self).graph_view().remove_outcome(final(self).graph_view(), from, to, channel, r),
            final(self).dirty_view() == old(self).dirty_view(),
            final(self).handling() == old(self).handling(),
    {
        self.graph.remove_dependency(from, to, channel)
    }

    /// Removes `key` from the graph (all of its edges) and from the dirty set
    /// (every channel).
    pub fn remove_key(&mut self, key: K)
        requires
            old(self).wf(),
        ensures
            final(self).wf(),
            old(self).graph_view().remove_key_outcome(final(self).graph_view(), key),
            forall|c: nat| #[trigger] final(self).dirty_view().keys(c)
                == super::set::seq_remove_key(old(self).dirty_view().keys(c), key),
            final(self).dirty_view().gen() == old(self).dirty_view().gen(),
            final(self).handling() == old(self).handling(),
    {
        self.graph.remove_key(key);
        self.dirty.remove_key(key);
    }

    /// Replaces the dependencies of `from` in `channel` by the keys of `to`,
    /// adding new ones with the configured cycle handling.
    pub fn replace_dependencies(&mut self, from: K, channel: Channel, to: &[K]) -> (r: Result<bool, CycleError<K>>)
        requires
            old(self).wf(),
            from.spec_index() < usize::MAX,
            forall|i: int| 0 <= i < to@.len() ==> (#[trigger] to@[i]).spec_index() < usize::MAX,
        ensures
            final(self).wf(),
            old(self).graph_view().replace_outcome(final(self).graph_view(), from, channel, to@, old(self).handling(), r),
            final(self).dirty_view() == old(self).dirty_view(),
            final(self).handling() == old(self).handling(),
    {
        self.graph.replace_dependencies(from, channel, to, self.cycle_handling)
    }

    /// Replaces the dependencies of `from` in `channel` by the keys of `to`,
    /// adding new ones with `handling`.
    pub fn replace_dependencies_with(&mut self, from: K, channel: Channel, to: &[K], handling: CycleHandling) -> (r: Result<bool, CycleError<K>>)
        requires
            old(self).wf(),
            from.spec_index() < usize::MAX,
            forall|i: int| 0 <= i < to@.len() ==> (#[trigger] to@[i]).spec_index() < usize::MAX,
        ensures
            final(self).wf(),
            old(self).graph_view().replace_outcome(final(self).graph_view(), from, channel, to@, handling, r),
            final(self).dirty_view() == old(self).dirty_view(),
            final(self).handling() == old(self).handling(),
    {
        self.graph.replace_dependencies(from, channel, to, handling)
    }

    /// Marks `key` dirty in `channel` without propagation; returns whether it
    /// was newly marked.
    pub fn mark(&mut self, key: K, channel: Channel) -> (r: bool)
        requires
            old(self).wf(),
        ensures
            final(self).wf(),
            r == !old(self).dirty_view().keys(channel.idx()).contains(key),
            r ==> final(self).dirty_view().keys(channel.idx()) == old(self).dirty_view().keys(channel.idx()).push(key),
            r ==> final(self).dirty_view().gen() == old(self).dirty_view().gen().wrapping_add(1),
            !r ==> final(self).dirty_view().keys(channel.idx()) == old(self).dirty_view().keys(channel.idx()),
            !r ==> final(self).dirty_view().gen() == old(self).dirty_view().gen(),
            forall|c: nat| c != channel.idx() ==> #[trigger] final(self).dirty_view().keys(c) == old(self).dirty_view().keys(c),
            final(self).graph_view() == old(self).graph_view(),
            final(self).handling() == old(self).handling(),
    {
        self.dirty.mark(key, channel)
    }

    /// Marks `key` in `channel` and lets `policy` decide what else to mark;
    /// marks are only added.
    pub fn mark_with<P: PropagationPolicy<K>>(&mut self, key: K, channel: Channel, policy: &P)
        requires
            old(self).wf(),
        ensures
            final(self).wf(),
            final(self).dirty_view().keys(channel.idx()).contains(key),
            forall|c: nat, k: K| #[trigger] old(self).dirty_view().keys(c).contains(k) ==> final(self).dirty_view().keys(
                c,
            ).contains(k),
            policy.obeys_propagated_spec() ==> policy.propagated(
                key,
                channel,
                old(self).graph_view(),
                old(self).dirty_view(),
                final(self).dirty_view(),
            ),
            final(self).graph_view() == old(self).graph_view(),
            final(self).handling() == old(self).handling(),
    {
        policy.propagate(key, channel, &self.graph, &mut self.dirty);
    }

    /// Returns `true` if `key` is dirty in `channel`.
    pub fn is_dirty(&self, key: K, channel: Channel) -> (r: bool)
        requires
            self.wf(),
        ensures
            r == self.dirty_view().keys(channel.idx()).contains(key),
    {
        self.dirty.is_dirty(key, channel)
    }

    /// Returns `true` if any key is dirty in `channel`.
    pub fn has_dirty(&self, channel: Channel) -> (r: bool)
        requires
            self.wf(),
        ensures
            r == (self.dirty_view().keys(channel.idx()).len() > 0),
    {
        self.dirty.has_dirty(channel)
    }

    /// Returns `true` if nothing is dirty in any channel.
    pub fn is_clean(&self) -> (r: bool)
        requires
            self.wf(),
        ensures
            r == (forall|c: nat| #[trigger] self.dirty_view().keys(c).len() == 0),
    {
        self.dirty.is_empty()
    }

    /// Clears `channel` and returns a topologically sorted drain of the keys
    /// that were dirty there.
    pub fn drain_sorted(&mut self, channel: Channel) -> (d: DrainSorted<'_, K>)
        requires
            old(self).wf(),
        ensures
            final(self).wf(),
            final(self).dirty_view().keys(channel.idx()) == Seq::<K>::empty(),
            forall|c: nat| c != channel.idx() ==> #[trigger] final(self).dirty_view().keys(c) == old(self).dirty_view().keys(c),
            final(self).graph_view() == old(self).graph_view(),
            d.wf(),
            d.graph_view() == old(self).graph_view(),
            d.channel_view() == channel,
            !d.stalled_view(),
            d.pending_set() == old(self).dirty_view().keys(channel.idx()).to_set(),
    {
        super::drain::drain_sorted(&mut self.dirty, &self.graph, channel)
    }

    /// Clears `channel` and returns a topologically sorted drain of the keys
    /// that were dirty there and all of their transitive dependents.
    pub fn drain_affected_sorted(&mut self, channel: Channel) -> (d: DrainSorted<'_, K>)
        requires
            old(self).wf(),
        ensures
            final(self).wf(),
            final(self).dirty_view().keys(channel.idx()) == Seq::<K>::empty(),
            forall|c: nat| c != channel.idx() ==> #[trigger] final(self).dirty_view().keys(c) == old(self).dirty_view().keys(c),
            final(self).graph_view() == old(self).graph_view(),
            d.wf(),
            d.graph_view() == old(self).graph_view(),
            d.channel_view() == channel,
            !d.stalled_view(),
            d.pending_set() == affected_keys(old(self).graph_view(), channel.idx(), old(self).dirty_view().keys(channel.idx()).to_set()),
    {
        super::drain::drain_affected_sorted(&mut self.dirty, &self.graph, channel)
    }

    /// Like [`drain_affected_sorted`](Self::drain_affected_sorted), while
    /// recording one plausible cause per affected key in `trace`.
    pub fn drain_affected_sorted_with_trace<T: DirtyTrace<K>>(&mut self, channel: Channel, scratch: &mut TraversalScratch<K>, trace: &mut T) -> (d: DrainSorted<'_, K>)
        requires
            old(self).wf(),
        ensures
            final(self).wf(),
            final(self).dirty_view().keys(channel.idx()) == Seq::<K>::empty(),
            forall|c: nat| c != channel.idx() ==> #[trigger] final(self).dirty_view().keys(c) == old(self).dirty_view().keys(c),
            final(self).graph_view() == old(self).graph_view(),
            d.wf(),
            d.graph_view() == old(self).graph_view(),
            d.channel_view() == channel,
            !d.stalled_view(),
            d.pending_set() == affected_keys(old(self).graph_view(), channel.idx(), old(self).dirty_view().keys(channel.idx()).to_set()),
            old(trace).obeys_call_log_spec() ==> final(trace).obeys_call_log_spec()
                && old(trace).calls().len() <= final(trace).calls().len()
                && final(trace).calls().take(old(trace).calls().len() as int) == old(trace).calls()
                && traced_expansion(
                    final(trace).calls().skip(old(trace).calls().len() as int),
                    old(self).graph_view(),
                    channel,
                    Within::<K>::All,
                    old(self).dirty_view().keys(channel.idx()),
                )
                && newly_reported(final(trace).calls().skip(old(trace).calls().len() as int)).no_duplicates()
                && newly_reported(final(trace).calls().skip(old(trace).calls().len() as int)).to_set() == d.pending_set(),
    {
        super::drain::drain_affected_sorted_with_trace(&mut self.dirty, &self.graph, channel, scratch, trace)
    }

    /// A topologically sorted drain of the keys dirty in `channel`, leaving
    /// them dirty.
    pub fn peek_sorted(&self, channel: Channel) -> (d: DrainSorted<'_, K>)
        requires
            self.wf(),
        ensures
            d.wf(),
            d.graph_view() == self.graph_view(),
            d.channel_view() == channel,
            !d.stalled_view(),
            d.pending_set() == self.dirty_view().keys(channel.idx()).to_set(),
    {
        let cap = self.dirty.len(channel);
        DrainSorted::from_iter_with_capacity(self.dirty.iter(channel), cap, &self.graph, channel)
    }

    /// Clears `channel`.
    pub fn clear(&mut self, channel: Channel)
        requires
            old(self).wf(),
        ensures
            final(self).wf(),
            final(self).dirty_view().keys(channel.idx()) == Seq::<K>::empty(),
            forall|c: nat| c != channel.idx() ==> #[trigger] final(self).dirty_view().keys(c) == old(self).dirty_view().keys(c),
            final(self).graph_view() == old(self).graph_view(),
            final(self).handling() == old(self).handling(),
    {
        self.dirty.clear(channel);
    }

    /// Clears every channel.
    pub fn clear_all(&mut self)
        requires
            old(self).wf(),
        ensures
            final(self).wf(),
            forall|c: nat| #[trigger] final(self).dirty_view().keys(c) == Seq::<K>::empty(),
            final(self).graph_view() == old(self).graph_view(),
            final(self).handling() == old(self).handling(),
    {
        self.dirty.clear_all();
    }

    /// Like [`drain_sorted`](Self::drain_sorted), but ready keys are yielded
    /// smallest first.
    pub fn drain_sorted_deterministic(&mut self, channel: Channel) -> (d: DrainSortedDeterministic<'_, K>)
        requires
            old(self).wf(),
            forall|k: K| #[trigger] old(self).dirty_view().keys(channel.idx()).contains(k) ==> k.spec_index() < usize::MAX,
        ensures
            final(self).wf(),
            final(self).handling() == old(self).handling(),
            final(self).dirty_view().keys(channel.idx()) == Seq::<K>::empty(),
            forall|c: nat| c != channel.idx() ==> #[trigger] final(self).dirty_view().keys(c) == old(self).dirty_view().keys(c),
            final(self).graph_view() == old(self).graph_view(),
            d.wf(),
            d.graph_view() == old(self).graph_view(),
            d.channel_view() == channel,
            !d.stalled_view(),
            d.pending_set() == old(self).dirty_view().keys(channel.idx()).to_set(),
    {
        super::drain::drain_sorted_deterministic(&mut self.dirty, &self.graph, channel)
    }

    /// Like [`drain_affected_sorted`](Self::drain_affected_sorted), but ready
    /// keys are yielded smallest first.
    pub fn drain_affected_sorted_deterministic(&mut self, channel: Channel) -> (d: DrainSortedDeterministic<'_, K>)
        requires
            old(self).wf(),
            forall|k: K| #[trigger] old(self).dirty_view().keys(channel.idx()).contains(k) ==> k.spec_index() < usize::MAX,
        ensures
            final(self).wf(),
            final(self).dirty_view().keys(channel.idx()) == Seq::<K>::empty(),
            forall|c: nat| c != channel.idx() ==> #[trigger] final(self).dirty_view().keys(c) == old(self).dirty_view().keys(c),
            final(self).graph_view() == old(self).graph_view(),
            d.wf(),
            d.graph_view() == old(self).graph_view(),
            d.channel_view() == channel,
            !d.stalled_view(),
            d.pending_set() == affected_keys(old(self).graph_view(), channel.idx(), old(self).dirty_view().keys(channel.idx()).to_set()),
    {
        super::drain::drain_affected_sorted_deterministic(&mut self.dirty, &self.graph, channel)
    }

    /// Like [`peek_sorted`](Self::peek_sorted), but ready keys are yielded
    /// smallest first.
    pub fn peek_sorted_deterministic(&self, channel: Channel) -> (d: DrainSortedDeterministic<'_, K>)
        requires
            self.wf(),
            forall|k: K| #[trigger] self.dirty_view().keys(channel.idx()).contains(k) ==> k.spec_index() < usize::MAX,
        ensures
            d.wf(),
            d.graph_view() == self.graph_view(),
            d.channel_view() == channel,
            !d.stalled_view(),
            d.pending_set() == self.dirty_view().keys(channel.idx()).to_set(),
    {
        let cap = self.dirty.len(channel);
        let keys = self.dirty.iter(channel);
        proof {
            assert forall|i: int| 0 <= i < keys@.len() implies (#[trigger] keys@[i]).spec_index() < usize::MAX by {
                assert(self.dirty.keys(channel.idx()).contains(keys@[i]));
            }
        }
        DrainSortedDeterministic::from_iter_with_capacity(keys, cap, &self.graph, channel)
    }
}

impl<K: DenseKey> Default for DirtyTracker<K> {
    fn default() -> (t: Self)
        ensures
            t.wf(),
            t.handling() == CycleHandling::DebugAssert,
            forall|c: nat| #[trigger] t.dirty_view().keys(c) == Seq::<K>::empty(),
    {
        Self::new()
    }
}

} // verus!
