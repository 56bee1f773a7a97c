use vstd::prelude::*;

use crate::dirty::channel::ChannelSet;

verus! {

/// What one binding write did.
#[derive(Copy, Clone, Debug, PartialEq, Eq, Structural)]
pub struct BindingWrite {
    changed: bool,
    affected_channels: ChannelSet,
}

impl BindingWrite {
    /// Whether the target value changed.
    pub closed spec fn changed_view(self) -> bool {
        self.changed
    }

    /// The channels the write invalidated.
    pub closed spec fn channels_view(self) -> ChannelSet {
        self.affected_channels
    }

    /// A write outcome.
    pub fn new(changed: bool, affected_channels: ChannelSet) -> (r: Self)
        ensures
            r.changed_view() == changed,
            r.channels_view() == affected_channels,
    {
        BindingWrite { changed, affected_channels }
    }

    /// A write that changed nothing.
    pub fn unchanged() -> (r: Self)
        ensures
            !r.changed_view(),
            r.channels_view()@ == Set::<nat>::empty(),
    {
        Self::new(false, ChannelSet::empty())
    }

    /// A write that changed the target and invalidated `affected_channels`.
    pub fn changed(affected_channels: ChannelSet) -> (r: Self)
        ensures
            r.changed_view(),
            r.channels_view() == affected_channels,
    {
        Self::new(true, affected_channels)
    }

    /// Whether the target value changed.
    pub fn did_change(self) -> (r: bool)
        ensures
            r == self.changed_view(),
    {
        self.changed
    }

    /// The channels the write invalidated.
    pub fn affected_channels(self) -> (r: ChannelSet)
        ensures
            r == self.channels_view(),
    {
        self.affected_channels
    }
}

/// Totals of one binding drain.
#[derive(Copy, Clone, Debug, PartialEq, Eq, Structural)]
pub struct BindingReport {
    evaluated_bindings: usize,
    changed_bindings: usize,
    skipped_missing_source: usize,
    affected_channels: ChannelSet,
}

impl Default for BindingReport {
    /// The report of a drain that did nothing.
    fn default() -> (r: Self)
        ensures
            r.evaluated_view() == 0,
            r.changed_view() == 0,
            r.skipped_view() == 0,
            r.channels_view()@ == Set::<nat>::empty(),
    {
        BindingReport {
            evaluated_bindings: 0,
            changed_bindings: 0,
            skipped_missing_source: 0,
            affected_channels: ChannelSet::empty(),
        }
    }
}

impl BindingReport {
    /// Bindings evaluated.
    pub closed spec fn evaluated_view(self) -> usize {
        self.evaluated_bindings
    }

    /// Bindings whose target changed.
    pub closed spec fn changed_view(self) -> usize {
        self.changed_bindings
    }

    /// Bindings skipped for a missing source.
    pub closed spec fn skipped_view(self) -> usize {
        self.skipped_missing_source
    }

    /// The union of the channels invalidated by the writes.
    pub closed spec fn channels_view(self) -> ChannelSet {
        self.affected_channels
    }

    /// Bindings evaluated.
    pub fn evaluated_bindings(self) -> (r: usize)
        ensures
            r == self.evaluated_view(),
    {
        self.evaluated_bindings
    }

    /// Bindings whose target changed.
    pub fn changed_bindings(self) -> (r: usize)
        ensures
            r == self.changed_view(),
    {
        self.changed_bindings
    }

    /// Bindings skipped for a missing source.
    pub fn skipped_missing_source(self) -> (r: usize)
        ensures
            r == self.skipped_view(),
    {
        self.skipped_missing_source
    }

    /// The union of the channels invalidated by the writes.
    pub fn affected_channels(self) -> (r: ChannelSet)
        ensures
            r == self.channels_view(),
    {
        self.affected_channels
    }

    /// Counts one evaluated binding and its write; the counters wrap.
    pub(crate) fn record(&mut self, write: BindingWrite)
        ensures
            final(self).evaluated_view() == old(self).evaluated_view().wrapping_add(1),
            final(self).changed_view() == if write.changed_view() {
                old(self).changed_view().wrapping_add(1)
            } else {
                old(self).changed_view()
            },
            final(self).skipped_view() == old(self).skipped_view(),
            final(self).channels_view()@ == old(self).channels_view()@.union(write.channels_view()@),
    {
        self.evaluated_bindings = self.evaluated_bindings.wrapping_add(1);
        if write.did_change() {
            self.changed_bindings = self.changed_bindings.wrapping_add(1);
        }
        self.affected_channels = self.affected_channels.union(write.affected_channels());
    }

    /// Counts one binding skipped for a missing source; the counter wraps.
    pub(crate) fn record_skipped_missing_source(&mut self)
        ensures
            final(self).skipped_view() == old(self).skipped_view().wrapping_add(1),
            final(self).evaluated_view() == old(self).evaluated_view(),
            final(self).changed_view() == old(self).changed_view(),
            final(self).channels_view() == old(self).channels_view(),
    {
        self.skipped_missing_source = self.skipped_missing_source.wrapping_add(1);
    }
}

/// Counts describing a binding set.
#[derive(Copy, Clone, Debug, Default, PartialEq, Eq, Structural)]
pub struct BindingStats {
    active_bindings: usize,
    binding_slots: usize,
    source_endpoints: usize,
    target_endpoints: usize,
    dependency_edges: usize,
    dirty_bindings: usize,
    has_dirty_bindings: bool,
}

impl BindingStats {
    /// The counts, in field order.
    pub closed spec fn counts(self) -> (usize, usize, usize, usize, usize, usize, bool) {
        (self.active_bindings, self.binding_slots, self.source_endpoints, self.target_endpoints,
            self.dependency_edges, self.dirty_bindings, self.has_dirty_bindings)
    }

    /// Bundles the counts.
    pub(crate) fn new(
        active_bindings: usize,
        binding_slots: usize,
        source_endpoints: usize,
        target_endpoints: usize,
        dependency_edges: usize,
        dirty_bindings: usize,
        has_dirty_bindings: bool,
    ) -> (r: Self)
        ensures
            r.counts() == (active_bindings, binding_slots, source_endpoints, target_endpoints, dependency_edges,
                dirty_bindings, has_dirty_bindings),
    {
        BindingStats {
            active_bindings,
            binding_slots,
            source_endpoints,
            target_endpoints,
            dependency_edges,
            dirty_bindings,
            has_dirty_bindings,
        }
    }

    /// Live bindings.
    pub fn active_bindings(self) -> (r: usize)
        ensures
            r == self.counts().0,
    {
        self.active_bindings
    }

    /// Allocated binding slots.
    pub fn binding_slots(self) -> (r: usize)
        ensures
            r == self.counts().1,
    {
        self.binding_slots
    }

    /// Distinct source endpoints.
    pub fn source_endpoints(self) -> (r: usize)
        ensures
            r == self.counts().2,
    {
        self.source_endpoints
    }

    /// Distinct target endpoints.
    pub fn target_endpoints(self) -> (r: usize)
        ensures
            r == self.counts().3,
    {
        self.target_endpoints
    }

    /// Dependency edges between bindings.
    pub fn dependency_edges(self) -> (r: usize)
        ensures
            r == self.counts().4,
    {
        self.dependency_edges
    }

    /// Bindings waiting to be evaluated.
    pub fn dirty_bindings(self) -> (r: usize)
        ensures
            r == self.counts().5,
    {
        self.dirty_bindings
    }

    /// Whether any binding waits to be evaluated.
    pub fn has_dirty_bindings(self) -> (r: bool)
        ensures
            r == self.counts().6,
    {
        self.has_dirty_bindings
    }
}

} // verus!
