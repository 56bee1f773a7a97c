use vstd::prelude::*;

use super::ids::{EdgeId, NodeId, PortId};
use crate::dirty::channel::Channel;
use crate::dirty::key::Key;
use crate::dirty::set::DirtySet;

verus! {

/// Why part of a graph view must be recomputed; each cause has its own
/// invalidation channel.
#[derive(Copy, Clone, Debug, PartialEq, Eq, Structural, Hash)]
pub enum GraphInvalidationCause {
    /// The document topology or metadata changed.
    Graph,
    /// A projection (positions, sizes, visibility choices) changed.
    Projection,
    /// Session state (selection, hover, interaction) changed.
    Session,
    /// The viewport changed.
    Viewport,
    /// Edge routes must be recomputed.
    Routing,
    /// Visibility must be recomputed.
    Visibility,
}

impl GraphInvalidationCause {
    /// The channel index of this cause.
    pub open spec fn channel_index(self) -> nat {
        match self {
            GraphInvalidationCause::Graph => 0,
            GraphInvalidationCause::Projection => 1,
            GraphInvalidationCause::Session => 2,
            GraphInvalidationCause::Viewport => 3,
            GraphInvalidationCause::Routing => 4,
            GraphInvalidationCause::Visibility => 5,
        }
    }

    /// The invalidation channel of this cause.
    pub fn channel(self) -> (c: Channel)
        ensures
            c.idx() == self.channel_index(),
    {
        match self {
            GraphInvalidationCause::Graph => Channel::new(0),
            GraphInvalidationCause::Projection => Channel::new(1),
            GraphInvalidationCause::Session => Channel::new(2),
            GraphInvalidationCause::Viewport => Channel::new(3),
            GraphInvalidationCause::Routing => Channel::new(4),
            GraphInvalidationCause::Visibility => Channel::new(5),
        }
    }
}

/// What was invalidated.
#[derive(Copy, Clone, Debug, PartialEq, Eq, Structural, Hash)]
pub enum InvalidationTarget {
    /// The whole graph.
    Graph,
    /// The whole projection.
    Projection,
    /// The whole session.
    Session,
    /// The viewport.
    Viewport,
    /// One node.
    Node(NodeId),
    /// One port.
    Port(PortId),
    /// One edge.
    Edge(EdgeId),
}

impl Key for InvalidationTarget {
    fn key_eq(&self, other: &Self) -> (r: bool) {
        *self == *other
    }
}

/// Invalidation bookkeeping for graph views: per cause, the targets marked
/// in marking order, with a revision that advances on every new mark.
#[derive(Clone, Debug)]
pub struct GraphInvalidation {
    set: DirtySet<InvalidationTarget>,
}

impl GraphInvalidation {
    /// The targets marked for `cause`, in marking order.
    pub closed spec fn targets(self, cause: GraphInvalidationCause) -> Seq<InvalidationTarget> {
        self.set.keys(cause.channel_index())
    }

    /// The invalidation revision.
    pub closed spec fn revision_view(self) -> u64 {
        self.set.gen()
    }

    /// Internal consistency: duplicate-free target lists, and nothing marked
    /// outside the channels of the causes.
    pub closed spec fn wf(self) -> bool {
        &&& self.set.wf()
        &&& forall|c: nat| c >= 6 ==> #[trigger] self.set.keys(c).len() == 0
    }

    /// Marking `target` for `cause` took `old` to `new` and returned `r`:
    /// `r` tells whether it was newly marked, in which case it is appended
    /// and the revision advances; other causes are untouched.
    pub open spec fn mark_outcome(old: Self, new: Self, cause: GraphInvalidationCause, target: InvalidationTarget, r: bool) -> bool {
        &&& new.wf()
        &&& r == !old.targets(cause).contains(target)
        &&& new.targets(cause) == if r { old.targets(cause).push(target) } else { old.targets(cause) }
        &&& new.revision_view() == if r { old.revision_view().wrapping_add(1) } else { old.revision_view() }
        &&& forall|c: GraphInvalidationCause| c != cause ==> #[trigger] new.targets(c) == old.targets(c)
    }

    /// Creates empty bookkeeping at revision zero.
    pub fn new() -> (g: Self)
        ensures
            g.wf(),
            g.revision_view() == 0,
            forall|c: GraphInvalidationCause| #[trigger] g.targets(c) == Seq::<InvalidationTarget>::empty(),
    {
        GraphInvalidation { set: DirtySet::new() }
    }

    /// The invalidation revision.
    pub fn revision(&self) -> (r: u64)
        ensures
            r == self.revision_view(),
    {
        self.set.generation()
    }

    /// Marks `target` as invalidated by `cause`; returns `true` if it was
    /// newly marked.
    pub fn mark(&mut self, cause: GraphInvalidationCause, target: InvalidationTarget) -> (r: bool)
        requires
            old(self).wf(),
        ensures
            Self::mark_outcome(*old(self), *final(self), cause, target, r),
    {
        let r = self.set.mark(target, cause.channel());
        proof {
            assert forall|c: GraphInvalidationCause| c != cause implies #[trigger] self.targets(c) == old(self).targets(c) by {
                assert(c.channel_index() != cause.channel_index());
            }
            assert forall|c: nat| c >= 6 implies #[trigger] self.set.keys(c).len() == 0 by {
                assert(c != cause.channel_index());
                assert(old(self).set.keys(c).len() == 0);
            }
        }
        r
    }

    /// Marks the whole graph as changed.
    pub fn mark_graph(&mut self) -> (r: bool)
        requires
            old(self).wf(),
        ensures
            Self::mark_outcome(*old(self), *final(self), GraphInvalidationCause::Graph, InvalidationTarget::Graph, r),
    {
        self.mark(GraphInvalidationCause::Graph, InvalidationTarget::Graph)
    }

    /// Marks `node` as changed in the document.
    pub fn mark_graph_node(&mut self, node: NodeId) -> (r: bool)
        requires
            old(self).wf(),
        ensures
            Self::mark_outcome(*old(self), *final(self), GraphInvalidationCause::Graph, InvalidationTarget::Node(node), r),
    {
        self.mark(GraphInvalidationCause::Graph, InvalidationTarget::Node(node))
    }

    /// Marks `port` as changed in the document.
    pub fn mark_graph_port(&mut self, port: PortId) -> (r: bool)
        requires
            old(self).wf(),
        ensures
            Self::mark_outcome(*old(self), *final(self), GraphInvalidationCause::Graph, InvalidationTarget::Port(port), r),
    {
        self.mark(GraphInvalidationCause::Graph, InvalidationTarget::Port(port))
    }

    /// Marks `edge` as changed in the document.
    pub fn mark_graph_edge(&mut self, edge: EdgeId) -> (r: bool)
        requires
            old(self).wf(),
        ensures
            Self::mark_outcome(*old(self), *final(self), GraphInvalidationCause::Graph, InvalidationTarget::Edge(edge), r),
    {
        self.mark(GraphInvalidationCause::Graph, InvalidationTarget::Edge(edge))
    }

    /// Marks the whole projection as changed.
    pub fn mark_projection(&mut self) -> (r: bool)
        requires
            old(self).wf(),
        ensures
            Self::mark_outcome(*old(self), *final(self), GraphInvalidationCause::Projection, InvalidationTarget::Projection, r),
    {
        self.mark(GraphInvalidationCause::Projection, InvalidationTarget::Projection)
    }

    /// Marks the projection of `node` as changed.
    pub fn mark_projection_node(&mut self, node: NodeId) -> (r: bool)
        requires
            old(self).wf(),
        ensures
            Self::mark_outcome(*old(self), *final(self), GraphInvalidationCause::Projection, InvalidationTarget::Node(node), r),
    {
        self.mark(GraphInvalidationCause::Projection, InvalidationTarget::Node(node))
    }

    /// Marks the projection of `port` as changed.
    pub fn mark_projection_port(&mut self, port: PortId) -> (r: bool)
        requires
            old(self).wf(),
        ensures
            Self::mark_outcome(*old(self), *final(self), GraphInvalidationCause::Projection, InvalidationTarget::Port(port), r),
    {
        self.mark(GraphInvalidationCause::Projection, InvalidationTarget::Port(port))
    }

    /// Marks the projection of `edge` as changed.
    pub fn mark_projection_edge(&mut self, edge: EdgeId) -> (r: bool)
        requires
            old(self).wf(),
        ensures
            Self::mark_outcome(*old(self), *final(self), GraphInvalidationCause::Projection, InvalidationTarget::Edge(edge), r),
    {
        self.mark(GraphInvalidationCause::Projection, InvalidationTarget::Edge(edge))
    }

    /// Marks the session as changed.
    pub fn mark_session(&mut self) -> (r: bool)
        requires
            old(self).wf(),
        ensures
            Self::mark_outcome(*old(self), *final(self), GraphInvalidationCause::Session, InvalidationTarget::Session, r),
    {
        self.mark(GraphInvalidationCause::Session, InvalidationTarget::Session)
    }

    /// Marks the viewport as changed.
    pub fn mark_viewport(&mut self) -> (r: bool)
        requires
            old(self).wf(),
        ensures
            Self::mark_outcome(*old(self), *final(self), GraphInvalidationCause::Viewport, InvalidationTarget::Viewport, r),
    {
        self.mark(GraphInvalidationCause::Viewport, InvalidationTarget::Viewport)
    }

    /// Marks all routes as needing recomputation.
    pub fn mark_routing(&mut self) -> (r: bool)
        requires
            old(self).wf(),
        ensures
            Self::mark_outcome(*old(self), *final(self), GraphInvalidationCause::Routing, InvalidationTarget::Graph, r),
    {
        self.mark(GraphInvalidationCause::Routing, InvalidationTarget::Graph)
    }

    /// Marks the route of `edge` as needing recomputation.
    pub fn mark_routing_edge(&mut self, edge: EdgeId) -> (r: bool)
        requires
            old(self).wf(),
        ensures
            Self::mark_outcome(*old(self), *final(self), GraphInvalidationCause::Routing, InvalidationTarget::Edge(edge), r),
    {
        self.mark(GraphInvalidationCause::Routing, InvalidationTarget::Edge(edge))
    }

    /// Marks visibility as needing recomputation.
    pub fn mark_visibility(&mut self) -> (r: bool)
        requires
            old(self).wf(),
        ensures
            Self::mark_outcome(*old(self), *final(self), GraphInvalidationCause::Visibility, InvalidationTarget::Graph, r),
    {
        self.mark(GraphInvalidationCause::Visibility, InvalidationTarget::Graph)
    }

    /// Returns `true` if anything is marked for `cause`.
    pub fn has_cause(&self, cause: GraphInvalidationCause) -> (r: bool)
        requires
            self.wf(),
        ensures
            r == (self.targets(cause).len() > 0),
    {
        self.set.has_dirty(cause.channel())
    }

    /// Returns `true` if nothing is marked for any cause.
    pub fn is_empty(&self) -> (r: bool)
        requires
            self.wf(),
        ensures
            r == (forall|c: GraphInvalidationCause| #[trigger] self.targets(c).len() == 0),
    {
        let r = self.set.is_empty();
        proof {
            if !r {
                let c = choose|c: nat| #[trigger] self.set.keys(c).len() != 0;
                let cause = if c == 0 {
                    GraphInvalidationCause::Graph
                } else if c == 1 {
                    GraphInvalidationCause::Projection
                } else if c == 2 {
                    GraphInvalidationCause::Session
                } else if c == 3 {
                    GraphInvalidationCause::Viewport
                } else if c == 4 {
                    GraphInvalidationCause::Routing
                } else {
                    GraphInvalidationCause::Visibility
                };
                assert(self.targets(cause).len() != 0);
            }
        }
        r
    }

    /// The targets marked for `cause`, in marking order.
    pub fn iter(&self, cause: GraphInvalidationCause) -> (r: Vec<InvalidationTarget>)
        requires
            self.wf(),
        ensures
            r@ == self.targets(cause),
    {
        self.set.iter(cause.channel())
    }

    /// Forgets the marks of `cause`.
    pub fn clear(&mut self, cause: GraphInvalidationCause)
        requires
            old(self).wf(),
        ensures
            final(self).wf(),
            final(self).targets(cause) == Seq::<InvalidationTarget>::empty(),
            forall|c: GraphInvalidationCause| c != cause ==> #[trigger] final(self).targets(c) == old(self).targets(c),
            final(self).revision_view() == old(self).revision_view(),
    {
        self.set.clear(cause.channel());
        proof {
            assert forall|c: GraphInvalidationCause| c != cause implies #[trigger] self.targets(c) == old(self).targets(c) by {
                assert(c.channel_index() != cause.channel_index());
            }
            assert forall|c: nat| c >= 6 implies #[trigger] self.set.keys(c).len() == 0 by {
                assert(old(self).set.keys(c).len() == 0);
            }
        }
    }

    /// Forgets every mark.
    pub fn clear_all(&mut self)
        requires
            old(self).wf(),
        ensures
            final(self).wf(),
            forall|c: GraphInvalidationCause| #[trigger] final(self).targets(c) == Seq::<InvalidationTarget>::empty(),
            final(self).revision_view() == old(self).revision_view(),
    {
        self.set.clear_all();
    }
}

impl Default for GraphInvalidation {
    fn default() -> (g: Self)
        ensures
            g.wf(),
            g.revision_view() == 0,
            forall|c: GraphInvalidationCause| #[trigger] g.targets(c) == Seq::<InvalidationTarget>::empty(),
    {
        Self::new()
    }
}

/// Marking the same target for the same cause twice: the second mark
/// reports nothing new and changes neither the targets nor the revision.
pub proof fn lemma_mark_idempotent(
    g0: GraphInvalidation,
    g1: GraphInvalidation,
    g2: GraphInvalidation,
    cause: GraphInvalidationCause,
    target: InvalidationTarget,
    r1: bool,
    r2: bool,
)
    requires
        GraphInvalidation::mark_outcome(g0, g1, cause, target, r1),
        GraphInvalidation::mark_outcome(g1, g2, cause, target, r2),
    ensures
        !r2,
        forall|c: GraphInvalidationCause| #[trigger] g2.targets(c) == g1.targets(c),
        g2.revision_view() == g1.revision_view(),
{
    if r1 {
        crate::dirty::graph::lemma_push_contains(g0.targets(cause), target);
    }
    assert(g1.targets(cause).contains(target));
}

} // verus!
