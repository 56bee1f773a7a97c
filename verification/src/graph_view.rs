//! View-side graph types: hit targets, edge views, revisions and a simple
//! port compatibility policy over port data alone.
use vstd::prelude::*;

use crate::node_graph::graph::PortData;
use crate::node_graph::ids::{EdgeId, GraphElementId, NodeId, PortId};

verus! {

/// A policy deciding from the two ports' data alone whether they may be
/// connected.
pub trait PortCompatibility<P> {
    /// Returns `true` if `output` may be connected to `input`.
    fn can_connect(&self, output: &PortData<P>, input: &PortData<P>) -> bool;
}

/// Allows every connection.
#[derive(Copy, Clone, Debug, Default)]
pub struct AllowAllPortConnections;

impl<P> PortCompatibility<P> for AllowAllPortConnections {
    fn can_connect(&self, output: &PortData<P>, input: &PortData<P>) -> (r: bool)
        ensures
            r,
    {
        true
    }
}

/// The graph element under a pointer.
#[derive(Copy, Clone, Debug, PartialEq, Eq, Structural, Hash)]
pub enum HitTarget {
    /// A node body.
    Node(NodeId),
    /// A port.
    Port(PortId),
    /// An edge.
    Edge(EdgeId),
}

impl HitTarget {
    /// The element id of the hit element.
    pub fn element_id(self) -> (r: GraphElementId)
        ensures
            r == match self {
                HitTarget::Node(id) => GraphElementId::Node(id),
                HitTarget::Port(id) => GraphElementId::Port(id),
                HitTarget::Edge(id) => GraphElementId::Edge(id),
            },
    {
        match self {
            HitTarget::Node(id) => GraphElementId::from(id),
            HitTarget::Port(id) => GraphElementId::from(id),
            HitTarget::Edge(id) => GraphElementId::from(id),
        }
    }
}

/// How one edge takes part in a view.
#[derive(Clone, Debug)]
pub struct EdgeView<M> {
    /// Draw and hit-test order hint; larger values are above smaller ones.
    pub z_index: i32,
    /// Whether the edge is hidden.
    pub hidden: bool,
    /// Host-defined view metadata.
    pub meta: M,
}

impl<M> EdgeView<M> {
    /// A visible edge view with default ordering.
    pub fn new(meta: M) -> (v: Self)
        ensures
            v.z_index == 0,
            !v.hidden,
            v.meta == meta,
    {
        EdgeView { z_index: 0, hidden: false, meta }
    }
}

/// A view revision that advances (wrapping) on every change.
#[derive(Copy, Clone, Debug, Default, PartialEq, Eq, Structural, PartialOrd, Ord, Hash)]
pub struct Revision(u64);

impl Revision {
    /// The revision number.
    pub closed spec fn value(self) -> u64 {
        self.0
    }

    /// Revision zero.
    pub fn new() -> (r: Self)
        ensures
            r.value() == 0,
    {
        Revision(0)
    }

    /// The revision number.
    pub fn get(self) -> (r: u64)
        ensures
            r == self.value(),
    {
        self.0
    }

    /// Advances to the next revision (wrapping) and returns it.
    pub fn bump(&mut self) -> (r: Self)
        ensures
            final(self).value() == old(self).value().wrapping_add(1),
            r == *final(self),
    {
        self.0 = self.0.wrapping_add(1);
        *self
    }
}

/// Routes each edge as the straight segment between its two anchors.
#[derive(Copy, Clone, Debug, Default)]
pub struct StraightEdgeRouter;

} // verus!
