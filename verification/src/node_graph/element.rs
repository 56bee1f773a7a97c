use vstd::prelude::*;

use super::ids::{EdgeId, GraphElementId, NodeId, PortId};

verus! {

/// The graph element under a pointer.
#[derive(Copy, Clone, Debug, PartialEq, Eq, Structural, Hash)]
pub enum HitTarget {
    /// A node body.
    Node(NodeId),
    /// A port.
    Port(PortId),
    /// An edge.
    Edge(EdgeId),
}

impl HitTarget {
    /// The element id of the hit element.
    pub fn element_id(self) -> (r: GraphElementId)
        ensures
            r == match self {
                HitTarget::Node(id) => GraphElementId::Node(id),
                HitTarget::Port(id) => GraphElementId::Port(id),
                HitTarget::Edge(id) => GraphElementId::Edge(id),
            },
    {
        match self {
            HitTarget::Node(id) => GraphElementId::from(id),
            HitTarget::Port(id) => GraphElementId::from(id),
            HitTarget::Edge(id) => GraphElementId::from(id),
        }
    }
}

} // verus!
