use vstd::prelude::*;

use super::compatibility::PortCompatibility;
use super::element::HitTarget;
use super::graph::{GraphDoc, PortDirection};
use super::ids::{EdgeId, NodeId, PortId};
use super::invalidation::{GraphInvalidation, GraphInvalidationCause, InvalidationTarget};
use super::observe::GraphDeriveObserver;
use super::revision::Revision;
use crate::dirty::hashed::IdSet;

verus! {

/// Whether `t` names a whole surface (the graph, the projection, the session
/// or the viewport) rather than one element.
pub open spec fn is_whole_target(t: InvalidationTarget) -> bool {
    !(t is Node || t is Port || t is Edge)
}

/// The targets that bear on geometry: those marked for the graph, for the
/// projection and for routing, in that order.
pub open spec fn geometry_targets(inv: GraphInvalidation) -> Seq<InvalidationTarget> {
    inv.targets(GraphInvalidationCause::Graph) + inv.targets(GraphInvalidationCause::Projection) + inv.targets(
        GraphInvalidationCause::Routing,
    )
}

/// Whether anything is marked for the graph, the projection or routing.
pub open spec fn has_geometry_cause(inv: GraphInvalidation) -> bool {
    ||| inv.targets(GraphInvalidationCause::Graph).len() > 0
    ||| inv.targets(GraphInvalidationCause::Projection).len() > 0
    ||| inv.targets(GraphInvalidationCause::Routing).len() > 0
}

/// Whether some target of `ts` names a whole surface.
pub open spec fn has_whole_target(ts: Seq<InvalidationTarget>) -> bool {
    exists|i: int| 0 <= i < ts.len() && is_whole_target(#[trigger] ts[i])
}

/// Whether `port` is live in `doc` and lists `edge`.
pub open spec fn port_lists_edge<N, P, E>(doc: GraphDoc<N, P, E>, port: PortId, edge: EdgeId) -> bool {
    doc.port_edges_map().contains_key(port) && doc.port_edges_map()[port].contains(edge)
}

/// The nodes whose geometry the target `t` touches: a node itself, or the
/// owner of a live port.
pub open spec fn target_nodes<N, P, E>(doc: GraphDoc<N, P, E>, t: InvalidationTarget) -> Set<NodeId> {
    match t {
        InvalidationTarget::Node(n) => set![n],
        InvalidationTarget::Port(p) => if doc.port_map().contains_key(p) {
            set![doc.port_map()[p].owner]
        } else {
            Set::empty()
        },
        _ => Set::empty(),
    }
}

/// The edges whose routes the target `t` touches: an edge itself, the edges
/// of a live port, or the edges of every port of a live node.
pub open spec fn target_edges<N, P, E>(doc: GraphDoc<N, P, E>, t: InvalidationTarget) -> Set<EdgeId> {
    match t {
        InvalidationTarget::Edge(e) => set![e],
        InvalidationTarget::Port(p) => Set::new(|e: EdgeId| port_lists_edge(doc, p, e)),
        InvalidationTarget::Node(n) => Set::new(
            |e: EdgeId|
                doc.node_ports_map().contains_key(n) && exists|p: PortId|
                    #[trigger] doc.node_ports_map()[n].contains(p) && port_lists_edge(doc, p, e),
        ),
        _ => Set::empty(),
    }
}

/// The nodes touched by some target of `ts`.
pub open spec fn scoped_nodes<N, P, E>(doc: GraphDoc<N, P, E>, ts: Seq<InvalidationTarget>) -> Set<NodeId> {
    Set::new(|n: NodeId| exists|i: int| 0 <= i < ts.len() && #[trigger] target_nodes(doc, ts[i]).contains(n))
}

/// The edges touched by some target of `ts`.
pub open spec fn scoped_edges<N, P, E>(doc: GraphDoc<N, P, E>, ts: Seq<InvalidationTarget>) -> Set<EdgeId> {
    Set::new(|e: EdgeId| exists|i: int| 0 <= i < ts.len() && #[trigger] target_edges(doc, ts[i]).contains(e))
}

/// Taking one more target into a prefix adds what that target touches.
proof fn lemma_scoped_step<N, P, E>(doc: GraphDoc<N, P, E>, ts: Seq<InvalidationTarget>, i: int)
    requires
        0 <= i < ts.len(),
    ensures
        scoped_nodes(doc, ts.take(i + 1)) == scoped_nodes(doc, ts.take(i)).union(target_nodes(doc, ts[i])),
        scoped_edges(doc, ts.take(i + 1)) == scoped_edges(doc, ts.take(i)).union(target_edges(doc, ts[i])),
{
    let a = ts.take(i);
    let b = ts.take(i + 1);
    assert(b[i] == ts[i]);
    assert forall|n: NodeId| #[trigger] scoped_nodes(doc, b).contains(n) == scoped_nodes(doc, a).union(
        target_nodes(doc, ts[i]),
    ).contains(n) by {
        if scoped_nodes(doc, b).contains(n) {
            let j = choose|j: int| 0 <= j < b.len() && #[trigger] target_nodes(doc, b[j]).contains(n);
            if j < i {
                assert(a[j] == b[j]);
            }
        }
        if scoped_nodes(doc, a).contains(n) {
            let j = choose|j: int| 0 <= j < a.len() && #[trigger] target_nodes(doc, a[j]).contains(n);
            assert(a[j] == b[j]);
        }
    }
    assert forall|e: EdgeId| #[trigger] scoped_edges(doc, b).contains(e) == scoped_edges(doc, a).union(
        target_edges(doc, ts[i]),
    ).contains(e) by {
        if scoped_edges(doc, b).contains(e) {
            let j = choose|j: int| 0 <= j < b.len() && #[trigger] target_edges(doc, b[j]).contains(e);
            if j < i {
                assert(a[j] == b[j]);
            }
        }
        if scoped_edges(doc, a).contains(e) {
            let j = choose|j: int| 0 <= j < a.len() && #[trigger] target_edges(doc, a[j]).contains(e);
            assert(a[j] == b[j]);
        }
    }
    assert(scoped_nodes(doc, b) =~= scoped_nodes(doc, a).union(target_nodes(doc, ts[i])));
    assert(scoped_edges(doc, b) =~= scoped_edges(doc, a).union(target_edges(doc, ts[i])));
}

/// The nodes and edges whose geometry a targeted rebuild recomputes.
pub struct TargetedGeometry {
    nodes: IdSet,
    edges: IdSet,
}

impl TargetedGeometry {
    /// The nodes to recompute.
    pub closed spec fn node_set(self) -> Set<NodeId> {
        Set::new(|n: NodeId| self.nodes.contents().contains(n.bits_view()))
    }

    /// The edges to recompute.
    pub closed spec fn edge_set(self) -> Set<EdgeId> {
        Set::new(|e: EdgeId| self.edges.contents().contains(e.bits_view()))
    }

    /// Creates a target set naming nothing.
    pub fn new() -> (t: Self)
        ensures
            t.node_set() == Set::<NodeId>::empty(),
            t.edge_set() == Set::<EdgeId>::empty(),
    {
        let t = TargetedGeometry { nodes: IdSet::new(), edges: IdSet::new() };
        assert(t.node_set() =~= Set::<NodeId>::empty());
        assert(t.edge_set() =~= Set::<EdgeId>::empty());
        t
    }

    /// Returns `true` if no node and no edge is named.
    pub fn is_empty(&self) -> (r: bool)
        ensures
            r == (self.node_set() == Set::<NodeId>::empty() && self.edge_set() == Set::<EdgeId>::empty()),
    {
        let no_nodes = self.nodes.is_empty();
        let no_edges = self.edges.is_empty();
        proof {
            if exists|b: u64| self.nodes.contents().contains(b) {
                let b = choose|b: u64| self.nodes.contents().contains(b);
                NodeId::lemma_with_bits(b);
                assert(self.node_set().contains(NodeId::with_bits(b)));
            } else {
                assert(self.nodes.contents() =~= Set::<u64>::empty());
                assert(self.node_set() =~= Set::<NodeId>::empty());
            }
            if exists|b: u64| self.edges.contents().contains(b) {
                let b = choose|b: u64| self.edges.contents().contains(b);
                EdgeId::lemma_with_bits(b);
                assert(self.edge_set().contains(EdgeId::with_bits(b)));
            } else {
                assert(self.edges.contents() =~= Set::<u64>::empty());
                assert(self.edge_set() =~= Set::<EdgeId>::empty());
            }
        }
        no_nodes && no_edges
    }

    /// The named nodes, each once, in no fixed order.
    pub fn nodes(&self) -> (r: Vec<NodeId>)
        ensures
            r@.no_duplicates(),
            forall|n: NodeId| r@.contains(n) <==> self.node_set().contains(n),
    {
        let bits = self.nodes.values();
        let mut r: Vec<NodeId> = Vec::new();
        let mut i: usize = 0;
        while i < bits.len()
            invariant
                0 <= i <= bits@.len(),
                bits@.no_duplicates(),
                bits@.to_set() == self.nodes.contents(),
                r@.len() == i,
                forall|j: int| 0 <= j < i ==> (#[trigger] r@[j]).bits_view() == bits@[j],
            decreases bits.len() - i,
        {
            r.push(NodeId::from_bits(bits[i]));
            i += 1;
        }
        proof {
            assert forall|j: int, k: int| 0 <= j < r@.len() && 0 <= k < r@.len() && j != k implies r@[j] != r@[k] by {
                assert(bits@[j] != bits@[k]);
            }
            assert forall|n: NodeId| r@.contains(n) <==> self.node_set().contains(n) by {
                if r@.contains(n) {
                    let j = choose|j: int| 0 <= j < r@.len() && r@[j] == n;
                    assert(bits@.contains(bits@[j]));
                }
                if self.node_set().contains(n) {
                    assert(bits@.to_set().contains(n.bits_view()));
                    let j = choose|j: int| 0 <= j < bits@.len() && bits@[j] == n.bits_view();
                    NodeId::lemma_bits_injective(r@[j], n);
                    assert(r@[j] == n);
                }
            }
        }
        r
    }

    /// The named edges, each once, in no fixed order.
    pub fn edges(&self) -> (r: Vec<EdgeId>)
        ensures
            r@.no_duplicates(),
            forall|e: EdgeId| r@.contains(e) <==> self.edge_set().contains(e),
    {
        let bits = self.edges.values();
        let mut r: Vec<EdgeId> = Vec::new();
        let mut i: usize = 0;
        while i < bits.len()
            invariant
                0 <= i <= bits@.len(),
                bits@.no_duplicates(),
                bits@.to_set() == self.edges.contents(),
                r@.len() == i,
                forall|j: int| 0 <= j < i ==> (#[trigger] r@[j]).bits_view() == bits@[j],
            decreases bits.len() - i,
        {
            r.push(EdgeId::from_bits(bits[i]));
            i += 1;
        }
        proof {
            assert forall|j: int, k: int| 0 <= j < r@.len() && 0 <= k < r@.len() && j != k implies r@[j] != r@[k] by {
                assert(bits@[j] != bits@[k]);
            }
            assert forall|e: EdgeId| r@.contains(e) <==> self.edge_set().contains(e) by {
                if r@.contains(e) {
                    let j = choose|j: int| 0 <= j < r@.len() && r@[j] == e;
                    assert(bits@.contains(bits@[j]));
                }
                if self.edge_set().contains(e) {
                    assert(bits@.to_set().contains(e.bits_view()));
                    let j = choose|j: int| 0 <= j < bits@.len() && bits@[j] == e.bits_view();
                    EdgeId::lemma_bits_injective(r@[j], e);
                    assert(r@[j] == e);
                }
            }
        }
        r
    }

    /// Names the owner of `port` and every edge of `port`, if the port is live.
    pub fn include_port<N, P, E>(&mut self, doc: &GraphDoc<N, P, E>, port: PortId)
        requires
            doc.wf(),
        ensures
            final(self).node_set() == old(self).node_set().union(target_nodes(*doc, InvalidationTarget::Port(port))),
            final(self).edge_set() == old(self).edge_set().union(target_edges(*doc, InvalidationTarget::Port(port))),
    {
        match doc.port(port) {
            Some(data) => {
                self.insert_node(data.owner);
            },
            None => {},
        }
        let ghost nodes_after = self.node_set();
        let ghost edges0 = self.edge_set();
        assert(nodes_after =~= old(self).node_set().union(target_nodes(*doc, InvalidationTarget::Port(port))));
        match doc.port_edges(port) {
            Some(edges) => {
                let mut i: usize = 0;
                while i < edges.len()
                    invariant
                        0 <= i <= edges@.len(),
                        self.node_set() == nodes_after,
                        forall|e: EdgeId|
                            #[trigger] self.edge_set().contains(e) <==> (edges0.contains(e) || exists|j: int|
                                0 <= j < i && edges@[j] == e),
                    decreases edges.len() - i,
                {
                    self.insert_edge(edges[i]);
                    proof {
                        assert forall|e: EdgeId|
                            #[trigger] self.edge_set().contains(e) <==> (edges0.contains(e) || exists|j: int|
                                0 <= j < i + 1 && edges@[j] == e) by {
                            if e == edges@[i as int] {
                                assert(0 <= i < i + 1 && edges@[i as int] == e);
                            }
                        }
                    }
                    i += 1;
                }
                proof {
                    assert forall|e: EdgeId| #[trigger] self.edge_set().contains(e) == old(self).edge_set().union(
                        target_edges(*doc, InvalidationTarget::Port(port)),
                    ).contains(e) by {
                        if port_lists_edge(*doc, port, e) {
                            let j = choose|j: int| 0 <= j < edges@.len() && edges@[j] == e;
                        }
                    }
                    assert(self.edge_set() =~= old(self).edge_set().union(
                        target_edges(*doc, InvalidationTarget::Port(port)),
                    ));
                }
            },
            None => {
                assert(self.edge_set() =~= old(self).edge_set().union(
                    target_edges(*doc, InvalidationTarget::Port(port)),
                ));
            },
        }
    }

    /// Names `node`, and, if it is live, the edges of each of its ports.
    pub fn include_node<N, P, E>(&mut self, doc: &GraphDoc<N, P, E>, node: NodeId)
        requires
            doc.wf(),
        ensures
            final(self).node_set() == old(self).node_set().union(target_nodes(*doc, InvalidationTarget::Node(node))),
            final(self).edge_set() == old(self).edge_set().union(target_edges(*doc, InvalidationTarget::Node(node))),
    {
        self.insert_node(node);
        let ghost nodes_after = self.node_set();
        let ghost edges0 = self.edge_set();
        assert(nodes_after =~= old(self).node_set().union(target_nodes(*doc, InvalidationTarget::Node(node))));
        match doc.node_ports(node) {
            Some(ports) => {
                let mut i: usize = 0;
                while i < ports.len()
                    invariant
                        0 <= i <= ports@.len(),
                        doc.wf(),
                        doc.node_map().contains_key(node),
                        ports@ == doc.node_ports_map()[node],
                        nodes_after.contains(node),
                        self.node_set() == nodes_after,
                        forall|e: EdgeId|
                            #[trigger] self.edge_set().contains(e) <==> (edges0.contains(e) || exists|j: int|
                                0 <= j < i && port_lists_edge(*doc, ports@[j], e)),
                    decreases ports.len() - i,
                {
                    let p = ports[i];
                    assert(doc.node_ports_map()[node].contains(p));
                    self.include_port(doc, p);
                    proof {
                        assert(target_nodes(*doc, InvalidationTarget::Port(p)) =~= set![node]);
                        assert(self.node_set() =~= nodes_after);
                        assert forall|e: EdgeId|
                            #[trigger] self.edge_set().contains(e) <==> (edges0.contains(e) || exists|j: int|
                                0 <= j < i + 1 && port_lists_edge(*doc, ports@[j], e)) by {
                            if port_lists_edge(*doc, p, e) {
                                assert(0 <= i < i + 1 && port_lists_edge(*doc, ports@[i as int], e));
                            }
                            if exists|j: int| 0 <= j < i + 1 && port_lists_edge(*doc, ports@[j], e) {
                                let j = choose|j: int| 0 <= j < i + 1 && port_lists_edge(*doc, ports@[j], e);
                                if j < i {
                                    assert(exists|k: int| 0 <= k < i && port_lists_edge(*doc, ports@[k], e));
                                }
                            }
                        }
                    }
                    i += 1;
                }
                proof {
                    assert forall|e: EdgeId| #[trigger] self.edge_set().contains(e) == old(self).edge_set().union(
                        target_edges(*doc, InvalidationTarget::Node(node)),
                    ).contains(e) by {
                        if exists|p: PortId| #[trigger] doc.node_ports_map()[node].contains(p) && port_lists_edge(*doc, p, e) {
                            let p = choose|p: PortId| #[trigger] doc.node_ports_map()[node].contains(p) && port_lists_edge(*doc, p, e);
                            let j = choose|j: int| 0 <= j < ports@.len() && ports@[j] == p;
                            assert(0 <= j < ports@.len() && port_lists_edge(*doc, ports@[j], e));
                        }
                        if exists|j: int| 0 <= j < ports@.len() && port_lists_edge(*doc, ports@[j], e) {
                            let j = choose|j: int| 0 <= j < ports@.len() && port_lists_edge(*doc, ports@[j], e);
                            assert(doc.node_ports_map()[node].contains(ports@[j]));
                        }
                    }
                    assert(self.edge_set() =~= old(self).edge_set().union(
                        target_edges(*doc, InvalidationTarget::Node(node)),
                    ));
                }
            },
            None => {
                assert(self.edge_set() =~= old(self).edge_set().union(
                    target_edges(*doc, InvalidationTarget::Node(node)),
                ));
            },
        }
    }

    /// Names what one element target touches; refuses a whole-surface target
    /// and returns `false` for it, leaving the sets as they were.
    pub fn include_target<N, P, E>(&mut self, doc: &GraphDoc<N, P, E>, target: InvalidationTarget) -> (r: bool)
        requires
            doc.wf(),
        ensures
            r == !is_whole_target(target),
            r ==> final(self).node_set() == old(self).node_set().union(target_nodes(*doc, target)),
            r ==> final(self).edge_set() == old(self).edge_set().union(target_edges(*doc, target)),
            !r ==> *final(self) == *old(self),
    {
        match target {
            InvalidationTarget::Node(node) => {
                self.include_node(doc, node);
                true
            },
            InvalidationTarget::Port(port) => {
                self.include_port(doc, port);
                true
            },
            InvalidationTarget::Edge(edge) => {
                self.insert_edge(edge);
                assert(self.node_set() =~= old(self).node_set().union(target_nodes(*doc, target)));
                assert(self.edge_set() =~= old(self).edge_set().union(target_edges(*doc, target)));
                true
            },
            _ => false,
        }
    }

    /// Names what each target of `targets` touches, in order; stops at the
    /// first whole-surface target and returns `false`.
    fn include_all<N, P, E>(&mut self, doc: &GraphDoc<N, P, E>, targets: &Vec<InvalidationTarget>) -> (r: bool)
        requires
            doc.wf(),
        ensures
            r == !has_whole_target(targets@),
            r ==> final(self).node_set() == old(self).node_set().union(scoped_nodes(*doc, targets@)),
            r ==> final(self).edge_set() == old(self).edge_set().union(scoped_edges(*doc, targets@)),
    {
        let ghost nodes0 = self.node_set();
        let ghost edges0 = self.edge_set();
        let mut i: usize = 0;
        assert(scoped_nodes(*doc, targets@.take(0)) =~= Set::<NodeId>::empty());
        assert(scoped_edges(*doc, targets@.take(0)) =~= Set::<EdgeId>::empty());
        assert(nodes0.union(Set::<NodeId>::empty()) =~= nodes0);
        assert(edges0.union(Set::<EdgeId>::empty()) =~= edges0);
        while i < targets.len()
            invariant
                0 <= i <= targets@.len(),
                doc.wf(),
                forall|j: int| 0 <= j < i ==> !is_whole_target(#[trigger] targets@[j]),
                self.node_set() == nodes0.union(scoped_nodes(*doc, targets@.take(i as int))),
                self.edge_set() == edges0.union(scoped_edges(*doc, targets@.take(i as int))),
            decreases targets.len() - i,
        {
            let t = targets[i];
            if !self.include_target(doc, t) {
                assert(is_whole_target(targets@[i as int]));
                return false;
            }
            proof {
                lemma_scoped_step(*doc, targets@, i as int);
                assert(self.node_set() =~= nodes0.union(scoped_nodes(*doc, targets@.take(i + 1))));
                assert(self.edge_set() =~= edges0.union(scoped_edges(*doc, targets@.take(i + 1))));
            }
            i += 1;
        }
        assert(targets@.take(targets@.len() as int) =~= targets@);
        true
    }

    fn insert_node(&mut self, n: NodeId)
        ensures
            final(self).node_set() == old(self).node_set().insert(n),
            final(self).edge_set() == old(self).edge_set(),
    {
        self.nodes.insert(n.bits());
        proof {
            assert forall|m: NodeId| #[trigger] self.node_set().contains(m) == old(self).node_set().insert(n).contains(m) by {
                if m.bits_view() == n.bits_view() {
                    NodeId::lemma_bits_injective(m, n);
                }
            }
            assert(self.node_set() =~= old(self).node_set().insert(n));
            assert(self.edge_set() =~= old(self).edge_set());
        }
    }

    fn insert_edge(&mut self, e: EdgeId)
        ensures
            final(self).edge_set() == old(self).edge_set().insert(e),
            final(self).node_set() == old(self).node_set(),
    {
        self.edges.insert(e.bits());
        proof {
            assert forall|f: EdgeId| #[trigger] self.edge_set().contains(f) == old(self).edge_set().insert(e).contains(f) by {
                if f.bits_view() == e.bits_view() {
                    EdgeId::lemma_bits_injective(f, e);
                }
            }
            assert(self.edge_set() =~= old(self).edge_set().insert(e));
            assert(self.node_set() =~= old(self).node_set());
        }
    }
}

/// Collects what the geometry targets of `invalidation` touch, or `None`
/// when one of them names a whole surface, which calls for a full rebuild.
pub fn collect_targeted_geometry<N, P, E>(doc: &GraphDoc<N, P, E>, invalidation: &GraphInvalidation) -> (r: Option<
    TargetedGeometry,
>)
    requires
        doc.wf(),
        invalidation.wf(),
    ensures
        r is None <==> has_whole_target(geometry_targets(*invalidation)),
        r matches Some(t) ==> t.node_set() == scoped_nodes(*doc, geometry_targets(*invalidation)) && t.edge_set()
            == scoped_edges(*doc, geometry_targets(*invalidation)),
{
    let mut all = invalidation.iter(GraphInvalidationCause::Graph);
    let mut projection = invalidation.iter(GraphInvalidationCause::Projection);
    let mut routing = invalidation.iter(GraphInvalidationCause::Routing);
    all.append(&mut projection);
    all.append(&mut routing);
    assert(all@ == geometry_targets(*invalidation));
    let mut targets = TargetedGeometry::new();
    if targets.include_all(doc, &all) {
        assert(targets.node_set() =~= scoped_nodes(*doc, all@));
        assert(targets.edge_set() =~= scoped_edges(*doc, all@));
        Some(targets)
    } else {
        None
    }
}

/// Whether an edge drag from `from` may snap to `port`: a live input port
/// other than `from` that `from` is fit to connect to.
pub open spec fn snaps_to<N, P, E>(doc: GraphDoc<N, P, E>, from: PortId, port: PortId) -> bool {
    &&& port != from
    &&& doc.port_map().contains_key(port)
    &&& doc.port_map()[port].direction == PortDirection::Input
    &&& doc.connect_check(from, port) is Ok
}

/// The port an edge-creation preview from `from` snaps to while `hover` is
/// the hovered element, with the policy's answer on connecting there; `None`
/// when the hovered element is no port the drag may snap to.
pub fn preview_snap_target<N, P, E, C: PortCompatibility<N, P, E>>(
    doc: &GraphDoc<N, P, E>,
    from: PortId,
    hover: Option<HitTarget>,
    compatibility: &C,
) -> (r: Option<(PortId, bool)>)
    requires
        doc.wf(),
    ensures
        match r {
            Some((port, compatible)) => hover == Some(HitTarget::Port(port)) && snaps_to(*doc, from, port) && (
            compatibility.obeys_allows_spec() ==> compatible == compatibility.allows(*doc, from, port)),
            None => match hover {
                Some(HitTarget::Port(port)) => !snaps_to(*doc, from, port),
                _ => true,
            },
        },
{
    let port = match hover {
        Some(HitTarget::Port(port)) => port,
        _ => return None,
    };
    if port == from {
        return None;
    }
    let candidate = match doc.port(port) {
        Some(candidate) => candidate,
        None => return None,
    };
    match candidate.direction {
        PortDirection::Input => match doc.can_connect_with(from, port, compatibility) {
            Ok(compatible) => Some((port, compatible)),
            Err(_) => None,
        },
        PortDirection::Output => None,
    }
}

/// How much geometry a rebuild recomputes.
pub enum GeometryRebuild {
    /// Every node bound, port anchor and edge route.
    Full,
    /// Only what the named nodes and edges touch.
    Targeted(TargetedGeometry),
}

/// Which derive phases one rebuild runs.
pub struct RebuildPlan {
    /// Geometry to recompute, if any.
    pub geometry: Option<GeometryRebuild>,
    /// Whether the visible sets are recomputed.
    pub visibility: bool,
    /// Whether the edge-creation preview is recomputed.
    pub preview: bool,
}

impl RebuildPlan {
    /// Whether any phase runs.
    pub open spec fn runs_any(self) -> bool {
        self.geometry is Some || self.visibility || self.preview
    }
}

/// Whether `cause` feeds geometry (graph, projection, routing).
pub open spec fn is_geometry_cause(cause: GraphInvalidationCause) -> bool {
    cause == GraphInvalidationCause::Graph || cause == GraphInvalidationCause::Projection || cause
        == GraphInvalidationCause::Routing
}

/// Whether `cause` feeds visibility (session, viewport, visibility).
pub open spec fn is_visibility_cause(cause: GraphInvalidationCause) -> bool {
    !is_geometry_cause(cause)
}

/// Whether anything is marked for the session, the viewport or visibility.
pub open spec fn has_visibility_cause(inv: GraphInvalidation) -> bool {
    ||| inv.targets(GraphInvalidationCause::Session).len() > 0
    ||| inv.targets(GraphInvalidationCause::Viewport).len() > 0
    ||| inv.targets(GraphInvalidationCause::Visibility).len() > 0
}

/// The revisions a derived graph view was last rebuilt against, and the
/// revision of the derived state itself.
#[derive(Copy, Clone, Debug)]
pub struct DeriveState {
    /// Whether a rebuild has run.
    pub initialized: bool,
    /// The document revision of the last rebuild.
    pub doc_revision: Revision,
    /// The projection revision of the last rebuild.
    pub projection_revision: Revision,
    /// The session revision of the last rebuild.
    pub session_revision: Revision,
    /// Advances on every rebuild that ran a phase.
    pub revision: Revision,
}

impl DeriveState {
    /// Whether geometry must be recomputed: nothing was built yet, the
    /// document or the projection moved on, or a geometry cause is marked.
    pub open spec fn geometry_needed(self, doc_revision: u64, projection_revision: u64, inv: GraphInvalidation) -> bool {
        ||| !self.initialized
        ||| self.doc_revision.value() != doc_revision
        ||| self.projection_revision.value() != projection_revision
        ||| has_geometry_cause(inv)
    }

    /// Whether visibility must be recomputed: geometry must, the session
    /// moved on, or a visibility cause is marked.
    pub open spec fn visibility_needed(
        self,
        doc_revision: u64,
        projection_revision: u64,
        session_revision: u64,
        inv: GraphInvalidation,
    ) -> bool {
        ||| self.geometry_needed(doc_revision, projection_revision, inv)
        ||| self.session_revision.value() != session_revision
        ||| has_visibility_cause(inv)
    }

    /// `g` is the geometry plan for `doc` under `inv`: none when nothing is
    /// needed; a full rebuild when nothing was built yet, when a whole
    /// surface is marked, or when the marks touch nothing; otherwise exactly
    /// what the geometry targets touch.
    pub open spec fn geometry_plan_is<N, P, E>(
        self,
        doc: GraphDoc<N, P, E>,
        projection_revision: u64,
        inv: GraphInvalidation,
        g: Option<GeometryRebuild>,
    ) -> bool {
        let needed = self.geometry_needed(doc.revision_view(), projection_revision, inv);
        let ts = geometry_targets(inv);
        let untouched = scoped_nodes(doc, ts) == Set::<NodeId>::empty() && scoped_edges(doc, ts) == Set::<
            EdgeId,
        >::empty();
        match g {
            None => !needed,
            Some(GeometryRebuild::Full) => needed && (!self.initialized || has_whole_target(ts) || untouched),
            Some(GeometryRebuild::Targeted(t)) => {
                &&& needed
                &&& self.initialized
                &&& !has_whole_target(ts)
                &&& !untouched
                &&& t.node_set() == scoped_nodes(doc, ts)
                &&& t.edge_set() == scoped_edges(doc, ts)
            },
        }
    }

    /// `plan` is the rebuild plan for `doc`, the projection and session
    /// revisions and `inv`.
    pub open spec fn plan_is<N, P, E>(
        self,
        doc: GraphDoc<N, P, E>,
        projection_revision: u64,
        session_revision: u64,
        inv: GraphInvalidation,
        plan: RebuildPlan,
    ) -> bool {
        &&& self.geometry_plan_is(doc, projection_revision, inv, plan.geometry)
        &&& plan.visibility == self.visibility_needed(doc.revision_view(), projection_revision, session_revision, inv)
        &&& plan.preview == (plan.geometry is Some || plan.visibility)
    }

    /// Finishing `plan` took `self` and `inv` to `next` and `inv_next` and
    /// returned `rebuilt`: when a phase ran, the state records the given
    /// revisions and its own revision advances; the causes of the phases
    /// that ran are cleared and the others kept.
    pub open spec fn finished_as(
        self,
        plan: RebuildPlan,
        doc_revision: u64,
        projection_revision: u64,
        session_revision: u64,
        inv: GraphInvalidation,
        next: DeriveState,
        inv_next: GraphInvalidation,
        rebuilt: bool,
    ) -> bool {
        &&& rebuilt == plan.runs_any()
        &&& rebuilt ==> {
            &&& next.initialized
            &&& next.doc_revision.value() == doc_revision
            &&& next.projection_revision.value() == projection_revision
            &&& next.session_revision.value() == session_revision
            &&& next.revision.value() == self.revision.value().wrapping_add(1)
        }
        &&& !rebuilt ==> next == self
        &&& inv_next.wf()
        &&& inv_next.revision_view() == inv.revision_view()
        &&& forall|c: GraphInvalidationCause| #[trigger]
            inv_next.targets(c) == if (plan.geometry is Some && is_geometry_cause(c)) || (plan.visibility
                && is_visibility_cause(c)) {
                Seq::<InvalidationTarget>::empty()
            } else {
                inv.targets(c)
            }
    }

    /// A state from before any rebuild.
    pub fn new() -> (s: Self)
        ensures
            !s.initialized,
            s.doc_revision.value() == 0,
            s.projection_revision.value() == 0,
            s.session_revision.value() == 0,
            s.revision.value() == 0,
    {
        DeriveState {
            initialized: false,
            doc_revision: Revision::new(),
            projection_revision: Revision::new(),
            session_revision: Revision::new(),
            revision: Revision::new(),
        }
    }

    /// Decides how much geometry to recompute for `doc` at
    /// `projection_revision` under `invalidation`.
    pub fn geometry_rebuild_plan<N, P, E>(
        &self,
        doc: &GraphDoc<N, P, E>,
        projection_revision: Revision,
        invalidation: &GraphInvalidation,
    ) -> (r: Option<GeometryRebuild>)
        requires
            doc.wf(),
            invalidation.wf(),
        ensures
            self.geometry_plan_is(*doc, projection_revision.value(), *invalidation, r),
            !self.initialized ==> r == Some(GeometryRebuild::Full),
            r is None <==> {
                &&& self.initialized
                &&& self.doc_revision.value() == doc.revision_view()
                &&& self.projection_revision.value() == projection_revision.value()
                &&& invalidation.targets(GraphInvalidationCause::Graph).len() == 0
                &&& invalidation.targets(GraphInvalidationCause::Projection).len() == 0
                &&& invalidation.targets(GraphInvalidationCause::Routing).len() == 0
            },
    {
        let doc_changed = self.doc_revision.get() != doc.revision().get();
        let projection_changed = self.projection_revision.get() != projection_revision.get();
        let has_geometry_cause = invalidation.has_cause(GraphInvalidationCause::Graph) || invalidation.has_cause(
            GraphInvalidationCause::Projection,
        ) || invalidation.has_cause(GraphInvalidationCause::Routing);
        if !self.initialized {
            return Some(GeometryRebuild::Full);
        }
        if !doc_changed && !projection_changed && !has_geometry_cause {
            return None;
        }
        match collect_targeted_geometry(doc, invalidation) {
            Some(targets) => {
                if targets.is_empty() {
                    Some(GeometryRebuild::Full)
                } else {
                    Some(GeometryRebuild::Targeted(targets))
                }
            },
            None => Some(GeometryRebuild::Full),
        }
    }

    /// Decides which derive phases a rebuild of `doc` runs, given the
    /// current projection and session revisions and `invalidation`.
    pub fn plan_rebuild<N, P, E>(
        &self,
        doc: &GraphDoc<N, P, E>,
        projection_revision: Revision,
        session_revision: Revision,
        invalidation: &GraphInvalidation,
    ) -> (plan: RebuildPlan)
        requires
            doc.wf(),
            invalidation.wf(),
        ensures
            self.plan_is(*doc, projection_revision.value(), session_revision.value(), *invalidation, plan),
            plan.geometry is None <==> {
                &&& self.initialized
                &&& self.doc_revision.value() == doc.revision_view()
                &&& self.projection_revision.value() == projection_revision.value()
                &&& invalidation.targets(GraphInvalidationCause::Graph).len() == 0
                &&& invalidation.targets(GraphInvalidationCause::Projection).len() == 0
                &&& invalidation.targets(GraphInvalidationCause::Routing).len() == 0
            },
            plan.visibility <==> {
                ||| plan.geometry is Some
                ||| !self.initialized
                ||| self.session_revision.value() != session_revision.value()
                ||| invalidation.targets(GraphInvalidationCause::Session).len() > 0
                ||| invalidation.targets(GraphInvalidationCause::Viewport).len() > 0
                ||| invalidation.targets(GraphInvalidationCause::Visibility).len() > 0
            },
            plan.preview == (plan.geometry is Some || plan.visibility),
    {
        let geometry = self.geometry_rebuild_plan(doc, projection_revision, invalidation);
        let geometry_dirty = geometry.is_some();
        let visibility = geometry_dirty || !self.initialized || self.session_revision.get() != session_revision.get()
            || invalidation.has_cause(GraphInvalidationCause::Session) || invalidation.has_cause(
            GraphInvalidationCause::Viewport,
        ) || invalidation.has_cause(GraphInvalidationCause::Visibility);
        let preview = geometry_dirty || visibility;
        RebuildPlan { geometry, visibility, preview }
    }

    /// Records that `plan` ran against the given revisions and clears the
    /// invalidation causes its phases covered; returns whether any phase ran.
    pub fn finish_rebuild(
        &mut self,
        plan: &RebuildPlan,
        doc_revision: Revision,
        projection_revision: Revision,
        session_revision: Revision,
        invalidation: &mut GraphInvalidation,
    ) -> (rebuilt: bool)
        requires
            old(invalidation).wf(),
        ensures
            old(self).finished_as(
                *plan,
                doc_revision.value(),
                projection_revision.value(),
                session_revision.value(),
                *old(invalidation),
                *final(self),
                *final(invalidation),
                rebuilt,
            ),
    {
        let geometry_dirty = plan.geometry.is_some();
        let rebuilt = geometry_dirty || plan.visibility || plan.preview;
        if rebuilt {
            self.initialized = true;
            self.doc_revision = doc_revision;
            self.projection_revision = projection_revision;
            self.session_revision = session_revision;
            self.revision.bump();
        }
        if geometry_dirty {
            invalidation.clear(GraphInvalidationCause::Graph);
            invalidation.clear(GraphInvalidationCause::Projection);
            invalidation.clear(GraphInvalidationCause::Routing);
        }
        if plan.visibility {
            invalidation.clear(GraphInvalidationCause::Session);
            invalidation.clear(GraphInvalidationCause::Viewport);
            invalidation.clear(GraphInvalidationCause::Visibility);
        }
        proof {
            assert forall|c: GraphInvalidationCause| #[trigger]
                invalidation.targets(c) == if (plan.geometry is Some && is_geometry_cause(c)) || (plan.visibility
                    && is_visibility_cause(c)) {
                    Seq::<InvalidationTarget>::empty()
                } else {
                    old(invalidation).targets(c)
                } by {
                match c {
                    GraphInvalidationCause::Graph => {},
                    GraphInvalidationCause::Projection => {},
                    GraphInvalidationCause::Session => {},
                    GraphInvalidationCause::Viewport => {},
                    GraphInvalidationCause::Routing => {},
                    GraphInvalidationCause::Visibility => {},
                }
            }
        }
        rebuilt
    }
}

/// The notices for the targets marked by `cause`, in marking order.
pub open spec fn cause_notices(inv: GraphInvalidation, cause: GraphInvalidationCause) -> Seq<
    (GraphInvalidationCause, InvalidationTarget),
> {
    inv.targets(cause).map_values(|t: InvalidationTarget| (cause, t))
}

/// The notices for every marked target, cause by cause in the order graph,
/// projection, session, viewport, routing, visibility.
pub open spec fn invalidation_notices(inv: GraphInvalidation) -> Seq<(GraphInvalidationCause, InvalidationTarget)> {
    cause_notices(inv, GraphInvalidationCause::Graph) + cause_notices(inv, GraphInvalidationCause::Projection)
        + cause_notices(inv, GraphInvalidationCause::Session) + cause_notices(inv, GraphInvalidationCause::Viewport)
        + cause_notices(inv, GraphInvalidationCause::Routing) + cause_notices(inv, GraphInvalidationCause::Visibility)
}

/// The notices name exactly the marked targets, each with the cause that
/// marked it, and there is one notice per mark.
pub proof fn lemma_notices_are_marks(inv: GraphInvalidation)
    ensures
        forall|c: GraphInvalidationCause, t: InvalidationTarget| #[trigger] invalidation_notices(inv).contains((c, t))
            <==> inv.targets(c).contains(t),
        invalidation_notices(inv).len() == inv.targets(GraphInvalidationCause::Graph).len() + inv.targets(
            GraphInvalidationCause::Projection,
        ).len() + inv.targets(GraphInvalidationCause::Session).len() + inv.targets(GraphInvalidationCause::Viewport).len()
            + inv.targets(GraphInvalidationCause::Routing).len() + inv.targets(GraphInvalidationCause::Visibility).len(),
{
    let causes = seq![
        GraphInvalidationCause::Graph,
        GraphInvalidationCause::Projection,
        GraphInvalidationCause::Session,
        GraphInvalidationCause::Viewport,
        GraphInvalidationCause::Routing,
        GraphInvalidationCause::Visibility,
    ];
    assert forall|c: GraphInvalidationCause, t: InvalidationTarget| #[trigger] invalidation_notices(inv).contains((c, t))
        <==> inv.targets(c).contains(t) by {
        let all = invalidation_notices(inv);
        if inv.targets(c).contains(t) {
            let m = choose|m: int| 0 <= m < inv.targets(c).len() && inv.targets(c)[m] == t;
            assert(cause_notices(inv, c)[m] == (c, t));
            assert(cause_notices(inv, c).contains((c, t)));
            let n0 = cause_notices(inv, causes[0]).len() as int;
            let n1 = n0 + cause_notices(inv, causes[1]).len();
            let n2 = n1 + cause_notices(inv, causes[2]).len();
            let n3 = n2 + cause_notices(inv, causes[3]).len();
            let n4 = n3 + cause_notices(inv, causes[4]).len();
            let at = match c {
                GraphInvalidationCause::Graph => m,
                GraphInvalidationCause::Projection => n0 + m,
                GraphInvalidationCause::Session => n1 + m,
                GraphInvalidationCause::Viewport => n2 + m,
                GraphInvalidationCause::Routing => n3 + m,
                GraphInvalidationCause::Visibility => n4 + m,
            };
            assert(all[at] == (c, t));
            assert(all.contains((c, t)));
        }
        if all.contains((c, t)) {
            let q = choose|q: int| 0 <= q < all.len() && all[q] == (c, t);
            assert(exists|k: int| 0 <= k < 6 && #[trigger] cause_notices(inv, causes[k]).contains((c, t))) by {
                let n0 = cause_notices(inv, causes[0]).len();
                let n1 = n0 + cause_notices(inv, causes[1]).len();
                let n2 = n1 + cause_notices(inv, causes[2]).len();
                let n3 = n2 + cause_notices(inv, causes[3]).len();
                let n4 = n3 + cause_notices(inv, causes[4]).len();
                if q < n0 {
                    assert(cause_notices(inv, causes[0])[q] == all[q]);
                } else if q < n1 {
                    assert(cause_notices(inv, causes[1])[q - n0] == all[q]);
                } else if q < n2 {
                    assert(cause_notices(inv, causes[2])[q - n1] == all[q]);
                } else if q < n3 {
                    assert(cause_notices(inv, causes[3])[q - n2] == all[q]);
                } else if q < n4 {
                    assert(cause_notices(inv, causes[4])[q - n3] == all[q]);
                } else {
                    assert(cause_notices(inv, causes[5])[q - n4] == all[q]);
                }
            }
            let k = choose|k: int| 0 <= k < 6 && #[trigger] cause_notices(inv, causes[k]).contains((c, t));
            let cn = cause_notices(inv, causes[k]);
            let p = choose|p: int| 0 <= p < cn.len() && cn[p] == (c, t);
            assert(causes[k] == c);
            assert(inv.targets(c)[p] == t);
        }
    }
}

/// Reports every target marked by `cause` to `observer`, in marking order.
fn notify_cause<O: GraphDeriveObserver + ?Sized>(invalidation: &GraphInvalidation, cause: GraphInvalidationCause, observer: &mut O)
    requires
        invalidation.wf(),
    ensures
        old(observer).obeys_notice_log_spec() ==> final(observer).obeys_notice_log_spec()
            && final(observer).notices() == old(observer).notices() + cause_notices(*invalidation, cause),
{
    let targets = invalidation.iter(cause);
    let ghost logs = old(observer).obeys_notice_log_spec();
    let mut i: usize = 0;
    proof {
        if logs {
            assert(old(observer).notices() + targets@.take(0).map_values(|t: InvalidationTarget| (cause, t))
                =~= old(observer).notices());
        }
    }
    while i < targets.len()
        invariant
            i <= targets@.len(),
            targets@ == invalidation.targets(cause),
            logs == old(observer).obeys_notice_log_spec(),
            logs ==> observer.obeys_notice_log_spec() && observer.notices() == old(observer).notices()
                + targets@.take(i as int).map_values(|t: InvalidationTarget| (cause, t)),
        decreases targets.len() - i,
    {
        observer.invalidated(cause, targets[i]);
        proof {
            if logs {
                assert(targets@.take(i + 1).map_values(|t: InvalidationTarget| (cause, t)) =~= targets@.take(
                    i as int,
                ).map_values(|t: InvalidationTarget| (cause, t)).push((cause, targets@[i as int])));
                assert(observer.notices() =~= old(observer).notices() + targets@.take(i + 1).map_values(
                    |t: InvalidationTarget| (cause, t),
                ));
            }
        }
        i += 1;
    }
    proof {
        assert(targets@.take(i as int) =~= targets@);
    }
}

/// Reports every marked target, cause by cause in the order graph,
/// projection, session, viewport, routing, visibility, to `observer`: an
/// observer that logs what it is told receives exactly
/// `invalidation_notices`, one call per marked target.
pub fn notify_invalidated<O: GraphDeriveObserver + ?Sized>(invalidation: &GraphInvalidation, observer: &mut O)
    requires
        invalidation.wf(),
    ensures
        old(observer).obeys_notice_log_spec() ==> final(observer).obeys_notice_log_spec()
            && final(observer).notices() == old(observer).notices() + invalidation_notices(*invalidation),
{
    let ghost start = old(observer).notices();
    notify_cause(invalidation, GraphInvalidationCause::Graph, observer);
    notify_cause(invalidation, GraphInvalidationCause::Projection, observer);
    notify_cause(invalidation, GraphInvalidationCause::Session, observer);
    notify_cause(invalidation, GraphInvalidationCause::Viewport, observer);
    notify_cause(invalidation, GraphInvalidationCause::Routing, observer);
    notify_cause(invalidation, GraphInvalidationCause::Visibility, observer);
    proof {
        if old(observer).obeys_notice_log_spec() {
            let inv = *invalidation;
            assert(observer.notices() =~= start + invalidation_notices(inv));
        }
    }
}

/// A plan made when nothing was built yet, or when the document or the
/// projection moved on since the last rebuild, recomputes geometry, then
/// visibility and the preview.
pub proof fn lemma_moved_on_rebuilds<N, P, E>(
    state: DeriveState,
    doc: GraphDoc<N, P, E>,
    projection_revision: u64,
    session_revision: u64,
    inv: GraphInvalidation,
    plan: RebuildPlan,
)
    requires
        state.plan_is(doc, projection_revision, session_revision, inv, plan),
        !state.initialized || state.doc_revision.value() != doc.revision_view() || state.projection_revision.value()
            != projection_revision,
    ensures
        plan.geometry is Some,
        plan.visibility,
        plan.preview,
        !state.initialized ==> plan.geometry == Some(GeometryRebuild::Full),
{
}

/// A plan made after a rebuild, against the same document, projection and
/// session revisions, with no cause marked, runs no phase.
pub proof fn lemma_unchanged_rebuilds_nothing<N, P, E>(
    state: DeriveState,
    doc: GraphDoc<N, P, E>,
    projection_revision: u64,
    session_revision: u64,
    inv: GraphInvalidation,
    plan: RebuildPlan,
)
    requires
        state.plan_is(doc, projection_revision, session_revision, inv, plan),
        state.initialized,
        state.doc_revision.value() == doc.revision_view(),
        state.projection_revision.value() == projection_revision,
        state.session_revision.value() == session_revision,
        forall|c: GraphInvalidationCause| #[trigger] inv.targets(c).len() == 0,
    ensures
        plan.geometry is None,
        !plan.visibility,
        !plan.preview,
{
    assert(inv.targets(GraphInvalidationCause::Graph).len() == 0);
    assert(inv.targets(GraphInvalidationCause::Projection).len() == 0);
    assert(inv.targets(GraphInvalidationCause::Routing).len() == 0);
    assert(inv.targets(GraphInvalidationCause::Session).len() == 0);
    assert(inv.targets(GraphInvalidationCause::Viewport).len() == 0);
    assert(inv.targets(GraphInvalidationCause::Visibility).len() == 0);
}

/// Rebuilding settles: once the phases a plan calls for have run and been
/// recorded, planning again against the same document, projection and
/// session revisions, with no new marks, runs no phase.
pub proof fn lemma_rebuild_settles<N, P, E>(
    state: DeriveState,
    doc: GraphDoc<N, P, E>,
    projection_revision: u64,
    session_revision: u64,
    inv: GraphInvalidation,
    plan: RebuildPlan,
    next: DeriveState,
    inv_next: GraphInvalidation,
    rebuilt: bool,
    again: RebuildPlan,
)
    requires
        doc.wf(),
        inv.wf(),
        state.plan_is(doc, projection_revision, session_revision, inv, plan),
        state.finished_as(
            plan,
            doc.revision_view(),
            projection_revision,
            session_revision,
            inv,
            next,
            inv_next,
            rebuilt,
        ),
        next.plan_is(doc, projection_revision, session_revision, inv_next, again),
    ensures
        !again.runs_any(),
{
    assert(inv_next.targets(GraphInvalidationCause::Graph).len() == 0);
    assert(inv_next.targets(GraphInvalidationCause::Projection).len() == 0);
    assert(inv_next.targets(GraphInvalidationCause::Routing).len() == 0);
    assert(inv_next.targets(GraphInvalidationCause::Session).len() == 0);
    assert(inv_next.targets(GraphInvalidationCause::Viewport).len() == 0);
    assert(inv_next.targets(GraphInvalidationCause::Visibility).len() == 0);
}

} // verus!
