use vstd::prelude::*;

use super::compatibility::{ConnectionContext, PortCompatibility};
use super::arena::{by_id, key, lemma_by_id_insert, lemma_by_id_remove, Arena};
use super::ids::{ArenaId, EdgeId, NodeId, PortId};
use super::revision::Revision;
use crate::dirty::graph::{lemma_push_contains, lemma_push_fresh};
use crate::dirty::set::{lemma_seq_remove_key, seq_remove_key, vec_remove_key};

verus! {

/// Stored data for a node.
#[derive(Clone, Debug, Default)]
pub struct NodeData<M> {
    /// Host-defined node metadata.
    pub meta: M,
}

/// Direction of a port.
#[derive(Copy, Clone, Debug, PartialEq, Eq, Structural, Hash)]
pub enum PortDirection {
    /// Accepts incoming edges.
    Input,
    /// Emits outgoing edges.
    Output,
}

/// Stored data for a port.
#[derive(Clone, Debug)]
pub struct PortData<M> {
    /// The node that owns this port.
    pub owner: NodeId,
    /// Whether edges leave or enter through this port.
    pub direction: PortDirection,
    /// Host-defined port metadata.
    pub meta: M,
}

/// Stored data for an edge.
#[derive(Clone, Debug)]
pub struct EdgeData<M> {
    /// The output port the edge leaves from.
    pub output: PortId,
    /// The input port the edge enters.
    pub input: PortId,
    /// Host-defined edge metadata.
    pub meta: M,
}

#[derive(Clone, Debug)]
struct NodeRecord<M> {
    data: NodeData<M>,
    ports: Vec<PortId>,
}

#[derive(Clone, Debug)]
struct PortRecord<M> {
    data: PortData<M>,
    edges: Vec<EdgeId>,
}

/// Why an edge could not be created.
#[derive(Copy, Clone, Debug, PartialEq, Eq, Structural)]
pub enum ConnectError {
    /// The referenced port does not exist.
    MissingPort(PortId),
    /// The ports are not an output and an input, in that order.
    DirectionMismatch,
}

/// The edge `e` starts or ends at port `p`.
pub open spec fn touches<E>(d: EdgeData<E>, p: PortId) -> bool {
    d.output == p || d.input == p
}

/// A graph document: nodes, their typed ports, and edges from output ports
/// to input ports, all addressed by stable generational ids.
///
/// Removing a node removes its ports; removing a port removes its edges.
/// Every change advances the revision.
#[derive(Clone)]
pub struct GraphDoc<N, P, E> {
    nodes: Arena<NodeRecord<N>>,
    ports: Arena<PortRecord<P>>,
    edges: Arena<EdgeData<E>>,
    revision: Revision,
}

impl<N, P, E> GraphDoc<N, P, E> {
    /// The live nodes and their data.
    pub closed spec fn node_map(self) -> Map<NodeId, NodeData<N>> {
        by_id::<NodeId, NodeRecord<N>>(self.nodes.view()).map_values(|r: NodeRecord<N>| r.data)
    }

    /// The ports of each live node, in insertion order.
    pub closed spec fn node_ports_map(self) -> Map<NodeId, Seq<PortId>> {
        by_id::<NodeId, NodeRecord<N>>(self.nodes.view()).map_values(|r: NodeRecord<N>| r.ports@)
    }

    /// The live ports and their data.
    pub closed spec fn port_map(self) -> Map<PortId, PortData<P>> {
        by_id::<PortId, PortRecord<P>>(self.ports.view()).map_values(|r: PortRecord<P>| r.data)
    }

    /// The edges of each live port, in insertion order.
    pub closed spec fn port_edges_map(self) -> Map<PortId, Seq<EdgeId>> {
        by_id::<PortId, PortRecord<P>>(self.ports.view()).map_values(|r: PortRecord<P>| r.edges@)
    }

    /// The live edges and their data.
    pub closed spec fn edge_map(self) -> Map<EdgeId, EdgeData<E>> {
        by_id::<EdgeId, EdgeData<E>>(self.edges.view())
    }

    /// The generation the node slot `slot` is at: a live node in it has
    /// this generation, and the next node put there gets it.
    pub closed spec fn node_generation(self, slot: u32) -> u32 {
        self.nodes.generation_of(slot)
    }

    /// A live node's generation is its slot's generation.
    pub proof fn lemma_live_node_generation(self, node: NodeId)
        requires
            self.node_map().contains_key(node),
        ensures
            self.node_generation(node.slot()) == node.generation_view(),
    {
        self.nodes.lemma_live_generation(node);
    }

    /// The revision number.
    pub closed spec fn revision_view(self) -> u64 {
        self.revision.value()
    }

    /// The number of live nodes.
    pub closed spec fn node_total(self) -> nat {
        self.nodes.count()
    }

    /// The number of live ports.
    pub closed spec fn port_total(self) -> nat {
        self.ports.count()
    }

    /// The number of live edges.
    pub closed spec fn edge_total(self) -> nat {
        self.edges.count()
    }

    /// Internal consistency of the storage.
    pub closed spec fn storage_wf(self) -> bool {
        self.nodes.wf() && self.ports.wf() && self.edges.wf()
    }

    /// Referential integrity: ports belong to live nodes and are listed by
    /// them; edges join a live output port to a live input port and are
    /// listed by both; every listed id is live and points back.
    pub open spec fn wf(self) -> bool {
        &&& self.storage_wf()
        &&& self.node_ports_map().dom() == self.node_map().dom()
        &&& self.port_edges_map().dom() == self.port_map().dom()
        &&& forall|n: NodeId| #[trigger] self.node_map().contains_key(n) ==> self.node_ports_map()[n].no_duplicates()
        &&& forall|n: NodeId, p: PortId| self.node_map().contains_key(n) && #[trigger] self.node_ports_map()[n].contains(p)
            ==> self.port_map().contains_key(p) && self.port_map()[p].owner == n
        &&& forall|p: PortId| #[trigger] self.port_map().contains_key(p)
            ==> self.node_map().contains_key(self.port_map()[p].owner) && self.node_ports_map()[self.port_map()[p].owner].contains(p)
        &&& forall|p: PortId| #[trigger] self.port_map().contains_key(p) ==> self.port_edges_map()[p].no_duplicates()
        &&& forall|p: PortId, e: EdgeId| self.port_map().contains_key(p) && #[trigger] self.port_edges_map()[p].contains(e)
            ==> self.edge_map().contains_key(e) && touches(self.edge_map()[e], p)
        &&& forall|e: EdgeId| #[trigger] self.edge_map().contains_key(e) ==> {
            let d = self.edge_map()[e];
            &&& self.port_map().contains_key(d.output)
            &&& self.port_map().contains_key(d.input)
            &&& self.port_edges_map()[d.output].contains(e)
            &&& self.port_edges_map()[d.input].contains(e)
            &&& self.port_map()[d.output].direction == PortDirection::Output
            &&& self.port_map()[d.input].direction == PortDirection::Input
        }
    }

    /// `new` is `self` with the fresh node `id` added with `data` and no
    /// ports; nothing else changes.
    pub open spec fn node_added(self, new: Self, id: NodeId, data: NodeData<N>) -> bool {
        &&& !self.node_map().contains_key(id)
        &&& new.node_map() == self.node_map().insert(id, data)
        &&& new.node_ports_map() == self.node_ports_map().insert(id, Seq::<PortId>::empty())
        &&& new.port_map() == self.port_map()
        &&& new.port_edges_map() == self.port_edges_map()
        &&& new.edge_map() == self.edge_map()
    }

    /// `new` is `self` with the fresh edge `edge` added with `data` and
    /// appended to the edge lists of both of its ports; nothing else changes.
    pub open spec fn edge_added(self, new: Self, edge: EdgeId, data: EdgeData<E>) -> bool {
        &&& !self.edge_map().contains_key(edge)
        &&& new.edge_map() == self.edge_map().insert(edge, data)
        &&& new.port_edges_map() == self.port_edges_map()
            .insert(data.output, self.port_edges_map()[data.output].push(edge))
            .insert(data.input, self.port_edges_map()[data.input].push(edge))
        &&& new.node_map() == self.node_map()
        &&& new.node_ports_map() == self.node_ports_map()
        &&& new.port_map() == self.port_map()
    }

    /// `new` is `self` without the live edge `edge` (whose data was `d`),
    /// which is also dropped from the edge lists of its ports; nothing else
    /// changes.
    pub open spec fn edge_removed(self, new: Self, edge: EdgeId, d: EdgeData<E>) -> bool {
        &&& self.edge_map().contains_key(edge)
        &&& d == self.edge_map()[edge]
        &&& new.edge_map() == self.edge_map().remove(edge)
        &&& new.port_edges_map() == self.port_edges_map()
            .insert(d.output, seq_remove_key(self.port_edges_map()[d.output], edge))
            .insert(d.input, seq_remove_key(self.port_edges_map()[d.input], edge))
        &&& new.node_map() == self.node_map()
        &&& new.node_ports_map() == self.node_ports_map()
        &&& new.port_map() == self.port_map()
    }

    /// `new` is `self` without the live node `node` (whose data was `d`),
    /// its ports, and every edge at one of them; the surviving ports keep
    /// their data and lose exactly those edges from their lists.
    pub open spec fn node_removed(self, new: Self, node: NodeId, d: NodeData<N>) -> bool {
        &&& new.revision_view() as int == (self.revision_view() + (self.edge_total() - new.edge_total())
            + self.node_ports_map()[node].len() + 1) % 0x1_0000_0000_0000_0000
        &&& new.edge_total() <= self.edge_total()
        &&& self.node_map().contains_key(node)
        &&& d == self.node_map()[node]
        &&& new.node_map() == self.node_map().remove(node)
        &&& new.node_ports_map() == self.node_ports_map().remove(node)
        &&& forall|p: PortId| #[trigger] new.port_map().contains_key(p)
            <==> (self.port_map().contains_key(p) && self.port_map()[p].owner != node)
        &&& forall|p: PortId| #[trigger] new.port_map().contains_key(p) ==> new.port_map()[p] == self.port_map()[p]
        &&& forall|e: EdgeId| #[trigger] new.edge_map().contains_key(e)
            <==> (self.edge_map().contains_key(e) && !self.edge_at_node(e, node))
        &&& forall|e: EdgeId| #[trigger] new.edge_map().contains_key(e) ==> new.edge_map()[e] == self.edge_map()[e]
        &&& forall|q: PortId, x: EdgeId|
            #![trigger new.port_edges_map()[q].contains(x)]
            new.port_map().contains_key(q) ==> (new.port_edges_map()[q].contains(x)
                <==> (self.port_edges_map()[q].contains(x) && !self.edge_at_node(x, node)))
    }

    /// Creates an empty document at revision zero.
    pub fn new() -> (d: Self)
        ensures
            d.wf(),
            d.node_map() == Map::<NodeId, NodeData<N>>::empty(),
            d.port_map() == Map::<PortId, PortData<P>>::empty(),
            d.edge_map() == Map::<EdgeId, EdgeData<E>>::empty(),
            d.revision_view() == 0,
            d.node_total() == 0,
            d.port_total() == 0,
            d.edge_total() == 0,
    {
        let d = GraphDoc { nodes: Arena::new(), ports: Arena::new(), edges: Arena::new(), revision: Revision::new() };
        proof {
            assert(d.node_map() =~= Map::<NodeId, NodeData<N>>::empty());
            assert(d.node_ports_map() =~= Map::<NodeId, Seq<PortId>>::empty());
            assert(d.port_map() =~= Map::<PortId, PortData<P>>::empty());
            assert(d.port_edges_map() =~= Map::<PortId, Seq<EdgeId>>::empty());
            assert(d.edge_map() =~= Map::<EdgeId, EdgeData<E>>::empty());
        }
        d
    }

    /// The current revision.
    pub fn revision(&self) -> (r: Revision)
        ensures
            r.value() == self.revision_view(),
    {
        self.revision
    }

    /// The number of live nodes.
    pub fn node_count(&self) -> (r: usize)
        ensures
            r == self.node_total(),
    {
        self.nodes.len()
    }

    /// The number of live ports.
    pub fn port_count(&self) -> (r: usize)
        ensures
            r == self.port_total(),
    {
        self.ports.len()
    }

    /// The number of live edges.
    pub fn edge_count(&self) -> (r: usize)
        ensures
            r == self.edge_total(),
    {
        self.edges.len()
    }

    /// Returns `true` if `node` is live.
    pub fn contains_node(&self, node: NodeId) -> (r: bool)
        requires
            self.wf(),
        ensures
            r == self.node_map().contains_key(node),
    {
        self.nodes.contains(node)
    }

    /// Returns `true` if `port` is live.
    pub fn contains_port(&self, port: PortId) -> (r: bool)
        requires
            self.wf(),
        ensures
            r == self.port_map().contains_key(port),
    {
        self.ports.contains(port)
    }

    /// Returns `true` if `edge` is live.
    pub fn contains_edge(&self, edge: EdgeId) -> (r: bool)
        requires
            self.wf(),
        ensures
            r == self.edge_map().contains_key(edge),
    {
        self.edges.contains(edge)
    }

    /// The data of `node`, if it is live.
    pub fn node(&self, node: NodeId) -> (r: Option<&NodeData<N>>)
        requires
            self.wf(),
        ensures
            r == if self.node_map().contains_key(node) { Some(&self.node_map()[node]) } else { None },
    {
        match self.nodes.get(node) {
            Some(record) => Some(&record.data),
            None => None,
        }
    }

    /// The data of `port`, if it is live.
    pub fn port(&self, port: PortId) -> (r: Option<&PortData<P>>)
        requires
            self.wf(),
        ensures
            r == if self.port_map().contains_key(port) { Some(&self.port_map()[port]) } else { None },
    {
        match self.ports.get(port) {
            Some(record) => Some(&record.data),
            None => None,
        }
    }

    /// The data of `edge`, if it is live.
    pub fn edge(&self, edge: EdgeId) -> (r: Option<&EdgeData<E>>)
        requires
            self.wf(),
        ensures
            r == if self.edge_map().contains_key(edge) { Some(&self.edge_map()[edge]) } else { None },
    {
        self.edges.get(edge)
    }

    /// The ports of `node` in insertion order, if it is live.
    pub fn node_ports(&self, node: NodeId) -> (r: Option<&[PortId]>)
        requires
            self.wf(),
        ensures
            match r {
                Some(s) => self.node_map().contains_key(node) && s@ == self.node_ports_map()[node],
                None => !self.node_map().contains_key(node),
            },
    {
        match self.nodes.get(node) {
            Some(record) => Some(record.ports.as_slice()),
            None => None,
        }
    }

    /// The edges of `port` in insertion order, if it is live.
    pub fn port_edges(&self, port: PortId) -> (r: Option<&[EdgeId]>)
        requires
            self.wf(),
        ensures
            match r {
                Some(s) => self.port_map().contains_key(port) && s@ == self.port_edges_map()[port],
                None => !self.port_map().contains_key(port),
            },
    {
        match self.ports.get(port) {
            Some(record) => Some(record.edges.as_slice()),
            None => None,
        }
    }

    /// Adds a node with no ports and returns its fresh id.
    pub fn add_node(&mut self, data: NodeData<N>) -> (id: NodeId)
        requires
            old(self).wf(),
            old(self).node_total() <= u32::MAX,
        ensures
            final(self).wf(),
            old(self).node_added(*final(self), id, data),
            final(self).revision_view() == old(self).revision_view().wrapping_add(1),
            final(self).node_total() == old(self).node_total() + 1,
            final(self).port_total() == old(self).port_total(),
            final(self).edge_total() == old(self).edge_total(),
            id.generation_view() == old(self).node_generation(id.slot()),
            forall|s: u32| #[trigger] final(self).node_generation(s) == old(self).node_generation(s),
    {
        self.revision.bump();
        proof {
            self.nodes.lemma_room();
        }
        let record = NodeRecord { data, ports: Vec::new() };
        let ghost rec = record;
        let id: NodeId = self.nodes.insert(record);
        proof {
            lemma_by_id_insert::<NodeId, NodeRecord<N>>(old(self).nodes.view(), id, rec);
            assert(self.node_map() =~= old(self).node_map().insert(id, rec.data));
            assert(self.node_ports_map() =~= old(self).node_ports_map().insert(id, rec.ports@));
        }
        id
    }

    /// Adds a port to `owner` and returns its fresh id, or `None` if `owner`
    /// is not live.
    pub fn add_port(&mut self, owner: NodeId, direction: PortDirection, meta: P) -> (r: Option<PortId>)
        requires
            old(self).wf(),
            old(self).port_total() <= u32::MAX,
        ensures
            final(self).wf(),
            final(self).node_map() == old(self).node_map(),
            final(self).edge_map() == old(self).edge_map(),
            final(self).node_total() == old(self).node_total(),
            final(self).edge_total() == old(self).edge_total(),
            match r {
                None => {
                    &&& !old(self).node_map().contains_key(owner)
                    &&& final(self).node_ports_map() == old(self).node_ports_map()
                    &&& final(self).port_map() == old(self).port_map()
                    &&& final(self).port_edges_map() == old(self).port_edges_map()
                    &&& final(self).revision_view() == old(self).revision_view()
                    &&& final(self).port_total() == old(self).port_total()
                },
                Some(port) => {
                    &&& old(self).node_map().contains_key(owner)
                    &&& !old(self).port_map().contains_key(port)
                    &&& final(self).port_map() == old(self).port_map().insert(port, PortData { owner, direction, meta })
                    &&& final(self).port_edges_map() == old(self).port_edges_map().insert(port, Seq::<EdgeId>::empty())
                    &&& final(self).node_ports_map() == old(self).node_ports_map().insert(owner, old(self).node_ports_map()[owner].push(port))
                    &&& final(self).revision_view() == old(self).revision_view().wrapping_add(1)
                    &&& final(self).port_total() == old(self).port_total() + 1
                },
            },
            forall|s: u32| #[trigger] final(self).node_generation(s) == old(self).node_generation(s),
    {
        let ghost g0 = *self;
        match self.nodes.get_mut(owner) {
            None => None,
            Some(node) => {
                proof {
                    self.ports.lemma_room();
                }
                let record = PortRecord { data: PortData { owner, direction, meta }, edges: Vec::new() };
                let ghost rec = record;
                let port: PortId = self.ports.insert(record);
                let ghost old_list = node.ports@;
                proof {
                    assert(g0.node_map().contains_key(owner));
                    assert(old_list == g0.node_ports_map()[owner]);
                    assert(!g0.port_map().contains_key(port));
                    assert(!old_list.contains(port));
                    lemma_push_fresh(old_list, port);
                }
                node.ports.push(port);
                let ghost new_node = *node;
                self.revision.bump();
                proof {
                    let k = owner;
                    lemma_by_id_insert::<PortId, PortRecord<P>>(g0.ports.view(), port, rec);
                    lemma_by_id_insert::<NodeId, NodeRecord<N>>(g0.nodes.view(), owner, new_node);
                    assert(self.port_map() =~= g0.port_map().insert(port, rec.data));
                    assert(self.port_edges_map() =~= g0.port_edges_map().insert(port, rec.edges@));
                    assert(self.node_ports_map() =~= g0.node_ports_map().insert(owner, old_list.push(port)));
                    assert(self.node_map() =~= g0.node_map());
                }
                Some(port)
            },
        }
    }

    /// Why connecting `output` to `input` is refused, if it is.
    pub open spec fn connect_check(self, output: PortId, input: PortId) -> Result<(), ConnectError> {
        if !self.port_map().contains_key(output) {
            Err(ConnectError::MissingPort(output))
        } else if !self.port_map().contains_key(input) {
            Err(ConnectError::MissingPort(input))
        } else if self.port_map()[output].direction != PortDirection::Output
            || self.port_map()[input].direction != PortDirection::Input {
            Err(ConnectError::DirectionMismatch)
        } else {
            Ok(())
        }
    }

    /// The two port records an edge from `output` to `input` would join.
    fn connect_endpoints(&self, output: PortId, input: PortId) -> (r: Result<(&PortData<P>, &PortData<P>), ConnectError>)
        requires
            self.wf(),
        ensures
            match r {
                Ok(ports) => self.connect_check(output, input) is Ok
                    && *ports.0 == self.port_map()[output] && *ports.1 == self.port_map()[input],
                Err(e) => self.connect_check(output, input) == Err::<(), ConnectError>(e),
            },
    {
        let output_port = match self.port(output) {
            Some(p) => p,
            None => return Err(ConnectError::MissingPort(output)),
        };
        let input_port = match self.port(input) {
            Some(p) => p,
            None => return Err(ConnectError::MissingPort(input)),
        };
        if output_port.direction != PortDirection::Output || input_port.direction != PortDirection::Input {
            return Err(ConnectError::DirectionMismatch);
        }
        Ok((output_port, input_port))
    }

    /// Adds an edge from the output port `output` to the input port `input`
    /// and returns its fresh id; fails if a port is missing or the directions
    /// are wrong.
    pub fn add_edge(&mut self, output: PortId, input: PortId, meta: E) -> (r: Result<EdgeId, ConnectError>)
        requires
            old(self).wf(),
            old(self).edge_total() <= u32::MAX,
        ensures
            final(self).wf(),
            final(self).node_map() == old(self).node_map(),
            final(self).node_ports_map() == old(self).node_ports_map(),
            final(self).port_map() == old(self).port_map(),
            final(self).node_total() == old(self).node_total(),
            final(self).port_total() == old(self).port_total(),
            match r {
                Err(e) => {
                    &&& old(self).connect_check(output, input) == Err::<(), ConnectError>(e)
                    &&& final(self).port_edges_map() == old(self).port_edges_map()
                    &&& final(self).edge_map() == old(self).edge_map()
                    &&& final(self).revision_view() == old(self).revision_view()
                    &&& final(self).edge_total() == old(self).edge_total()
                },
                Ok(edge) => {
                    &&& old(self).connect_check(output, input) is Ok
                    &&& old(self).edge_added(*final(self), edge, EdgeData { output, input, meta })
                    &&& final(self).revision_view() == old(self).revision_view().wrapping_add(1)
                    &&& final(self).edge_total() == old(self).edge_total() + 1
                },
            },
            forall|s: u32| #[trigger] final(self).node_generation(s) == old(self).node_generation(s),
    {
        match self.connect_endpoints(output, input) {
            Err(e) => {
                return Err(e);
            },
            Ok(_) => {},
        }
        let ghost g0 = *self;
        proof {
            self.edges.lemma_room();
        }
        let data = EdgeData { output, input, meta };
        let ghost d = data;
        let edge: EdgeId = self.edges.insert(data);
        proof {
            assert(!g0.edge_map().contains_key(edge));
            lemma_by_id_insert::<EdgeId, EdgeData<E>>(g0.edges.view(), edge, d);
            assert(self.edge_map() =~= g0.edge_map().insert(edge, d));
            assert(output != input);
        }
        let ghost g1 = *self;
        match self.ports.get_mut(output) {
            Some(record) => {
                let ghost old_list = record.edges@;
                proof {
                    assert(old_list == g0.port_edges_map()[output]);
                    assert(!old_list.contains(edge));
                    lemma_push_fresh(old_list, edge);
                }
                record.edges.push(edge);
                let ghost new_record = *record;
                proof {
                    lemma_by_id_insert::<PortId, PortRecord<P>>(g1.ports.view(), output, new_record);
                }
            },
            None => {
                proof {
                    assert(false);
                }
            },
        }
        let ghost g2 = *self;
        proof {
            assert(g2.port_map() =~= g0.port_map());
            assert(g2.port_edges_map() =~= g0.port_edges_map().insert(output, g0.port_edges_map()[output].push(edge)));
        }
        match self.ports.get_mut(input) {
            Some(record) => {
                let ghost old_list = record.edges@;
                proof {
                    assert(old_list == g0.port_edges_map()[input]);
                    assert(!old_list.contains(edge));
                    lemma_push_fresh(old_list, edge);
                }
                record.edges.push(edge);
                let ghost new_record = *record;
                proof {
                    lemma_by_id_insert::<PortId, PortRecord<P>>(g2.ports.view(), input, new_record);
                }
            },
            None => {
                proof {
                    assert(false);
                }
            },
        }
        self.revision.bump();
        proof {
            assert(self.port_map() =~= g0.port_map());
            assert(self.port_edges_map() =~= g0.port_edges_map()
                .insert(output, g0.port_edges_map()[output].push(edge))
                .insert(input, g0.port_edges_map()[input].push(edge)));
            lemma_push_contains(g0.port_edges_map()[output], edge);
            lemma_push_contains(g0.port_edges_map()[input], edge);
        }
        Ok(edge)
    }

    /// Removes `edge` and returns its data, or `None` if it is not live; the
    /// edge is dropped from both of its ports' lists.
    pub fn remove_edge(&mut self, edge: EdgeId) -> (r: Option<EdgeData<E>>)
        requires
            old(self).wf(),
        ensures
            final(self).wf(),
            final(self).node_map() == old(self).node_map(),
            final(self).node_ports_map() == old(self).node_ports_map(),
            final(self).port_map() == old(self).port_map(),
            final(self).edge_map() == old(self).edge_map().remove(edge),
            final(self).node_total() == old(self).node_total(),
            final(self).port_total() == old(self).port_total(),
            forall|q: PortId, x: EdgeId|
                #![trigger final(self).port_edges_map()[q].contains(x)]
                #![trigger old(self).port_edges_map()[q].contains(x)]
                old(self).port_map().contains_key(q)
                ==> (final(self).port_edges_map()[q].contains(x) <==> old(self).port_edges_map()[q].contains(x) && x != edge),
            match r {
                None => {
                    &&& !old(self).edge_map().contains_key(edge)
                    &&& final(self).port_edges_map() == old(self).port_edges_map()
                    &&& final(self).revision_view() == old(self).revision_view()
                    &&& final(self).edge_total() == old(self).edge_total()
                },
                Some(d) => {
                    &&& old(self).edge_removed(*final(self), edge, d)
                    &&& final(self).revision_view() == old(self).revision_view().wrapping_add(1)
                    &&& final(self).edge_total() == old(self).edge_total() - 1
                },
            },
            forall|s: u32| #[trigger] final(self).node_generation(s) == old(self).node_generation(s),
    {
        let ghost g0 = *self;
        let removed = self.edges.remove(edge);
        proof {
            lemma_by_id_remove::<EdgeId, EdgeData<E>>(g0.edges.view(), edge);
            assert(self.edge_map() =~= g0.edge_map().remove(edge));
        }
        match removed {
            None => {
                proof {
                    assert forall|q: PortId, x: EdgeId|
                        #![trigger self.port_edges_map()[q].contains(x)]
                        #![trigger g0.port_edges_map()[q].contains(x)]
                        g0.port_map().contains_key(q)
                        implies (self.port_edges_map()[q].contains(x) <==> g0.port_edges_map()[q].contains(x) && x != edge) by {
                        if g0.port_edges_map()[q].contains(edge) {
                            assert(g0.edge_map().contains_key(edge));
                        }
                    }
                }
                None
            },
            Some(d) => {
                let ghost g1 = *self;
                let out = d.output;
                let inp = d.input;
                proof {
                    assert(g0.edge_map().contains_key(edge));
                    assert(out != inp);
                }
                match self.ports.get_mut(out) {
                    Some(record) => {
                        proof {
                            lemma_seq_remove_key(record.edges@, edge);
                        }
                        vec_remove_key(&mut record.edges, edge);
                        let ghost new_record = *record;
                        proof {
                            lemma_by_id_insert::<PortId, PortRecord<P>>(g1.ports.view(), out, new_record);
                        }
                    },
                    None => {
                        proof {
                            assert(false);
                        }
                    },
                }
                let ghost g2 = *self;
                proof {
                    assert(g2.port_map() =~= g0.port_map());
                    assert(g2.port_edges_map() =~= g0.port_edges_map().insert(out, seq_remove_key(g0.port_edges_map()[out], edge)));
                }
                match self.ports.get_mut(inp) {
                    Some(record) => {
                        proof {
                            lemma_seq_remove_key(record.edges@, edge);
                        }
                        vec_remove_key(&mut record.edges, edge);
                        let ghost new_record = *record;
                        proof {
                            lemma_by_id_insert::<PortId, PortRecord<P>>(g2.ports.view(), inp, new_record);
                        }
                    },
                    None => {
                        proof {
                            assert(false);
                        }
                    },
                }
                self.revision.bump();
                proof {
                    let pe = g0.port_edges_map();
                    lemma_seq_remove_key(pe[out], edge);
                    lemma_seq_remove_key(pe[inp], edge);
                    assert(self.port_map() =~= g0.port_map());
                    assert(self.port_edges_map() =~= pe
                        .insert(out, seq_remove_key(pe[out], edge))
                        .insert(inp, seq_remove_key(pe[inp], edge)));
                    assert forall|q: PortId, x: EdgeId|
                        #![trigger self.port_edges_map()[q].contains(x)]
                        #![trigger pe[q].contains(x)]
                        g0.port_map().contains_key(q)
                        implies (self.port_edges_map()[q].contains(x) <==> pe[q].contains(x) && x != edge) by {
                        if q != out && q != inp && pe[q].contains(edge) {
                            assert(touches(g0.edge_map()[edge], q));
                        }
                    }
                }
                Some(d)
            },
        }
    }

    /// Removes `port`, all of its edges, and its entry in its owner's port
    /// list; returns its data, or `None` if it is not live.
    pub fn remove_port(&mut self, port: PortId) -> (r: Option<PortData<P>>)
        requires
            old(self).wf(),
        ensures
            final(self).wf(),
            final(self).node_map() == old(self).node_map(),
            final(self).node_total() == old(self).node_total(),
            match r {
                None => {
                    &&& !old(self).port_map().contains_key(port)
                    &&& final(self).node_ports_map() == old(self).node_ports_map()
                    &&& final(self).port_map() == old(self).port_map()
                    &&& final(self).port_edges_map() == old(self).port_edges_map()
                    &&& final(self).edge_map() == old(self).edge_map()
                    &&& final(self).revision_view() == old(self).revision_view()
                },
                Some(d) => {
                    &&& old(self).port_map().contains_key(port)
                    &&& d == old(self).port_map()[port]
                    &&& final(self).port_map() == old(self).port_map().remove(port)
                    &&& final(self).node_ports_map() == old(self).node_ports_map().insert(d.owner,
                        seq_remove_key(old(self).node_ports_map()[d.owner], port))
                    &&& forall|e: EdgeId| #[trigger] final(self).edge_map().contains_key(e)
                        <==> (old(self).edge_map().contains_key(e) && !touches(old(self).edge_map()[e], port))
                    &&& forall|e: EdgeId| #[trigger] final(self).edge_map().contains_key(e)
                        ==> final(self).edge_map()[e] == old(self).edge_map()[e]
                    &&& forall|q: PortId, x: EdgeId|
                        #![trigger final(self).port_edges_map()[q].contains(x)]
                        final(self).port_map().contains_key(q) ==> (final(self).port_edges_map()[q].contains(x)
                            <==> (old(self).port_edges_map()[q].contains(x) && !touches(old(self).edge_map()[x], port)))
                    &&& final(self).edge_total() + old(self).port_edges_map()[port].len() == old(self).edge_total()
                    &&& final(self).revision_view() as int == (old(self).revision_view() + old(self).port_edges_map()[port].len() + 1)
                        % 0x1_0000_0000_0000_0000
                },
            },
            forall|s: u32| #[trigger] final(self).node_generation(s) == old(self).node_generation(s),
    {
        let ghost g0 = *self;
        let edge_ids: Vec<EdgeId> = match self.port_edges(port) {
            Some(s) => vstd::slice::slice_to_vec(s),
            None => {
                return None;
            },
        };
        let ghost l = edge_ids@;
        let mut j: usize = 0;
        while j < edge_ids.len()
            invariant
                self.wf(),
                g0.wf(),
                g0.port_map().contains_key(port),
                l == edge_ids@,
                l == g0.port_edges_map()[port],
                j <= l.len(),
                forall|s: u32| #[trigger] self.node_generation(s) == g0.node_generation(s),
                self.node_map() == g0.node_map(),
                self.node_ports_map() == g0.node_ports_map(),
                self.port_map() == g0.port_map(),
                self.node_total() == g0.node_total(),
                forall|e: EdgeId| #[trigger] self.edge_map().contains_key(e)
                    <==> (g0.edge_map().contains_key(e) && !l.subrange(0, j as int).contains(e)),
                forall|e: EdgeId| #[trigger] self.edge_map().contains_key(e) ==> self.edge_map()[e] == g0.edge_map()[e],
                forall|q: PortId, x: EdgeId|
                    #![trigger self.port_edges_map()[q].contains(x)]
                    g0.port_map().contains_key(q) ==> (self.port_edges_map()[q].contains(x)
                        <==> (g0.port_edges_map()[q].contains(x) && !l.subrange(0, j as int).contains(x))),
                self.edge_total() + j == g0.edge_total(),
                self.revision_view() as int == (g0.revision_view() + j) % 0x1_0000_0000_0000_0000,
            decreases l.len() - j,
        {
            let ghost before = *self;
            proof {
                assert(g0.port_edges_map()[port].no_duplicates());
                assert(g0.port_edges_map()[port].contains(l[j as int]));
                assert(g0.edge_map().contains_key(l[j as int]));
                assert(!l.subrange(0, j as int).contains(l[j as int])) by {
                    if l.subrange(0, j as int).contains(l[j as int]) {
                        let m = choose|m: int| 0 <= m < j && l.subrange(0, j as int)[m] == l[j as int];
                        assert(l[m] == l[j as int]);
                    }
                }
                assert(before.edge_map().contains_key(l[j as int]));
                Self::lemma_bump_count(before.revision_view(), g0.revision_view(), j as int);
            }
            let _ = self.remove_edge(edge_ids[j]);
            proof {
                assert(l.subrange(0, j + 1) == l.subrange(0, j as int).push(l[j as int]));
                lemma_push_contains(l.subrange(0, j as int), l[j as int]);
                assert forall|e: EdgeId| #[trigger] self.edge_map().contains_key(e) implies self.edge_map()[e] == g0.edge_map()[e] by {
                    assert(before.edge_map().contains_key(e));
                }
            }
            j += 1;
        }
        proof {
            assert(l.subrange(0, j as int) == l);
            assert(self.port_edges_map()[port] =~= Seq::<EdgeId>::empty()) by {
                if self.port_edges_map()[port].len() > 0 {
                    let x = self.port_edges_map()[port][0];
                    assert(self.port_edges_map()[port].contains(x));
                }
            }
            assert forall|e: EdgeId| #[trigger] self.edge_map().contains_key(e) implies !touches(g0.edge_map()[e], port) by {
                assert(!l.contains(e));
            }
        }
        let ghost g1 = *self;
        let removed = self.ports.remove(port);
        proof {
            lemma_by_id_remove::<PortId, PortRecord<P>>(g1.ports.view(), port);
        }
        let record = match removed {
            Some(record) => record,
            None => {
                proof {
                    assert(false);
                }
                return None;
            },
        };
        let owner = record.data.owner;
        let ghost g2 = *self;
        proof {
            assert(g2.port_map() =~= g0.port_map().remove(port));
            assert(g2.port_edges_map() =~= g1.port_edges_map().remove(port));
            assert(g0.node_map().contains_key(owner));
        }
        match self.nodes.get_mut(owner) {
            Some(node) => {
                proof {
                    lemma_seq_remove_key(node.ports@, port);
                }
                vec_remove_key(&mut node.ports, port);
                let ghost new_node = *node;
                proof {
                    lemma_by_id_insert::<NodeId, NodeRecord<N>>(g2.nodes.view(), owner, new_node);
                }
            },
            None => {
                proof {
                    assert(false);
                }
            },
        }
        proof {
            Self::lemma_bump_count(self.revision_view(), g0.revision_view(), l.len() as int);
        }
        self.revision.bump();
        proof {
            assert forall|s: u32| #[trigger] self.node_generation(s) == g0.node_generation(s) by {
                assert(g2.node_generation(s) == g1.node_generation(s));
                assert(g1.node_generation(s) == g0.node_generation(s));
            }
        }
        proof {
            let np = g0.node_ports_map();
            lemma_seq_remove_key(np[owner], port);
            assert(self.node_map() =~= g0.node_map());
            assert(self.node_ports_map() =~= np.insert(owner, seq_remove_key(np[owner], port)));
            assert(self.port_map() == g2.port_map());
            assert(self.port_edges_map() == g2.port_edges_map());
            assert forall|n: NodeId, p: PortId| self.node_map().contains_key(n) && #[trigger] self.node_ports_map()[n].contains(p)
                implies self.port_map().contains_key(p) && self.port_map()[p].owner == n by {
                assert(np[n].contains(p));
            }
            assert forall|p: PortId| #[trigger] self.port_map().contains_key(p)
                implies self.node_map().contains_key(self.port_map()[p].owner) && self.node_ports_map()[self.port_map()[p].owner].contains(p) by {
                assert(g0.port_map().contains_key(p));
            }
            assert forall|q: PortId, x: EdgeId|
                #![trigger self.port_edges_map()[q].contains(x)]
                self.port_map().contains_key(q) implies (self.port_edges_map()[q].contains(x)
                    <==> (g0.port_edges_map()[q].contains(x) && !touches(g0.edge_map()[x], port))) by {
                if g0.port_edges_map()[q].contains(x) {
                    assert(g0.edge_map().contains_key(x));
                    if touches(g0.edge_map()[x], port) {
                        assert(g0.port_edges_map()[port].contains(x));
                    }
                }
            }
            assert forall|e: EdgeId| #[trigger] self.edge_map().contains_key(e)
                <==> (g0.edge_map().contains_key(e) && !touches(g0.edge_map()[e], port)) by {
                if g0.edge_map().contains_key(e) && touches(g0.edge_map()[e], port) {
                    assert(l.contains(e));
                }
            }
        }
        Some(record.data)
    }

    /// The edge `e` of this document starts or ends at a port of `n`.
    pub open spec fn edge_at_node(self, e: EdgeId, n: NodeId) -> bool {
        self.port_map()[self.edge_map()[e].output].owner == n || self.port_map()[self.edge_map()[e].input].owner == n
    }

    /// One more bump of a revision that counts `n` bumps from `start`,
    /// wrapping past `u64::MAX`.
    pub proof fn lemma_bump_count(before: u64, start: u64, n: int)
        requires
            n >= 0,
            before as int == (start + n) % 0x1_0000_0000_0000_0000,
        ensures
            before.wrapping_add(1) as int == (start + n + 1) % 0x1_0000_0000_0000_0000,
    {
        let m: int = 0x1_0000_0000_0000_0000;
        vstd::arithmetic::div_mod::lemma_add_mod_noop(start + n, 1, m);
        vstd::arithmetic::div_mod::lemma_small_mod(1, m as nat);
        if before as int + 1 < m {
            vstd::arithmetic::div_mod::lemma_small_mod((before as int + 1) as nat, m as nat);
        } else {
            vstd::arithmetic::div_mod::lemma_mod_self_0(m);
        }
    }

    /// Advancing by `k` a revision that counts `n` bumps from `start`.
    pub proof fn lemma_advance_count(before: u64, start: u64, n: int, k: int)
        requires
            n >= 0,
            k >= 0,
            before as int == (start + n) % 0x1_0000_0000_0000_0000,
        ensures
            (before + k) % 0x1_0000_0000_0000_0000 == (start + n + k) % 0x1_0000_0000_0000_0000,
    {
        let m: int = 0x1_0000_0000_0000_0000;
        vstd::arithmetic::div_mod::lemma_add_mod_noop(start + n, k, m);
        vstd::arithmetic::div_mod::lemma_add_mod_noop(before as int, k, m);
        vstd::arithmetic::div_mod::lemma_small_mod(before as nat, m as nat);
    }

    /// Removes `node` with all of its ports and their edges; returns its
    /// data, or `None` if it is not live.
    pub fn remove_node(&mut self, node: NodeId) -> (r: Option<NodeData<N>>)
        requires
            old(self).wf(),
        ensures
            final(self).wf(),
            match r {
                None => {
                    &&& !old(self).node_map().contains_key(node)
                    &&& final(self).node_map() == old(self).node_map()
                    &&& final(self).node_ports_map() == old(self).node_ports_map()
                    &&& final(self).port_map() == old(self).port_map()
                    &&& final(self).port_edges_map() == old(self).port_edges_map()
                    &&& final(self).edge_map() == old(self).edge_map()
                    &&& final(self).revision_view() == old(self).revision_view()
                },
                Some(d) => old(self).node_removed(*final(self), node, d),
            },
            forall|s: u32| #[trigger] final(self).node_generation(s) == if r is Some && s == node.slot() {
                old(self).node_generation(s).wrapping_add(1)
            } else {
                old(self).node_generation(s)
            },
    {
        let ghost g0 = *self;
        let port_ids: Vec<PortId> = match self.node_ports(node) {
            Some(s) => vstd::slice::slice_to_vec(s),
            None => {
                return None;
            },
        };
        let ghost l = port_ids@;
        let mut j: usize = 0;
        while j < port_ids.len()
            invariant
                self.wf(),
                g0.wf(),
                g0.node_map().contains_key(node),
                l == port_ids@,
                l == g0.node_ports_map()[node],
                j <= l.len(),
                forall|s: u32| #[trigger] self.node_generation(s) == g0.node_generation(s),
                self.node_map() == g0.node_map(),
                forall|n: NodeId| #[trigger] self.node_ports_map().contains_key(n) && n != node
                    ==> self.node_ports_map()[n] == g0.node_ports_map()[n],
                forall|p: PortId| #[trigger] self.node_ports_map()[node].contains(p)
                    <==> (g0.node_ports_map()[node].contains(p) && !l.subrange(0, j as int).contains(p)),
                forall|p: PortId| #[trigger] self.port_map().contains_key(p)
                    <==> (g0.port_map().contains_key(p) && !l.subrange(0, j as int).contains(p)),
                forall|p: PortId| #[trigger] self.port_map().contains_key(p) ==> self.port_map()[p] == g0.port_map()[p],
                forall|e: EdgeId| #[trigger] self.edge_map().contains_key(e)
                    <==> (g0.edge_map().contains_key(e) && !l.subrange(0, j as int).contains(g0.edge_map()[e].output)
                        && !l.subrange(0, j as int).contains(g0.edge_map()[e].input)),
                forall|e: EdgeId| #[trigger] self.edge_map().contains_key(e) ==> self.edge_map()[e] == g0.edge_map()[e],
                forall|q: PortId, x: EdgeId|
                    #![trigger self.port_edges_map()[q].contains(x)]
                    self.port_map().contains_key(q) ==> (self.port_edges_map()[q].contains(x)
                        <==> (g0.port_edges_map()[q].contains(x) && !l.subrange(0, j as int).contains(g0.edge_map()[x].output)
                            && !l.subrange(0, j as int).contains(g0.edge_map()[x].input))),
                self.edge_total() <= g0.edge_total(),
                self.revision_view() as int == (g0.revision_view() + (g0.edge_total() - self.edge_total()) + j)
                    % 0x1_0000_0000_0000_0000,
            decreases l.len() - j,
        {
            let ghost before = *self;
            let port = port_ids[j];
            proof {
                assert(l.subrange(0, j + 1) == l.subrange(0, j as int).push(port));
                lemma_push_contains(l.subrange(0, j as int), port);
                assert(g0.node_ports_map()[node].contains(port)) by { assert(l[j as int] == port); }
                assert(!l.subrange(0, j as int).contains(port)) by {
                    if l.subrange(0, j as int).contains(port) {
                        let m = choose|m: int| 0 <= m < j && l.subrange(0, j as int)[m] == port;
                        assert(l[m] == l[j as int]);
                    }
                }
                assert(before.port_map().contains_key(port));
                assert(before.port_map()[port].owner == node);
            }
            let _ = self.remove_port(port);
            proof {
                let k = before.port_edges_map()[port].len() + 1;
                Self::lemma_advance_count(before.revision_view(), g0.revision_view(),
                    (g0.edge_total() - before.edge_total()) + j, k as int);
                let bp = before.node_ports_map();
                lemma_seq_remove_key(bp[node], port);
                assert forall|n: NodeId| #[trigger] self.node_ports_map().contains_key(n) && n != node
                    implies self.node_ports_map()[n] == g0.node_ports_map()[n] by {
                    assert(before.node_ports_map().contains_key(n));
                }
                assert forall|p: PortId| #[trigger] self.port_map().contains_key(p) implies self.port_map()[p] == g0.port_map()[p] by {
                    assert(before.port_map().contains_key(p));
                }
                assert forall|e: EdgeId| #[trigger] self.edge_map().contains_key(e) implies self.edge_map()[e] == g0.edge_map()[e] by {
                    assert(before.edge_map().contains_key(e));
                }
                assert forall|e: EdgeId| #[trigger] self.edge_map().contains_key(e)
                    <==> (g0.edge_map().contains_key(e) && !l.subrange(0, j + 1).contains(g0.edge_map()[e].output)
                        && !l.subrange(0, j + 1).contains(g0.edge_map()[e].input)) by {
                    if g0.edge_map().contains_key(e) && !l.subrange(0, j as int).contains(g0.edge_map()[e].output)
                        && !l.subrange(0, j as int).contains(g0.edge_map()[e].input) {
                        assert(before.edge_map().contains_key(e));
                    }
                }
                assert forall|q: PortId, x: EdgeId|
                    #![trigger self.port_edges_map()[q].contains(x)]
                    self.port_map().contains_key(q) implies (self.port_edges_map()[q].contains(x)
                        <==> (g0.port_edges_map()[q].contains(x) && !l.subrange(0, j + 1).contains(g0.edge_map()[x].output)
                            && !l.subrange(0, j + 1).contains(g0.edge_map()[x].input))) by {
                    assert(before.port_map().contains_key(q));
                    if g0.port_edges_map()[q].contains(x) {
                        assert(g0.edge_map().contains_key(x));
                        if before.port_edges_map()[q].contains(x) {
                            assert(before.edge_map().contains_key(x));
                        }
                    }
                }
            }
            j += 1;
        }
        proof {
            assert(l.subrange(0, j as int) == l);
        }
        let ghost g1 = *self;
        proof {
            assert(g1.node_map().contains_key(node));
            assert(g1.nodes.view().contains_key(key(node)));
        }
        let removed = self.nodes.remove(node);
        proof {
            lemma_by_id_remove::<NodeId, NodeRecord<N>>(g1.nodes.view(), node);
            assert forall|s: u32| #[trigger] self.node_generation(s) == if s == node.slot() {
                g0.node_generation(s).wrapping_add(1)
            } else {
                g0.node_generation(s)
            } by {
                assert(g1.node_generation(s) == g0.node_generation(s));
            }
        }
        let ghost g3 = *self;
        assert(forall|s: u32| #[trigger] g3.node_generation(s) == if s == node.slot() {
            g0.node_generation(s).wrapping_add(1)
        } else {
            g0.node_generation(s)
        });
        let record = match removed {
            Some(record) => record,
            None => {
                proof {
                    assert(false);
                }
                return None;
            },
        };
        proof {
            Self::lemma_bump_count(self.revision_view(), g0.revision_view(), (g0.edge_total() - self.edge_total()) + l.len());
        }
        self.revision.bump();
        proof {
            assert(self.node_map() =~= g0.node_map().remove(node));
            assert(self.node_ports_map() =~= g1.node_ports_map().remove(node));
            assert(self.node_ports_map() =~= g0.node_ports_map().remove(node)) by {
                assert forall|n: NodeId| #[trigger] self.node_ports_map().contains_key(n)
                    implies self.node_ports_map()[n] == g0.node_ports_map().remove(node)[n] by {
                    assert(g1.node_ports_map().contains_key(n));
                }
            }
            assert forall|p: PortId| #[trigger] self.port_map().contains_key(p)
                <==> (g0.port_map().contains_key(p) && g0.port_map()[p].owner != node) by {
                if g0.port_map().contains_key(p) && g0.port_map()[p].owner == node {
                    assert(l.contains(p));
                }
            }
            assert forall|e: EdgeId| #[trigger] self.edge_map().contains_key(e)
                <==> (g0.edge_map().contains_key(e) && !g0.edge_at_node(e, node)) by {
                if g0.edge_map().contains_key(e) {
                    let d = g0.edge_map()[e];
                    if g0.port_map()[d.output].owner == node {
                        assert(l.contains(d.output));
                    }
                    if g0.port_map()[d.input].owner == node {
                        assert(l.contains(d.input));
                    }
                }
            }
            assert forall|q: PortId, x: EdgeId|
                #![trigger self.port_edges_map()[q].contains(x)]
                self.port_map().contains_key(q) implies (self.port_edges_map()[q].contains(x)
                    <==> (g0.port_edges_map()[q].contains(x) && !g0.edge_at_node(x, node))) by {
                if g0.port_edges_map()[q].contains(x) {
                    assert(g0.edge_map().contains_key(x));
                    let d = g0.edge_map()[x];
                    if g0.port_map()[d.output].owner == node {
                        assert(l.contains(d.output));
                    }
                    if g0.port_map()[d.input].owner == node {
                        assert(l.contains(d.input));
                    }
                }
            }
            assert forall|n: NodeId, p: PortId| self.node_map().contains_key(n) && #[trigger] self.node_ports_map()[n].contains(p)
                implies self.port_map().contains_key(p) && self.port_map()[p].owner == n by {
                assert(g1.node_ports_map()[n].contains(p));
            }
            assert forall|p: PortId| #[trigger] self.port_map().contains_key(p)
                implies self.node_map().contains_key(self.port_map()[p].owner) && self.node_ports_map()[self.port_map()[p].owner].contains(p) by {
                assert(g1.port_map().contains_key(p));
                if g1.port_map()[p].owner == node {
                    assert(g1.node_ports_map()[node].contains(p));
                }
            }
            assert forall|s: u32| #[trigger] self.node_generation(s) == if s == node.slot() {
                g0.node_generation(s).wrapping_add(1)
            } else {
                g0.node_generation(s)
            } by {
                assert(self.nodes == g3.nodes);
                assert(g3.node_generation(s) == if s == node.slot() {
                    g0.node_generation(s).wrapping_add(1)
                } else {
                    g0.node_generation(s)
                });
            }
        }
        Some(record.data)
    }

    /// Runs `update` on the metadata of `node` and returns its result, or
    /// `None` (without calling it) if `node` is not live. Topology is never
    /// changed; the revision advances when `update` runs.
    pub fn update_node_meta<R, F: FnOnce(&mut N) -> R>(&mut self, node: NodeId, update: F) -> (r: Option<R>)
        requires
            old(self).wf(),
            forall|m: &mut N| update.requires((m,)),
        ensures
            final(self).wf(),
            final(self).node_map().dom() == old(self).node_map().dom(),
            forall|n: NodeId| n != node && #[trigger] final(self).node_map().contains_key(n)
                ==> final(self).node_map()[n] == old(self).node_map()[n],
            final(self).node_ports_map() == old(self).node_ports_map(),
            final(self).port_map() == old(self).port_map(),
            final(self).port_edges_map() == old(self).port_edges_map(),
            final(self).edge_map() == old(self).edge_map(),
            r is Some <==> old(self).node_map().contains_key(node),
            final(self).revision_view() == if r is Some { old(self).revision_view().wrapping_add(1) } else { old(self).revision_view() },
            forall|s: u32| #[trigger] final(self).node_generation(s) == old(self).node_generation(s),
    {
        let ghost g0 = *self;
        match self.nodes.get_mut(node) {
            Some(record) => {
                let result = update(&mut record.data.meta);
                let ghost new_record = *record;
                self.revision.bump();
                proof {
                    lemma_by_id_insert::<NodeId, NodeRecord<N>>(g0.nodes.view(), node, new_record);
                    assert(self.node_ports_map() =~= g0.node_ports_map());
                    assert(self.node_map().dom() =~= g0.node_map().dom());
                }
                Some(result)
            },
            None => None,
        }
    }

    /// Runs `update` on the metadata of `port` and returns its result, or
    /// `None` (without calling it) if `port` is not live. Topology is never
    /// changed; the revision advances when `update` runs.
    pub fn update_port_meta<R, F: FnOnce(&mut P) -> R>(&mut self, port: PortId, update: F) -> (r: Option<R>)
        requires
            old(self).wf(),
            forall|m: &mut P| update.requires((m,)),
        ensures
            final(self).wf(),
            final(self).port_map().dom() == old(self).port_map().dom(),
            forall|p: PortId| p != port && #[trigger] final(self).port_map().contains_key(p)
                ==> final(self).port_map()[p] == old(self).port_map()[p],
            final(self).port_map().contains_key(port) ==> final(self).port_map()[port].owner == old(self).port_map()[port].owner
                && final(self).port_map()[port].direction == old(self).port_map()[port].direction,
            final(self).node_map() == old(self).node_map(),
            final(self).node_ports_map() == old(self).node_ports_map(),
            final(self).port_edges_map() == old(self).port_edges_map(),
            final(self).edge_map() == old(self).edge_map(),
            r is Some <==> old(self).port_map().contains_key(port),
            final(self).revision_view() == if r is Some { old(self).revision_view().wrapping_add(1) } else { old(self).revision_view() },
            forall|s: u32| #[trigger] final(self).node_generation(s) == old(self).node_generation(s),
    {
        let ghost g0 = *self;
        match self.ports.get_mut(port) {
            Some(record) => {
                let result = update(&mut record.data.meta);
                let ghost new_record = *record;
                self.revision.bump();
                proof {
                    lemma_by_id_insert::<PortId, PortRecord<P>>(g0.ports.view(), port, new_record);
                    assert(self.port_edges_map() =~= g0.port_edges_map());
                    assert(self.port_map().dom() =~= g0.port_map().dom());
                }
                Some(result)
            },
            None => None,
        }
    }

    /// Runs `update` on the metadata of `edge` and returns its result, or
    /// `None` (without calling it) if `edge` is not live. Topology is never
    /// changed; the revision advances when `update` runs.
    pub fn update_edge_meta<R, F: FnOnce(&mut E) -> R>(&mut self, edge: EdgeId, update: F) -> (r: Option<R>)
        requires
            old(self).wf(),
            forall|m: &mut E| update.requires((m,)),
        ensures
            final(self).wf(),
            final(self).edge_map().dom() == old(self).edge_map().dom(),
            forall|e: EdgeId| e != edge && #[trigger] final(self).edge_map().contains_key(e)
                ==> final(self).edge_map()[e] == old(self).edge_map()[e],
            final(self).edge_map().contains_key(edge) ==> final(self).edge_map()[edge].output == old(self).edge_map()[edge].output
                && final(self).edge_map()[edge].input == old(self).edge_map()[edge].input,
            final(self).node_map() == old(self).node_map(),
            final(self).node_ports_map() == old(self).node_ports_map(),
            final(self).port_map() == old(self).port_map(),
            final(self).port_edges_map() == old(self).port_edges_map(),
            r is Some <==> old(self).edge_map().contains_key(edge),
            final(self).revision_view() == if r is Some { old(self).revision_view().wrapping_add(1) } else { old(self).revision_view() },
            forall|s: u32| #[trigger] final(self).node_generation(s) == old(self).node_generation(s),
    {
        let ghost g0 = *self;
        match self.edges.get_mut(edge) {
            Some(data) => {
                let result = update(&mut data.meta);
                let ghost new_data = *data;
                self.revision.bump();
                proof {
                    lemma_by_id_insert::<EdgeId, EdgeData<E>>(g0.edges.view(), edge, new_data);
                    assert(self.edge_map().dom() =~= g0.edge_map().dom());
                }
                Some(result)
            },
            None => None,
        }
    }

    /// The first edge in the edge list of `output` that runs from `output`
    /// to `input`, if any.
    pub fn edge_between(&self, output: PortId, input: PortId) -> (r: Option<(EdgeId, &EdgeData<E>)>)
        requires
            self.wf(),
        ensures
            match r {
                Some(found) => self.edge_map().contains_key(found.0) && *found.1 == self.edge_map()[found.0]
                    && found.1.output == output && found.1.input == input,
                None => forall|e: EdgeId| #[trigger] self.edge_map().contains_key(e)
                    ==> !(self.edge_map()[e].output == output && self.edge_map()[e].input == input),
            },
    {
        let list = match self.port_edges(output) {
            Some(s) => s,
            None => {
                return None;
            },
        };
        let mut i: usize = 0;
        while i < list.len()
            invariant
                self.wf(),
                self.port_map().contains_key(output),
                list@ == self.port_edges_map()[output],
                i <= list@.len(),
                forall|m: int| 0 <= m < i ==> !(self.edge_map()[#[trigger] list@[m]].output == output
                    && self.edge_map()[list@[m]].input == input),
            decreases list@.len() - i,
        {
            let e = list[i];
            match self.edges.get(e) {
                Some(d) => {
                    if d.output == output && d.input == input {
                        return Some((e, d));
                    }
                },
                None => {
                    proof {
                        assert(self.port_edges_map()[output].contains(e));
                    }
                },
            }
            i += 1;
        }
        proof {
            assert forall|e: EdgeId| #[trigger] self.edge_map().contains_key(e)
                implies !(self.edge_map()[e].output == output && self.edge_map()[e].input == input) by {
                if self.edge_map()[e].output == output {
                    assert(list@.contains(e));
                }
            }
        }
        None
    }

    /// Every live node with its data, in slot order.
    pub fn iter_nodes(&self) -> (r: Vec<(NodeId, &NodeData<N>)>)
        requires
            self.wf(),
        ensures
            forall|k: int| 0 <= k < r@.len() ==> self.node_map().contains_key(#[trigger] r@[k].0)
                && *r@[k].1 == self.node_map()[r@[k].0],
            forall|n: NodeId| #[trigger] self.node_map().contains_key(n) ==> exists|k: int| 0 <= k < r@.len() && r@[k].0 == n,
            forall|a: int, b: int| 0 <= a < r@.len() && 0 <= b < r@.len() && a != b ==> r@[a].0 != r@[b].0,
    {
        let keys = self.nodes.keys();
        let mut r: Vec<(NodeId, &NodeData<N>)> = Vec::new();
        let mut i: usize = 0;
        while i < keys.len()
            invariant
                self.wf(),
                keys@.no_duplicates(),
                forall|k: (u32, u32)| #[trigger] keys@.contains(k) <==> self.nodes.view().contains_key(k),
                i <= keys@.len(),
                r@.len() == i,
                forall|k: int| 0 <= k < i ==> key(#[trigger] r@[k].0) == keys@[k],
                forall|k: int| 0 <= k < r@.len() ==> self.node_map().contains_key(#[trigger] r@[k].0)
                    && *r@[k].1 == self.node_map()[r@[k].0],
            decreases keys@.len() - i,
        {
            let (slot, generation) = keys[i];
            let id = NodeId::from_parts(slot, generation);
            proof {
                assert(keys@.contains(keys@[i as int]));
            }
            match self.nodes.get(id) {
                Some(record) => {
                    r.push((id, &record.data));
                },
                None => {
                    proof {
                        assert(false);
                    }
                },
            }
            i += 1;
        }
        proof {
            assert forall|n: NodeId| #[trigger] self.node_map().contains_key(n) implies exists|k: int| 0 <= k < r@.len() && r@[k].0 == n by {
                assert(keys@.contains(key(n)));
                let k = choose|k: int| 0 <= k < keys@.len() && keys@[k] == key(n);
                NodeId::lemma_parts_injective(r@[k].0, n);
            }
            assert forall|a: int, b: int| 0 <= a < r@.len() && 0 <= b < r@.len() && a != b implies r@[a].0 != r@[b].0 by {
                assert(keys@[a] != keys@[b]);
            }
        }
        r
    }

    /// Every live port with its data, in slot order.
    pub fn iter_ports(&self) -> (r: Vec<(PortId, &PortData<P>)>)
        requires
            self.wf(),
        ensures
            forall|k: int| 0 <= k < r@.len() ==> self.port_map().contains_key(#[trigger] r@[k].0)
                && *r@[k].1 == self.port_map()[r@[k].0],
            forall|p: PortId| #[trigger] self.port_map().contains_key(p) ==> exists|k: int| 0 <= k < r@.len() && r@[k].0 == p,
            forall|a: int, b: int| 0 <= a < r@.len() && 0 <= b < r@.len() && a != b ==> r@[a].0 != r@[b].0,
    {
        let keys = self.ports.keys();
        let mut r: Vec<(PortId, &PortData<P>)> = Vec::new();
        let mut i: usize = 0;
        while i < keys.len()
            invariant
                self.wf(),
                keys@.no_duplicates(),
                forall|k: (u32, u32)| #[trigger] keys@.contains(k) <==> self.ports.view().contains_key(k),
                i <= keys@.len(),
                r@.len() == i,
                forall|k: int| 0 <= k < i ==> key(#[trigger] r@[k].0) == keys@[k],
                forall|k: int| 0 <= k < r@.len() ==> self.port_map().contains_key(#[trigger] r@[k].0)
                    && *r@[k].1 == self.port_map()[r@[k].0],
            decreases keys@.len() - i,
        {
            let (slot, generation) = keys[i];
            let id = PortId::from_parts(slot, generation);
            proof {
                assert(keys@.contains(keys@[i as int]));
            }
            match self.ports.get(id) {
                Some(record) => {
                    r.push((id, &record.data));
                },
                None => {
                    proof {
                        assert(false);
                    }
                },
            }
            i += 1;
        }
        proof {
            assert forall|p: PortId| #[trigger] self.port_map().contains_key(p) implies exists|k: int| 0 <= k < r@.len() && r@[k].0 == p by {
                assert(keys@.contains(key(p)));
                let k = choose|k: int| 0 <= k < keys@.len() && keys@[k] == key(p);
                PortId::lemma_parts_injective(r@[k].0, p);
            }
            assert forall|a: int, b: int| 0 <= a < r@.len() && 0 <= b < r@.len() && a != b implies r@[a].0 != r@[b].0 by {
                assert(keys@[a] != keys@[b]);
            }
        }
        r
    }

    /// Every live edge with its data, in slot order.
    pub fn iter_edges(&self) -> (r: Vec<(EdgeId, &EdgeData<E>)>)
        requires
            self.wf(),
        ensures
            forall|k: int| 0 <= k < r@.len() ==> self.edge_map().contains_key(#[trigger] r@[k].0)
                && *r@[k].1 == self.edge_map()[r@[k].0],
            forall|e: EdgeId| #[trigger] self.edge_map().contains_key(e) ==> exists|k: int| 0 <= k < r@.len() && r@[k].0 == e,
            forall|a: int, b: int| 0 <= a < r@.len() && 0 <= b < r@.len() && a != b ==> r@[a].0 != r@[b].0,
    {
        let keys = self.edges.keys();
        let mut r: Vec<(EdgeId, &EdgeData<E>)> = Vec::new();
        let mut i: usize = 0;
        while i < keys.len()
            invariant
                self.wf(),
                keys@.no_duplicates(),
                forall|k: (u32, u32)| #[trigger] keys@.contains(k) <==> self.edges.view().contains_key(k),
                i <= keys@.len(),
                r@.len() == i,
                forall|k: int| 0 <= k < i ==> key(#[trigger] r@[k].0) == keys@[k],
                forall|k: int| 0 <= k < r@.len() ==> self.edge_map().contains_key(#[trigger] r@[k].0)
                    && *r@[k].1 == self.edge_map()[r@[k].0],
            decreases keys@.len() - i,
        {
            let (slot, generation) = keys[i];
            let id = EdgeId::from_parts(slot, generation);
            proof {
                assert(keys@.contains(keys@[i as int]));
            }
            match self.edges.get(id) {
                Some(data) => {
                    r.push((id, data));
                },
                None => {
                    proof {
                        assert(false);
                    }
                },
            }
            i += 1;
        }
        proof {
            assert forall|e: EdgeId| #[trigger] self.edge_map().contains_key(e) implies exists|k: int| 0 <= k < r@.len() && r@[k].0 == e by {
                assert(keys@.contains(key(e)));
                let k = choose|k: int| 0 <= k < keys@.len() && keys@[k] == key(e);
                EdgeId::lemma_parts_injective(r@[k].0, e);
            }
            assert forall|a: int, b: int| 0 <= a < r@.len() && 0 <= b < r@.len() && a != b implies r@[a].0 != r@[b].0 by {
                assert(keys@[a] != keys@[b]);
            }
        }
        r
    }

    /// Checks the ports of a proposed edge from `output` to `input`, then
    /// asks `policy`; returns its answer, or the reason the ports are unfit.
    pub fn can_connect_with<C: PortCompatibility<N, P, E>>(&self, output: PortId, input: PortId, policy: &C) -> (r: Result<bool, ConnectError>)
        requires
            self.wf(),
        ensures
            match r {
                Ok(allowed) => self.connect_check(output, input) is Ok && (policy.obeys_allows_spec() ==> allowed == policy.allows(
                    *self,
                    output,
                    input,
                )),
                Err(e) => self.connect_check(output, input) == Err::<(), ConnectError>(e),
            },
    {
        let (output_port, input_port) = match self.connect_endpoints(output, input) {
            Ok(ports) => ports,
            Err(e) => {
                return Err(e);
            },
        };
        Ok(policy.can_connect(ConnectionContext::new(self, output, input, output_port, input_port)))
    }

    /// Adds the edge `output -> input` if the ports fit and `policy` allows
    /// it: `Ok(Some(id))` when added, `Ok(None)` when the policy refused.
    pub fn add_edge_with<C: PortCompatibility<N, P, E>>(&mut self, output: PortId, input: PortId, meta: E, policy: &C) -> (r: Result<Option<EdgeId>, ConnectError>)
        requires
            old(self).wf(),
            old(self).edge_total() <= u32::MAX,
        ensures
            final(self).wf(),
            final(self).node_map() == old(self).node_map(),
            final(self).node_ports_map() == old(self).node_ports_map(),
            final(self).port_map() == old(self).port_map(),
            match r {
                Err(e) => {
                    &&& old(self).connect_check(output, input) == Err::<(), ConnectError>(e)
                    &&& final(self).port_edges_map() == old(self).port_edges_map()
                    &&& final(self).edge_map() == old(self).edge_map()
                    &&& final(self).revision_view() == old(self).revision_view()
                },
                Ok(None) => {
                    &&& old(self).connect_check(output, input) is Ok
                    &&& policy.obeys_allows_spec() ==> !policy.allows(*old(self), output, input)
                    &&& final(self).port_edges_map() == old(self).port_edges_map()
                    &&& final(self).edge_map() == old(self).edge_map()
                    &&& final(self).revision_view() == old(self).revision_view()
                },
                Ok(Some(edge)) => {
                    &&& old(self).connect_check(output, input) is Ok
                    &&& policy.obeys_allows_spec() ==> policy.allows(*old(self), output, input)
                    &&& !old(self).edge_map().contains_key(edge)
                    &&& final(self).edge_map() == old(self).edge_map().insert(edge, EdgeData { output, input, meta })
                    &&& final(self).port_edges_map() == old(self).port_edges_map()
                        .insert(output, old(self).port_edges_map()[output].push(edge))
                        .insert(input, old(self).port_edges_map()[input].push(edge))
                    &&& final(self).revision_view() == old(self).revision_view().wrapping_add(1)
                },
            },
            forall|s: u32| #[trigger] final(self).node_generation(s) == old(self).node_generation(s),
    {
        match self.can_connect_with(output, input, policy) {
            Err(e) => Err(e),
            Ok(false) => Ok(None),
            Ok(true) => match self.add_edge(output, input, meta) {
                Ok(edge) => Ok(Some(edge)),
                Err(e) => Err(e),
            },
        }
    }
}

impl<N, P, E> Default for GraphDoc<N, P, E> {
    fn default() -> (d: Self)
        ensures
            d.wf(),
            d.node_map() == Map::<NodeId, NodeData<N>>::empty(),
            d.port_map() == Map::<PortId, PortData<P>>::empty(),
            d.edge_map() == Map::<EdgeId, EdgeData<E>>::empty(),
            d.revision_view() == 0,
    {
        Self::new()
    }
}


/// Laws relating the document operations.
impl<N, P, E> GraphDoc<N, P, E> {
    /// Adding an edge and then removing it gives back the edge map and every
    /// port's edge list exactly; nodes and ports are untouched throughout.
    pub proof fn lemma_add_remove_edge_roundtrip(d0: Self, d1: Self, d2: Self, edge: EdgeId, data: EdgeData<E>, removed: EdgeData<E>)
        requires
            d0.wf(),
            d0.edge_added(d1, edge, data),
            d1.edge_removed(d2, edge, removed),
        ensures
            removed == data,
            d2.edge_map() == d0.edge_map(),
            d2.port_edges_map() == d0.port_edges_map(),
            d2.node_map() == d0.node_map(),
            d2.node_ports_map() == d0.node_ports_map(),
            d2.port_map() == d0.port_map(),
    {
        let pe = d0.port_edges_map();
        let o = data.output;
        let i = data.input;
        assert(d2.edge_map() =~= d0.edge_map());
        if pe.contains_key(o) {
            assert(!pe[o].contains(edge));
            lemma_push_fresh(pe[o], edge);
        }
        if pe.contains_key(i) {
            assert(!pe[i].contains(edge));
            lemma_push_fresh(pe[i], edge);
        }
        assert forall|s: Seq<EdgeId>| s.no_duplicates() && !s.contains(edge) implies #[trigger] seq_remove_key(s.push(edge), edge) == s by {
            lemma_push_fresh(s, edge);
            crate::dirty::graph::lemma_index_of_unique(s.push(edge), edge, s.len() as int);
            assert(s.push(edge).contains(edge)) by { assert(s.push(edge)[s.len() as int] == edge); }
            assert(s.push(edge).remove(s.len() as int) =~= s);
        }
        if o == i {
            assert(d2.port_edges_map() =~= d0.port_edges_map());
        } else {
            assert(d1.port_edges_map()[o] == pe[o].push(edge));
            assert(d1.port_edges_map()[i] == pe[i].push(edge));
            assert(d2.port_edges_map() =~= d0.port_edges_map());
        }
    }

    /// Adding a node and then removing it gives back the node, port and edge
    /// maps exactly, and every port's edge list with the same contents.
    pub proof fn lemma_add_remove_node_roundtrip(d0: Self, d1: Self, d2: Self, node: NodeId, data: NodeData<N>, removed: NodeData<N>)
        requires
            d0.wf(),
            d2.wf(),
            d0.node_added(d1, node, data),
            d1.node_removed(d2, node, removed),
        ensures
            removed == data,
            d2.node_map() == d0.node_map(),
            d2.node_ports_map() == d0.node_ports_map(),
            d2.port_map() == d0.port_map(),
            d2.edge_map() == d0.edge_map(),
            d2.port_edges_map().dom() == d0.port_edges_map().dom(),
            forall|q: PortId, x: EdgeId| d0.port_map().contains_key(q)
                ==> (#[trigger] d2.port_edges_map()[q].contains(x) <==> d0.port_edges_map()[q].contains(x)),
    {
        assert(d2.node_map() =~= d0.node_map());
        assert(d2.node_ports_map() =~= d0.node_ports_map());
        assert forall|p: PortId| #[trigger] d1.port_map().contains_key(p) implies d1.port_map()[p].owner != node by {
            assert(d0.node_map().contains_key(d0.port_map()[p].owner));
        }
        assert(d2.port_map() =~= d0.port_map());
        assert forall|e: EdgeId| #[trigger] d1.edge_map().contains_key(e) implies !d1.edge_at_node(e, node) by {
            let x = d0.edge_map()[e];
            assert(d0.port_map().contains_key(x.output));
            assert(d0.port_map().contains_key(x.input));
        }
        assert(d2.edge_map() =~= d0.edge_map());
        assert forall|q: PortId, x: EdgeId| d0.port_map().contains_key(q)
            implies (#[trigger] d2.port_edges_map()[q].contains(x) <==> d0.port_edges_map()[q].contains(x)) by {
            assert(d2.port_map().contains_key(q));
            if d0.port_edges_map()[q].contains(x) {
                assert(d0.edge_map().contains_key(x));
                let y = d0.edge_map()[x];
                assert(d0.port_map().contains_key(y.output));
                assert(d0.port_map().contains_key(y.input));
            }
        }
        assert(d2.port_edges_map().dom() =~= d0.port_edges_map().dom());
    }
}

/// Stale node ids never alias: once the live node `node` is removed, the next
/// node put in its slot gets the following generation, so its id differs
/// from `node` (the `u32` generation would have to wrap all the way round).
pub proof fn lemma_removed_node_not_reissued<N, P, E>(
    before: GraphDoc<N, P, E>,
    removed: GraphDoc<N, P, E>,
    node: NodeId,
    fresh: NodeId,
)
    requires
        before.node_map().contains_key(node),
        removed.node_generation(node.slot()) == before.node_generation(node.slot()).wrapping_add(1),
        fresh.slot() == node.slot(),
        fresh.generation_view() == removed.node_generation(fresh.slot()),
    ensures
        fresh.generation_view() == node.generation_view().wrapping_add(1),
        fresh != node,
{
    before.lemma_live_node_generation(node);
    let g = node.generation_view();
    assert(g.wrapping_add(1) != g) by (bit_vector);
}

} // verus!
