use vstd::prelude::*;

use super::ids::{EdgeId, NodeId, PortId};
use super::revision::Revision;
use crate::dirty::key::Key;

verus! {

/// How one edge takes part in a projection.
#[derive(Clone, Debug)]
pub struct EdgeView<M> {
    /// Draw and hit-test order hint; larger values are above smaller ones.
    pub z_index: i32,
    /// Whether the edge is hidden in this projection.
    pub hidden: bool,
    /// Host-defined view metadata.
    pub meta: M,
}

impl<M> EdgeView<M> {
    /// A visible edge view with default ordering.
    pub fn new(meta: M) -> (v: Self)
        ensures
            v.z_index == 0,
            !v.hidden,
            v.meta == meta,
    {
        EdgeView { z_index: 0, hidden: false, meta }
    }
}

/// The views of one kind of element, keyed by element id, in the order they
/// were first set.
#[derive(Clone, Debug)]
pub struct ViewMap<I, V> {
    entries: Vec<(I, V)>,
}

/// The map from ids to views held by `entries`.
pub open spec fn entries_map<I, V>(entries: Seq<(I, V)>) -> Map<I, V>
    decreases entries.len(),
{
    if entries.len() == 0 {
        Map::empty()
    } else {
        entries_map(entries.drop_last()).insert(entries.last().0, entries.last().1)
    }
}

/// No id occurs twice in `entries`.
pub open spec fn distinct_ids<I, V>(entries: Seq<(I, V)>) -> bool {
    forall|a: int, b: int| 0 <= a < b < entries.len() ==> entries[a].0 != entries[b].0
}

/// In `entries` with distinct ids, the map sends the id of each entry to
/// its view and holds no other id.
proof fn lemma_entries_map<I, V>(entries: Seq<(I, V)>)
    requires
        distinct_ids(entries),
    ensures
        forall|i: int| 0 <= i < entries.len() ==> #[trigger] entries_map(entries).contains_key(entries[i].0)
            && entries_map(entries)[entries[i].0] == entries[i].1,
        forall|id: I| #[trigger] entries_map(entries).contains_key(id) ==> exists|i: int|
            0 <= i < entries.len() && entries[i].0 == id,
        entries_map(entries).dom().finite(),
        entries_map(entries).dom().len() == entries.len(),
    decreases entries.len(),
{
    if entries.len() > 0 {
        let init = entries.drop_last();
        lemma_entries_map(init);
        let last = entries.last();
        assert(!entries_map(init).contains_key(last.0)) by {
            if entries_map(init).contains_key(last.0) {
                let i = choose|i: int| 0 <= i < init.len() && init[i].0 == last.0;
                assert(entries[i].0 == entries[entries.len() - 1].0);
            }
        }
        assert forall|i: int| 0 <= i < entries.len() implies #[trigger] entries_map(entries).contains_key(entries[i].0)
            && entries_map(entries)[entries[i].0] == entries[i].1 by {
            if i < entries.len() - 1 {
                assert(init[i] == entries[i]);
                assert(entries[i].0 != last.0);
            }
        }
        assert forall|id: I| #[trigger] entries_map(entries).contains_key(id) implies exists|i: int|
            0 <= i < entries.len() && entries[i].0 == id by {
            if id != last.0 {
                let i = choose|i: int| 0 <= i < init.len() && init[i].0 == id;
                assert(entries[i] == init[i]);
            } else {
                assert(entries[entries.len() - 1].0 == id);
            }
        }
    }
}

impl<I: Key, V> ViewMap<I, V> {
    /// The views by id.
    pub closed spec fn map_view(self) -> Map<I, V> {
        entries_map(self.entries@)
    }

    /// No id is held twice.
    pub closed spec fn wf(self) -> bool {
        distinct_ids(self.entries@)
    }

    /// An empty map.
    pub fn new() -> (m: Self)
        ensures
            m.wf(),
            m.map_view() == Map::<I, V>::empty(),
    {
        ViewMap { entries: Vec::new() }
    }

    fn find(&self, id: I) -> (r: Option<usize>)
        requires
            self.wf(),
        ensures
            r is None <==> !self.map_view().contains_key(id),
            r matches Some(i) ==> i < self.entries@.len() && self.entries@[i as int].0 == id,
    {
        proof {
            lemma_entries_map(self.entries@);
        }
        let mut i: usize = 0;
        while i < self.entries.len()
            invariant
                self.wf(),
                i <= self.entries@.len(),
                forall|j: int| 0 <= j < i ==> self.entries@[j].0 != id,
            decreases self.entries.len() - i,
        {
            if self.entries[i].0.key_eq(&id) {
                proof {
                    lemma_entries_map(self.entries@);
                }
                return Some(i);
            }
            i += 1;
        }
        None
    }

    /// The view of `id`, if set.
    pub fn get(&self, id: I) -> (r: Option<&V>)
        requires
            self.wf(),
        ensures
            r == if self.map_view().contains_key(id) {
                Some(&self.map_view()[id])
            } else {
                None::<&V>
            },
    {
        proof {
            lemma_entries_map(self.entries@);
        }
        match self.find(id) {
            Some(i) => Some(&self.entries[i].1),
            None => None,
        }
    }

    /// Sets the view of `id` and returns the one it replaces.
    pub fn insert(&mut self, id: I, view: V) -> (r: Option<V>)
        requires
            old(self).wf(),
        ensures
            final(self).wf(),
            final(self).map_view() == old(self).map_view().insert(id, view),
            r == if old(self).map_view().contains_key(id) {
                Some(old(self).map_view()[id])
            } else {
                None::<V>
            },
    {
        proof {
            lemma_entries_map(self.entries@);
        }
        match self.find(id) {
            Some(i) => {
                let mut entry = (id, view);
                std::mem::swap(&mut entry, &mut self.entries[i]);
                proof {
                    assert(distinct_ids(self.entries@)) by {
                        assert forall|a: int, b: int| 0 <= a < b < self.entries@.len() implies self.entries@[a].0
                            != self.entries@[b].0 by {
                            assert(self.entries@[a].0 == old(self).entries@[a].0);
                            assert(self.entries@[b].0 == old(self).entries@[b].0);
                        }
                    }
                    lemma_entries_map(self.entries@);
                    assert forall|k: I| #[trigger] self.map_view().contains_key(k) == old(self).map_view().insert(
                        id,
                        view,
                    ).contains_key(k) by {
                        if self.map_view().contains_key(k) {
                            let j = choose|j: int| 0 <= j < self.entries@.len() && self.entries@[j].0 == k;
                            if j != i {
                                assert(old(self).entries@[j].0 == k);
                            }
                        }
                        if old(self).map_view().contains_key(k) {
                            let j = choose|j: int| 0 <= j < old(self).entries@.len() && old(self).entries@[j].0 == k;
                            assert(self.entries@[j].0 == k);
                        }
                    }
                    assert forall|k: I| #[trigger] self.map_view().contains_key(k) implies self.map_view()[k]
                        == old(self).map_view().insert(id, view)[k] by {
                        let j = choose|j: int| 0 <= j < self.entries@.len() && self.entries@[j].0 == k;
                        if j != i {
                            assert(old(self).entries@[j] == self.entries@[j]);
                        }
                    }
                    assert(self.map_view() =~= old(self).map_view().insert(id, view));
                }
                Some(entry.1)
            },
            None => {
                self.entries.push((id, view));
                proof {
                    assert(self.entries@.drop_last() == old(self).entries@);
                    assert(distinct_ids(self.entries@)) by {
                        assert forall|a: int, b: int| 0 <= a < b < self.entries@.len() implies self.entries@[a].0
                            != self.entries@[b].0 by {
                            if b == self.entries@.len() - 1 {
                                assert(old(self).entries@[a] == self.entries@[a]);
                            }
                        }
                    }
                }
                None
            },
        }
    }

    /// Removes the view of `id` and returns it.
    pub fn remove(&mut self, id: I) -> (r: Option<V>)
        requires
            old(self).wf(),
        ensures
            final(self).wf(),
            final(self).map_view() == old(self).map_view().remove(id),
            r == if old(self).map_view().contains_key(id) {
                Some(old(self).map_view()[id])
            } else {
                None::<V>
            },
    {
        proof {
            lemma_entries_map(self.entries@);
        }
        match self.find(id) {
            Some(i) => {
                let entry = self.entries.remove(i);
                proof {
                    let old_e = old(self).entries@;
                    assert(distinct_ids(self.entries@)) by {
                        assert forall|a: int, b: int| 0 <= a < b < self.entries@.len() implies self.entries@[a].0
                            != self.entries@[b].0 by {
                            let oa = if a < i { a } else { a + 1 };
                            let ob = if b < i { b } else { b + 1 };
                            assert(self.entries@[a] == old_e[oa]);
                            assert(self.entries@[b] == old_e[ob]);
                        }
                    }
                    lemma_entries_map(self.entries@);
                    assert forall|k: I| #[trigger] self.map_view().contains_key(k) == old(self).map_view().remove(
                        id,
                    ).contains_key(k) by {
                        if self.map_view().contains_key(k) {
                            let j = choose|j: int| 0 <= j < self.entries@.len() && self.entries@[j].0 == k;
                            let oj = if j < i { j } else { j + 1 };
                            assert(self.entries@[j] == old_e[oj]);
                        }
                        if old(self).map_view().contains_key(k) && k != id {
                            let j = choose|j: int| 0 <= j < old_e.len() && old_e[j].0 == k;
                            let nj = if j < i { j } else { j - 1 };
                            assert(self.entries@[nj] == old_e[j]);
                        }
                    }
                    assert forall|k: I| #[trigger] self.map_view().contains_key(k) implies self.map_view()[k]
                        == old(self).map_view()[k] by {
                        let j = choose|j: int| 0 <= j < self.entries@.len() && self.entries@[j].0 == k;
                        let oj = if j < i { j } else { j + 1 };
                        assert(self.entries@[j] == old_e[oj]);
                    }
                    assert(self.map_view() =~= old(self).map_view().remove(id));
                }
                Some(entry.1)
            },
            None => {
                assert(old(self).map_view().remove(id) =~= old(self).map_view());
                None
            },
        }
    }

    /// Every set view with its id, each once, in the order first set.
    pub fn iter(&self) -> (r: Vec<(I, &V)>)
        requires
            self.wf(),
        ensures
            r@.len() == self.map_view().dom().len(),
            forall|i: int| 0 <= i < r@.len() ==> #[trigger] self.map_view().contains_key(r@[i].0)
                && *r@[i].1 == self.map_view()[r@[i].0],
            forall|id: I| #[trigger] self.map_view().contains_key(id) ==> exists|i: int|
                0 <= i < r@.len() && r@[i].0 == id,
            forall|a: int, b: int| 0 <= a < b < r@.len() ==> r@[a].0 != r@[b].0,
    {
        proof {
            lemma_entries_map(self.entries@);
        }
        let mut r: Vec<(I, &V)> = Vec::new();
        let mut i: usize = 0;
        while i < self.entries.len()
            invariant
                i <= self.entries@.len(),
                r@.len() == i,
                forall|j: int| 0 <= j < i ==> r@[j].0 == self.entries@[j].0 && *r@[j].1 == self.entries@[j].1,
            decreases self.entries.len() - i,
        {
            r.push((self.entries[i].0, &self.entries[i].1));
            i += 1;
        }
        proof {
            assert forall|id: I| #[trigger] self.map_view().contains_key(id) implies exists|i: int|
                0 <= i < r@.len() && r@[i].0 == id by {
                let j = choose|j: int| 0 <= j < self.entries@.len() && self.entries@[j].0 == id;
                assert(r@[j].0 == id);
            }
        }
        r
    }
}

/// Per-view graph projection state: the node, port and edge views of one
/// view of a document, with a revision that advances on every change.
#[derive(Clone, Debug)]
pub struct GraphProjection<N, P, E> {
    node_views: ViewMap<NodeId, N>,
    port_views: ViewMap<PortId, P>,
    edge_views: ViewMap<EdgeId, E>,
    revision: Revision,
}

impl<N, P, E> GraphProjection<N, P, E> {
    /// The node views by node id.
    pub closed spec fn nodes_view(self) -> Map<NodeId, N> {
        self.node_views.map_view()
    }

    /// The port views by port id.
    pub closed spec fn ports_view(self) -> Map<PortId, P> {
        self.port_views.map_view()
    }

    /// The edge views by edge id.
    pub closed spec fn edges_view(self) -> Map<EdgeId, E> {
        self.edge_views.map_view()
    }

    /// The revision number.
    pub closed spec fn revision_view(self) -> u64 {
        self.revision.value()
    }

    /// Internal consistency of the three view maps.
    pub closed spec fn wf(self) -> bool {
        self.node_views.wf() && self.port_views.wf() && self.edge_views.wf()
    }

    /// An empty projection at revision zero.
    pub fn new() -> (p: Self)
        ensures
            p.wf(),
            p.nodes_view() == Map::<NodeId, N>::empty(),
            p.ports_view() == Map::<PortId, P>::empty(),
            p.edges_view() == Map::<EdgeId, E>::empty(),
            p.revision_view() == 0,
    {
        GraphProjection {
            node_views: ViewMap::new(),
            port_views: ViewMap::new(),
            edge_views: ViewMap::new(),
            revision: Revision::new(),
        }
    }

    /// The revision; it advances on every change.
    pub fn revision(&self) -> (r: Revision)
        ensures
            r.value() == self.revision_view(),
    {
        self.revision
    }

    /// Sets the view of `node`, advancing the revision; returns the view it
    /// replaces.
    pub fn set_node_view(&mut self, node: NodeId, view: N) -> (r: Option<N>)
        requires
            old(self).wf(),
        ensures
            final(self).wf(),
            final(self).nodes_view() == old(self).nodes_view().insert(node, view),
            final(self).ports_view() == old(self).ports_view(),
            final(self).edges_view() == old(self).edges_view(),
            final(self).revision_view() == old(self).revision_view().wrapping_add(1),
            r == if old(self).nodes_view().contains_key(node) {
                Some(old(self).nodes_view()[node])
            } else {
                None::<N>
            },
    {
        self.revision.bump();
        self.node_views.insert(node, view)
    }

    /// Sets the view of `port`, advancing the revision; returns the view it
    /// replaces.
    pub fn set_port_view(&mut self, port: PortId, view: P) -> (r: Option<P>)
        requires
            old(self).wf(),
        ensures
            final(self).wf(),
            final(self).ports_view() == old(self).ports_view().insert(port, view),
            final(self).nodes_view() == old(self).nodes_view(),
            final(self).edges_view() == old(self).edges_view(),
            final(self).revision_view() == old(self).revision_view().wrapping_add(1),
            r == if old(self).ports_view().contains_key(port) {
                Some(old(self).ports_view()[port])
            } else {
                None::<P>
            },
    {
        self.revision.bump();
        self.port_views.insert(port, view)
    }

    /// Sets the view of `edge`, advancing the revision; returns the view it
    /// replaces.
    pub fn set_edge_view(&mut self, edge: EdgeId, view: E) -> (r: Option<E>)
        requires
            old(self).wf(),
        ensures
            final(self).wf(),
            final(self).edges_view() == old(self).edges_view().insert(edge, view),
            final(self).nodes_view() == old(self).nodes_view(),
            final(self).ports_view() == old(self).ports_view(),
            final(self).revision_view() == old(self).revision_view().wrapping_add(1),
            r == if old(self).edges_view().contains_key(edge) {
                Some(old(self).edges_view()[edge])
            } else {
                None::<E>
            },
    {
        self.revision.bump();
        self.edge_views.insert(edge, view)
    }

    /// Removes the view of `node`; the revision advances only if there was one.
    pub fn remove_node_view(&mut self, node: NodeId) -> (r: Option<N>)
        requires
            old(self).wf(),
        ensures
            final(self).wf(),
            final(self).nodes_view() == old(self).nodes_view().remove(node),
            final(self).ports_view() == old(self).ports_view(),
            final(self).edges_view() == old(self).edges_view(),
            r == if old(self).nodes_view().contains_key(node) {
                Some(old(self).nodes_view()[node])
            } else {
                None::<N>
            },
            final(self).revision_view() == if r is Some {
                old(self).revision_view().wrapping_add(1)
            } else {
                old(self).revision_view()
            },
    {
        let removed = self.node_views.remove(node);
        if removed.is_some() {
            self.revision.bump();
        }
        removed
    }

    /// Removes the view of `port`; the revision advances only if there was one.
    pub fn remove_port_view(&mut self, port: PortId) -> (r: Option<P>)
        requires
            old(self).wf(),
        ensures
            final(self).wf(),
            final(self).ports_view() == old(self).ports_view().remove(port),
            final(self).nodes_view() == old(self).nodes_view(),
            final(self).edges_view() == old(self).edges_view(),
            r == if old(self).ports_view().contains_key(port) {
                Some(old(self).ports_view()[port])
            } else {
                None::<P>
            },
            final(self).revision_view() == if r is Some {
                old(self).revision_view().wrapping_add(1)
            } else {
                old(self).revision_view()
            },
    {
        let removed = self.port_views.remove(port);
        if removed.is_some() {
            self.revision.bump();
        }
        removed
    }

    /// Removes the view of `edge`; the revision advances only if there was one.
    pub fn remove_edge_view(&mut self, edge: EdgeId) -> (r: Option<E>)
        requires
            old(self).wf(),
        ensures
            final(self).wf(),
            final(self).edges_view() == old(self).edges_view().remove(edge),
            final(self).nodes_view() == old(self).nodes_view(),
            final(self).ports_view() == old(self).ports_view(),
            r == if old(self).edges_view().contains_key(edge) {
                Some(old(self).edges_view()[edge])
            } else {
                None::<E>
            },
            final(self).revision_view() == if r is Some {
                old(self).revision_view().wrapping_add(1)
            } else {
                old(self).revision_view()
            },
    {
        let removed = self.edge_views.remove(edge);
        if removed.is_some() {
            self.revision.bump();
        }
        removed
    }

    /// The view of `node`, if set.
    pub fn node_view(&self, node: NodeId) -> (r: Option<&N>)
        requires
            self.wf(),
        ensures
            r == if self.nodes_view().contains_key(node) {
                Some(&self.nodes_view()[node])
            } else {
                None::<&N>
            },
    {
        self.node_views.get(node)
    }

    /// The view of `port`, if set.
    pub fn port_view(&self, port: PortId) -> (r: Option<&P>)
        requires
            self.wf(),
        ensures
            r == if self.ports_view().contains_key(port) {
                Some(&self.ports_view()[port])
            } else {
                None::<&P>
            },
    {
        self.port_views.get(port)
    }

    /// The view of `edge`, if set.
    pub fn edge_view(&self, edge: EdgeId) -> (r: Option<&E>)
        requires
            self.wf(),
        ensures
            r == if self.edges_view().contains_key(edge) {
                Some(&self.edges_view()[edge])
            } else {
                None::<&E>
            },
    {
        self.edge_views.get(edge)
    }

    /// Every node view with its node, each once.
    pub fn iter_node_views(&self) -> (r: Vec<(NodeId, &N)>)
        requires
            self.wf(),
        ensures
            r@.len() == self.nodes_view().dom().len(),
            forall|i: int| 0 <= i < r@.len() ==> #[trigger] self.nodes_view().contains_key(r@[i].0)
                && *r@[i].1 == self.nodes_view()[r@[i].0],
            forall|id: NodeId| #[trigger] self.nodes_view().contains_key(id) ==> exists|i: int|
                0 <= i < r@.len() && r@[i].0 == id,
    {
        self.node_views.iter()
    }

    /// Every port view with its port, each once.
    pub fn iter_port_views(&self) -> (r: Vec<(PortId, &P)>)
        requires
            self.wf(),
        ensures
            r@.len() == self.ports_view().dom().len(),
            forall|i: int| 0 <= i < r@.len() ==> #[trigger] self.ports_view().contains_key(r@[i].0)
                && *r@[i].1 == self.ports_view()[r@[i].0],
            forall|id: PortId| #[trigger] self.ports_view().contains_key(id) ==> exists|i: int|
                0 <= i < r@.len() && r@[i].0 == id,
    {
        self.port_views.iter()
    }

    /// Every edge view with its edge, each once.
    pub fn iter_edge_views(&self) -> (r: Vec<(EdgeId, &E)>)
        requires
            self.wf(),
        ensures
            r@.len() == self.edges_view().dom().len(),
            forall|i: int| 0 <= i < r@.len() ==> #[trigger] self.edges_view().contains_key(r@[i].0)
                && *r@[i].1 == self.edges_view()[r@[i].0],
            forall|id: EdgeId| #[trigger] self.edges_view().contains_key(id) ==> exists|i: int|
                0 <= i < r@.len() && r@[i].0 == id,
    {
        self.edge_views.iter()
    }
}

impl<N, P, E> Default for GraphProjection<N, P, E> {
    fn default() -> (p: Self)
        ensures
            p.wf(),
            p.nodes_view() == Map::<NodeId, N>::empty(),
            p.ports_view() == Map::<PortId, P>::empty(),
            p.edges_view() == Map::<EdgeId, E>::empty(),
            p.revision_view() == 0,
    {
        Self::new()
    }
}

/// Routes each edge as the straight segment between its two anchors.
#[derive(Copy, Clone, Debug, Default)]
pub struct StraightEdgeRouter;

} // verus!
