use vstd::prelude::*;

use super::graph::{EdgeData, GraphDoc, PortData};
use super::ids::{EdgeId, PortId};

verus! {

/// What a compatibility policy sees of a proposed edge: the document, the
/// two port ids and their data.
pub struct ConnectionContext<'a, N, P, E> {
    doc: &'a GraphDoc<N, P, E>,
    output: PortId,
    input: PortId,
    output_port: &'a PortData<P>,
    input_port: &'a PortData<P>,
}

impl<'a, N, P, E> ConnectionContext<'a, N, P, E> {
    /// The context always describes two live ports of a consistent document.
    #[verifier::type_invariant]
    spec fn context_inv(self) -> bool {
        &&& self.doc.wf()
        &&& self.doc.port_map().contains_key(self.output)
        &&& self.doc.port_map().contains_key(self.input)
        &&& *self.output_port == self.doc.port_map()[self.output]
        &&& *self.input_port == self.doc.port_map()[self.input]
    }

    /// The document.
    pub closed spec fn doc_view(self) -> GraphDoc<N, P, E> {
        *self.doc
    }

    /// The proposed output port.
    pub closed spec fn output_view(self) -> PortId {
        self.output
    }

    /// The proposed input port.
    pub closed spec fn input_view(self) -> PortId {
        self.input
    }

    /// Describes connecting the live port `output` to the live port `input`.
    pub(crate) fn new(
        doc: &'a GraphDoc<N, P, E>,
        output: PortId,
        input: PortId,
        output_port: &'a PortData<P>,
        input_port: &'a PortData<P>,
    ) -> (cx: Self)
        requires
            doc.wf(),
            doc.port_map().contains_key(output),
            doc.port_map().contains_key(input),
            *output_port == doc.port_map()[output],
            *input_port == doc.port_map()[input],
        ensures
            cx.doc_view() == *doc,
            cx.output_view() == output,
            cx.input_view() == input,
    {
        ConnectionContext { doc, output, input, output_port, input_port }
    }

    /// The document.
    pub fn doc(&self) -> (r: &'a GraphDoc<N, P, E>)
        ensures
            *r == self.doc_view(),
            r.wf(),
    {
        proof {
            use_type_invariant(self);
        }
        self.doc
    }

    /// The proposed output port.
    pub fn output(&self) -> (r: PortId)
        ensures
            r == self.output_view(),
    {
        self.output
    }

    /// The proposed input port.
    pub fn input(&self) -> (r: PortId)
        ensures
            r == self.input_view(),
    {
        self.input
    }

    /// Data of the proposed output port.
    pub fn output_port(&self) -> (r: &'a PortData<P>)
        ensures
            self.doc_view().port_map().contains_key(self.output_view()),
            *r == self.doc_view().port_map()[self.output_view()],
    {
        proof {
            use_type_invariant(self);
        }
        self.output_port
    }

    /// Data of the proposed input port.
    pub fn input_port(&self) -> (r: &'a PortData<P>)
        ensures
            self.doc_view().port_map().contains_key(self.input_view()),
            *r == self.doc_view().port_map()[self.input_view()],
    {
        proof {
            use_type_invariant(self);
        }
        self.input_port
    }

    /// The edges already attached to the output port.
    pub fn output_edges(&self) -> (r: &'a [EdgeId])
        ensures
            r@ == self.doc_view().port_edges_map()[self.output_view()],
    {
        proof {
            use_type_invariant(self);
        }
        match self.doc.port_edges(self.output) {
            Some(s) => s,
            None => {
                proof {
                    assert(false);
                }
                &[]
            },
        }
    }

    /// The edges already attached to the input port.
    pub fn input_edges(&self) -> (r: &'a [EdgeId])
        ensures
            r@ == self.doc_view().port_edges_map()[self.input_view()],
    {
        proof {
            use_type_invariant(self);
        }
        match self.doc.port_edges(self.input) {
            Some(s) => s,
            None => {
                proof {
                    assert(false);
                }
                &[]
            },
        }
    }

    /// An existing edge between the same two ports, if any.
    pub fn duplicate_edge(&self) -> (r: Option<(EdgeId, &'a EdgeData<E>)>)
        ensures
            match r {
                Some(found) => self.doc_view().edge_map().contains_key(found.0)
                    && *found.1 == self.doc_view().edge_map()[found.0]
                    && found.1.output == self.output_view() && found.1.input == self.input_view(),
                None => !has_edge_between(self.doc_view(), self.output_view(), self.input_view()),
            },
    {
        proof {
            use_type_invariant(self);
        }
        self.doc.edge_between(self.output, self.input)
    }
}

/// Some live edge of `doc` runs from `output` to `input`.
pub open spec fn has_edge_between<N, P, E>(doc: GraphDoc<N, P, E>, output: PortId, input: PortId) -> bool {
    exists|e: EdgeId| #[trigger] doc.edge_map().contains_key(e) && doc.edge_map()[e].output == output
        && doc.edge_map()[e].input == input
}

/// A policy deciding whether two ports may be connected, consulted after
/// the ports have been found to exist and to point the right way.
pub trait PortCompatibility<N, P, E> {
    /// Whether `can_connect` answers by `allows`. Policies that state their
    /// rule set it to `true`; for the others nothing is claimed of their
    /// answers.
    open spec fn obeys_allows_spec(&self) -> bool {
        false
    }

    /// Whether the policy allows an edge from `output` to `input` in `doc`.
    open spec fn allows(&self, doc: GraphDoc<N, P, E>, output: PortId, input: PortId) -> bool {
        true
    }

    /// Returns `true` if the proposed edge is allowed.
    fn can_connect(&self, cx: ConnectionContext<'_, N, P, E>) -> (r: bool)
        ensures
            self.obeys_allows_spec() ==> r == self.allows(cx.doc_view(), cx.output_view(), cx.input_view()),
    ;
}

/// Allows every direction-valid connection.
#[derive(Copy, Clone, Debug, Default)]
pub struct AllowAllPortConnections;

impl<N, P, E> PortCompatibility<N, P, E> for AllowAllPortConnections {
    open spec fn obeys_allows_spec(&self) -> bool {
        true
    }

    open spec fn allows(&self, doc: GraphDoc<N, P, E>, output: PortId, input: PortId) -> bool {
        true
    }

    fn can_connect(&self, cx: ConnectionContext<'_, N, P, E>) -> (r: bool)
        ensures
            r,
    {
        true
    }
}

/// Rejects a connection that already exists between the same two ports.
#[derive(Copy, Clone, Debug, Default)]
pub struct RejectDuplicateConnections;

impl<N, P, E> PortCompatibility<N, P, E> for RejectDuplicateConnections {
    open spec fn obeys_allows_spec(&self) -> bool {
        true
    }

    open spec fn allows(&self, doc: GraphDoc<N, P, E>, output: PortId, input: PortId) -> bool {
        !has_edge_between(doc, output, input)
    }

    fn can_connect(&self, cx: ConnectionContext<'_, N, P, E>) -> (r: bool)
        ensures
            r == !has_edge_between(cx.doc_view(), cx.output_view(), cx.input_view()),
    {
        cx.duplicate_edge().is_none()
    }
}

/// Allows at most one edge into each input port (and no duplicates).
#[derive(Copy, Clone, Debug, Default)]
pub struct SingleInputConnections;

impl<N, P, E> PortCompatibility<N, P, E> for SingleInputConnections {
    open spec fn obeys_allows_spec(&self) -> bool {
        true
    }

    open spec fn allows(&self, doc: GraphDoc<N, P, E>, output: PortId, input: PortId) -> bool {
        doc.port_edges_map()[input].len() == 0 && !has_edge_between(doc, output, input)
    }

    fn can_connect(&self, cx: ConnectionContext<'_, N, P, E>) -> (r: bool)
        ensures
            r == (cx.doc_view().port_edges_map()[cx.input_view()].len() == 0
                && !has_edge_between(cx.doc_view(), cx.output_view(), cx.input_view())),
    {
        cx.input_edges().len() == 0 && cx.duplicate_edge().is_none()
    }
}

} // verus!
