use understory::node_graph::{
    ConnectionContext, EdgeId, GraphDoc, GraphInvalidation, GraphInvalidationCause, InvalidationTarget, NodeData,
    NodeId, PortCompatibility, PortDirection, PortId,
};

#[test]
fn removing_node_prunes_ports_and_edges() {
    let mut doc = GraphDoc::<(), (), ()>::new();
    let a = doc.add_node(NodeData { meta: () });
    let b = doc.add_node(NodeData { meta: () });
    let out = doc.add_port(a, PortDirection::Output, ()).unwrap();
    let input = doc.add_port(b, PortDirection::Input, ()).unwrap();
    let edge = doc.add_edge(out, input, ()).unwrap();

    let removed = doc.remove_node(a);
    assert!(removed.is_some());
    assert!(!doc.contains_node(a));
    assert!(!doc.contains_port(out));
    assert!(!doc.contains_edge(edge));
    assert!(doc.contains_node(b));
    assert!(doc.contains_port(input));
}

#[test]
fn compatibility_policy_can_reject_connections() {
    struct RejectAll;

    impl<N, P, E> PortCompatibility<N, P, E> for RejectAll {
        fn can_connect(&self, _cx: ConnectionContext<'_, N, P, E>) -> bool {
            false
        }
    }

    let mut doc = GraphDoc::<(), (), ()>::new();
    let a = doc.add_node(NodeData { meta: () });
    let b = doc.add_node(NodeData { meta: () });
    let out = doc.add_port(a, PortDirection::Output, ()).unwrap();
    let input = doc.add_port(b, PortDirection::Input, ()).unwrap();

    assert_eq!(doc.can_connect_with(out, input, &RejectAll), Ok(false));
    assert_eq!(doc.add_edge_with(out, input, (), &RejectAll), Ok(None));
    assert_eq!(doc.edge_count(), 0);
}

#[test]
fn compatibility_policy_can_inspect_existing_topology() {
    struct NoDuplicateEdges;
    struct SingleInputNoDuplicate;

    impl<N, P, E> PortCompatibility<N, P, E> for NoDuplicateEdges {
        fn can_connect(&self, cx: ConnectionContext<'_, N, P, E>) -> bool {
            cx.duplicate_edge().is_none()
        }
    }

    impl<N, P, E> PortCompatibility<N, P, E> for SingleInputNoDuplicate {
        fn can_connect(&self, cx: ConnectionContext<'_, N, P, E>) -> bool {
            cx.input_edges().is_empty() && cx.duplicate_edge().is_none()
        }
    }

    let mut doc = GraphDoc::<(), (), ()>::new();
    let first_source = doc.add_node(NodeData { meta: () });
    let second_source = doc.add_node(NodeData { meta: () });
    let sink = doc.add_node(NodeData { meta: () });
    let first_out = doc.add_port(first_source, PortDirection::Output, ()).unwrap();
    let second_out = doc.add_port(second_source, PortDirection::Output, ()).unwrap();
    let input = doc.add_port(sink, PortDirection::Input, ()).unwrap();

    let edge = doc
        .add_edge_with(first_out, input, (), &NoDuplicateEdges)
        .unwrap()
        .expect("first edge is not a duplicate");
    assert_eq!(
        doc.add_edge_with(first_out, input, (), &NoDuplicateEdges),
        Ok(None),
        "exact duplicate is rejected"
    );
    let second_edge = doc
        .add_edge_with(second_out, input, (), &NoDuplicateEdges)
        .unwrap()
        .expect("same input can still accept a distinct edge under this policy");
    assert_eq!(doc.port_edges(input), Some(&[edge, second_edge][..]));

    let single_input = doc.add_port(sink, PortDirection::Input, ()).unwrap();
    let single_edge = doc
        .add_edge_with(first_out, single_input, (), &SingleInputNoDuplicate)
        .unwrap()
        .expect("empty input accepts first edge");
    assert_eq!(
        doc.add_edge_with(second_out, single_input, (), &SingleInputNoDuplicate),
        Ok(None),
        "occupied input is rejected"
    );
    assert_eq!(doc.port_edges(single_input), Some(&[single_edge][..]));
}

#[test]
fn metadata_updates_bump_revision_without_exposing_topology_mutation() {
    let mut doc = GraphDoc::<&'static str, &'static str, &'static str>::new();
    let source = doc.add_node(NodeData { meta: "source" });
    let sink = doc.add_node(NodeData { meta: "sink" });
    let output = doc.add_port(source, PortDirection::Output, "out").unwrap();
    let input = doc.add_port(sink, PortDirection::Input, "in").unwrap();
    let edge = doc.add_edge(output, input, "edge").unwrap();

    let before = doc.revision();
    let old_node = doc
        .update_node_meta(source, |meta| {
            let old = *meta;
            *meta = "renamed source";
            old
        })
        .expect("node exists");
    assert_eq!(old_node, "source");
    assert!(doc.revision() > before);
    assert_eq!(doc.node(source).unwrap().meta, "renamed source");

    let old_port = doc
        .update_port_meta(output, |meta| {
            let old = *meta;
            *meta = "renamed out";
            old
        })
        .expect("port exists");
    assert_eq!(old_port, "out");
    let output_data = doc.port(output).unwrap();
    assert_eq!(output_data.owner, source);
    assert_eq!(output_data.direction, PortDirection::Output);
    assert_eq!(output_data.meta, "renamed out");

    let old_edge = doc
        .update_edge_meta(edge, |meta| {
            let old = *meta;
            *meta = "renamed edge";
            old
        })
        .expect("edge exists");
    assert_eq!(old_edge, "edge");
    let edge_data = doc.edge(edge).unwrap();
    assert_eq!(edge_data.output, output);
    assert_eq!(edge_data.input, input);
    assert_eq!(edge_data.meta, "renamed edge");

    let _ = doc.remove_edge(edge);
    let after_remove = doc.revision();
    assert_eq!(doc.update_edge_meta(edge, |_| ()), None);
    assert_eq!(doc.revision(), after_remove);
}

#[test]
fn helper_methods_mark_expected_causes_and_targets() {
    let mut invalidation = GraphInvalidation::new();
    let node = NodeId::from_parts(4, 0);
    let port = PortId::from_parts(7, 0);
    let edge = EdgeId::from_parts(9, 0);

    assert!(invalidation.mark_graph_node(node));
    assert!(invalidation.mark_projection_port(port));
    assert!(invalidation.mark_routing_edge(edge));
    assert!(invalidation.mark_viewport());

    assert_eq!(invalidation.iter(GraphInvalidationCause::Graph), vec![InvalidationTarget::Node(node)]);
    assert_eq!(invalidation.iter(GraphInvalidationCause::Projection), vec![InvalidationTarget::Port(port)]);
    assert_eq!(invalidation.iter(GraphInvalidationCause::Routing), vec![InvalidationTarget::Edge(edge)]);
    assert_eq!(invalidation.iter(GraphInvalidationCause::Viewport), vec![InvalidationTarget::Viewport]);
}
