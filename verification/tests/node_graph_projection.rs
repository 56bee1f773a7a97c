use understory::node_graph::{EdgeId, EdgeView, GraphProjection, NodeId, PortId};

type Projection = GraphProjection<&'static str, u32, EdgeView<()>>;

#[test]
fn setting_views_advances_revision_and_returns_previous() {
    let mut projection = Projection::new();
    assert_eq!(projection.revision().get(), 0);
    let node = NodeId::from_parts(0, 1);

    assert_eq!(projection.set_node_view(node, "first"), None);
    assert_eq!(projection.revision().get(), 1);
    assert_eq!(projection.set_node_view(node, "second"), Some("first"));
    assert_eq!(projection.revision().get(), 2);
    assert_eq!(projection.node_view(node), Some(&"second"));
}

#[test]
fn removing_absent_view_keeps_revision() {
    let mut projection = Projection::new();
    let port = PortId::from_parts(3, 1);
    assert_eq!(projection.remove_port_view(port), None);
    assert_eq!(projection.revision().get(), 0);

    projection.set_port_view(port, 7);
    assert_eq!(projection.remove_port_view(port), Some(7));
    assert_eq!(projection.revision().get(), 2);
    assert!(projection.port_view(port).is_none());
}

#[test]
fn views_of_each_kind_are_kept_apart() {
    let mut projection = Projection::new();
    let a = NodeId::from_parts(0, 1);
    let b = NodeId::from_parts(1, 1);
    let e = EdgeId::from_parts(0, 1);
    projection.set_node_view(a, "a");
    projection.set_node_view(b, "b");
    projection.set_edge_view(e, EdgeView::new(()));
    assert_eq!(projection.remove_node_view(a), Some("a"));

    let nodes: Vec<(NodeId, &str)> = projection.iter_node_views().into_iter().map(|(id, v)| (id, *v)).collect();
    assert_eq!(nodes, vec![(b, "b")]);
    assert_eq!(projection.iter_edge_views().len(), 1);
    assert!(projection.edge_view(e).is_some_and(|v| !v.hidden && v.z_index == 0));
    assert!(projection.iter_port_views().is_empty());
    assert_eq!(projection.revision().get(), 4);
}
