use understory::node_graph::{
    AllowAllPortConnections, ConnectError, GraphDoc, GraphInvalidation, GraphInvalidationCause, InvalidationTarget,
    NodeData, PortDirection, RejectDuplicateConnections, SingleInputConnections,
};

fn two_node_doc() -> (GraphDoc<u8, u8, u8>, understory::node_graph::PortId, understory::node_graph::PortId) {
    let mut doc = GraphDoc::<u8, u8, u8>::new();
    let a = doc.add_node(NodeData { meta: 1 });
    let b = doc.add_node(NodeData { meta: 2 });
    let out = doc.add_port(a, PortDirection::Output, 10).unwrap();
    let input = doc.add_port(b, PortDirection::Input, 20).unwrap();
    (doc, out, input)
}

#[test]
fn add_edge_reports_each_connect_error() {
    let (mut doc, out, input) = two_node_doc();
    let owner = doc.port(out).unwrap().owner;
    let missing = doc.add_port(owner, PortDirection::Output, 0).unwrap();
    doc.remove_port(missing).unwrap();
    let revision = doc.revision();
    assert_eq!(doc.add_edge(input, out, 0), Err(ConnectError::DirectionMismatch));
    assert_eq!(doc.add_edge(missing, input, 0), Err(ConnectError::MissingPort(missing)));
    assert_eq!(doc.add_edge(out, missing, 0), Err(ConnectError::MissingPort(missing)));
    assert_eq!(doc.revision(), revision);
    assert_eq!(doc.edge_count(), 0);
}

#[test]
fn add_then_remove_edge_restores_port_lists() {
    let (mut doc, out, input) = two_node_doc();
    let first = doc.add_edge(out, input, 1).unwrap();
    let before_out = doc.port_edges(out).unwrap().to_vec();
    let before_in = doc.port_edges(input).unwrap().to_vec();
    let second = doc.add_edge(out, input, 2).unwrap();
    assert_eq!(doc.port_edges(out).unwrap(), &[first, second][..]);
    let removed = doc.remove_edge(second).unwrap();
    assert_eq!(removed.meta, 2);
    assert_eq!(doc.port_edges(out).unwrap(), &before_out[..]);
    assert_eq!(doc.port_edges(input).unwrap(), &before_in[..]);
    assert!(doc.remove_edge(second).is_none());
    assert_eq!(doc.edge_count(), 1);
}

#[test]
fn add_then_remove_node_leaves_other_data() {
    let (mut doc, out, input) = two_node_doc();
    let edge = doc.add_edge(out, input, 5).unwrap();
    let c = doc.add_node(NodeData { meta: 3 });
    let removed = doc.remove_node(c).unwrap();
    assert_eq!(removed.meta, 3);
    assert!(doc.contains_edge(edge));
    assert_eq!(doc.node_count(), 2);
    assert_eq!(doc.port_count(), 2);
    assert!(doc.remove_node(c).is_none());
}

#[test]
fn removing_a_port_removes_its_edges_and_owner_entry() {
    let (mut doc, out, input) = two_node_doc();
    let edge = doc.add_edge(out, input, 5).unwrap();
    let owner = doc.port(out).unwrap().owner;
    let data = doc.remove_port(out).unwrap();
    assert_eq!(data.meta, 10);
    assert_eq!(data.direction, PortDirection::Output);
    assert!(!doc.contains_edge(edge));
    assert_eq!(doc.port_edges(input).unwrap(), &[][..]);
    assert_eq!(doc.node_ports(owner).unwrap(), &[][..]);
    assert!(doc.remove_port(out).is_none());
}

#[test]
fn stale_ids_do_not_alias_reused_slots() {
    let mut doc = GraphDoc::<u8, u8, u8>::new();
    let a = doc.add_node(NodeData { meta: 1 });
    doc.remove_node(a);
    let b = doc.add_node(NodeData { meta: 2 });
    assert_eq!(a.index(), b.index());
    assert_ne!(a, b);
    assert!(!doc.contains_node(a));
    assert_eq!(doc.node(b).unwrap().meta, 2);
}

#[test]
fn edge_between_finds_matching_edge_only() {
    let (mut doc, out, input) = two_node_doc();
    assert!(doc.edge_between(out, input).is_none());
    let edge = doc.add_edge(out, input, 9).unwrap();
    let (found, data) = doc.edge_between(out, input).unwrap();
    assert_eq!(found, edge);
    assert_eq!(data.meta, 9);
    assert!(doc.edge_between(input, out).is_none());
}

#[test]
fn iterators_list_every_live_element_once() {
    let (mut doc, out, input) = two_node_doc();
    let edge = doc.add_edge(out, input, 9).unwrap();
    assert_eq!(doc.iter_nodes().len(), 2);
    let ports = doc.iter_ports();
    assert_eq!(ports.len(), 2);
    assert!(ports.iter().any(|(id, data)| *id == out && data.meta == 10));
    let edges = doc.iter_edges();
    assert_eq!(edges.len(), 1);
    assert_eq!(edges[0].0, edge);
}

#[test]
fn builtin_policies_decide_as_documented() {
    let (mut doc, out, input) = two_node_doc();
    assert_eq!(doc.can_connect_with(out, input, &AllowAllPortConnections), Ok(true));
    assert_eq!(doc.can_connect_with(out, input, &RejectDuplicateConnections), Ok(true));
    assert_eq!(doc.can_connect_with(out, input, &SingleInputConnections), Ok(true));
    doc.add_edge(out, input, 0).unwrap();
    assert_eq!(doc.can_connect_with(out, input, &AllowAllPortConnections), Ok(true));
    assert_eq!(doc.can_connect_with(out, input, &RejectDuplicateConnections), Ok(false));
    assert_eq!(doc.can_connect_with(out, input, &SingleInputConnections), Ok(false));
    assert_eq!(doc.can_connect_with(input, out, &AllowAllPortConnections), Err(ConnectError::DirectionMismatch));
}

#[test]
fn marking_twice_is_idempotent() {
    let mut inv = GraphInvalidation::new();
    assert!(inv.mark_graph());
    let revision = inv.revision();
    assert!(!inv.mark_graph());
    assert_eq!(inv.revision(), revision);
    assert_eq!(inv.iter(GraphInvalidationCause::Graph), vec![InvalidationTarget::Graph]);
    assert!(inv.has_cause(GraphInvalidationCause::Graph));
    assert!(!inv.has_cause(GraphInvalidationCause::Session));
    inv.clear(GraphInvalidationCause::Graph);
    assert!(inv.is_empty());
    assert!(inv.mark_session());
    assert!(inv.mark_routing());
    inv.clear_all();
    assert!(inv.is_empty());
}

#[test]
fn removed_node_id_is_not_reissued() {
    let mut doc = GraphDoc::<(), (), ()>::new();
    let a = doc.add_node(NodeData { meta: () });
    assert!(doc.remove_node(a).is_some());
    let b = doc.add_node(NodeData { meta: () });
    assert_eq!(b.index(), a.index());
    assert_eq!(b.generation(), a.generation() + 1);
    assert_ne!(a, b);
    assert!(!doc.contains_node(a));
    assert!(doc.contains_node(b));
}
