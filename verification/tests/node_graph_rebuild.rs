use understory::node_graph::{
    collect_targeted_geometry, notify_invalidated, preview_snap_target, AllowAllPortConnections, ConnectionContext,
    HitTarget, PortCompatibility, DeriveState, EdgeId, GeometryRebuild, GraphDeriveObserver, GraphDoc,
    GraphInvalidation, GraphInvalidationCause, InvalidationTarget, NodeData, NodeId, PortDirection, PortId, Revision,
};

struct Chain {
    doc: GraphDoc<(), (), ()>,
    a: NodeId,
    b: NodeId,
    c: NodeId,
    a_out: PortId,
    b_in: PortId,
    b_out: PortId,
    ab: EdgeId,
    bc: EdgeId,
}

/// Three nodes `a -> b -> c`, each edge leaving an output port and entering
/// an input port.
fn chain() -> Chain {
    let mut doc = GraphDoc::<(), (), ()>::new();
    let a = doc.add_node(NodeData { meta: () });
    let b = doc.add_node(NodeData { meta: () });
    let c = doc.add_node(NodeData { meta: () });
    let a_out = doc.add_port(a, PortDirection::Output, ()).unwrap();
    let b_in = doc.add_port(b, PortDirection::Input, ()).unwrap();
    let b_out = doc.add_port(b, PortDirection::Output, ()).unwrap();
    let c_in = doc.add_port(c, PortDirection::Input, ()).unwrap();
    let ab = doc.add_edge(a_out, b_in, ()).unwrap();
    let bc = doc.add_edge(b_out, c_in, ()).unwrap();
    Chain { doc, a, b, c, a_out, b_in, b_out, ab, bc }
}

fn sorted<T: Ord>(mut v: Vec<T>) -> Vec<T> {
    v.sort();
    v
}

#[test]
fn node_target_touches_node_and_all_its_edges() {
    let g = chain();
    let mut inv = GraphInvalidation::new();
    inv.mark_graph_node(g.b);
    let t = collect_targeted_geometry(&g.doc, &inv).expect("element targets only");
    assert_eq!(t.nodes(), vec![g.b]);
    assert_eq!(sorted(t.edges()), sorted(vec![g.ab, g.bc]));
}

#[test]
fn port_target_touches_owner_and_port_edges() {
    let g = chain();
    let mut inv = GraphInvalidation::new();
    inv.mark_projection_port(g.b_in);
    let t = collect_targeted_geometry(&g.doc, &inv).expect("element targets only");
    assert_eq!(t.nodes(), vec![g.b]);
    assert_eq!(t.edges(), vec![g.ab]);
}

#[test]
fn edge_target_touches_only_the_edge() {
    let g = chain();
    let mut inv = GraphInvalidation::new();
    inv.mark_routing_edge(g.bc);
    let t = collect_targeted_geometry(&g.doc, &inv).expect("element targets only");
    assert!(t.nodes().is_empty());
    assert_eq!(t.edges(), vec![g.bc]);
    assert!(!t.is_empty());
}

#[test]
fn targets_from_all_geometry_causes_are_merged() {
    let g = chain();
    let mut inv = GraphInvalidation::new();
    inv.mark_graph_node(g.a);
    inv.mark_projection_node(g.c);
    inv.mark_routing_edge(g.ab);
    let t = collect_targeted_geometry(&g.doc, &inv).expect("element targets only");
    assert_eq!(sorted(t.nodes()), sorted(vec![g.a, g.c]));
    assert_eq!(sorted(t.edges()), sorted(vec![g.ab, g.bc]));
}

#[test]
fn whole_surface_target_calls_for_full_rebuild() {
    let g = chain();
    let mut inv = GraphInvalidation::new();
    inv.mark_graph_node(g.a);
    inv.mark_projection();
    assert!(collect_targeted_geometry(&g.doc, &inv).is_none());
}

#[test]
fn visibility_marks_do_not_bear_on_geometry() {
    let g = chain();
    let mut inv = GraphInvalidation::new();
    inv.mark_session();
    inv.mark_visibility();
    let t = collect_targeted_geometry(&g.doc, &inv).expect("no geometry marks");
    assert!(t.is_empty());
}

#[test]
fn first_rebuild_is_full_then_settles() {
    let g = chain();
    let projection = Revision::new();
    let session = Revision::new();
    let mut inv = GraphInvalidation::new();
    inv.mark_session();
    let mut state = DeriveState::new();

    let plan = state.plan_rebuild(&g.doc, projection, session, &inv);
    assert!(matches!(plan.geometry, Some(GeometryRebuild::Full)));
    assert!(plan.visibility);
    assert!(plan.preview);
    assert!(state.finish_rebuild(&plan, g.doc.revision(), projection, session, &mut inv));
    assert!(state.initialized);
    assert_eq!(state.revision.get(), 1);
    assert!(inv.is_empty());

    let again = state.plan_rebuild(&g.doc, projection, session, &inv);
    assert!(again.geometry.is_none());
    assert!(!again.visibility);
    assert!(!again.preview);
    assert!(!state.finish_rebuild(&again, g.doc.revision(), projection, session, &mut inv));
    assert_eq!(state.revision.get(), 1);
}

#[test]
fn element_marks_after_first_rebuild_plan_targeted_geometry() {
    let g = chain();
    let projection = Revision::new();
    let session = Revision::new();
    let mut inv = GraphInvalidation::new();
    let mut state = DeriveState::new();
    let plan = state.plan_rebuild(&g.doc, projection, session, &inv);
    state.finish_rebuild(&plan, g.doc.revision(), projection, session, &mut inv);

    inv.mark_projection_node(g.c);
    let plan = state.plan_rebuild(&g.doc, projection, session, &inv);
    match &plan.geometry {
        Some(GeometryRebuild::Targeted(t)) => {
            assert_eq!(t.nodes(), vec![g.c]);
            assert_eq!(t.edges(), vec![g.bc]);
        }
        _ => panic!("expected a targeted rebuild"),
    }
    assert!(plan.visibility);
    assert!(state.finish_rebuild(&plan, g.doc.revision(), projection, session, &mut inv));
    assert!(!inv.has_cause(GraphInvalidationCause::Projection));
}

#[test]
fn document_change_without_marks_rebuilds_fully() {
    let mut g = chain();
    let projection = Revision::new();
    let session = Revision::new();
    let mut inv = GraphInvalidation::new();
    let mut state = DeriveState::new();
    let plan = state.plan_rebuild(&g.doc, projection, session, &inv);
    state.finish_rebuild(&plan, g.doc.revision(), projection, session, &mut inv);

    g.doc.add_node(NodeData { meta: () });
    let plan = state.plan_rebuild(&g.doc, projection, session, &inv);
    assert!(matches!(plan.geometry, Some(GeometryRebuild::Full)));
}

#[test]
fn session_change_rebuilds_visibility_only() {
    let g = chain();
    let projection = Revision::new();
    let mut session = Revision::new();
    let mut inv = GraphInvalidation::new();
    let mut state = DeriveState::new();
    let plan = state.plan_rebuild(&g.doc, projection, session, &inv);
    state.finish_rebuild(&plan, g.doc.revision(), projection, session, &mut inv);

    session.bump();
    inv.mark_routing_edge(g.ab);
    inv.clear(GraphInvalidationCause::Routing);
    inv.mark_viewport();
    let plan = state.plan_rebuild(&g.doc, projection, session, &inv);
    assert!(plan.geometry.is_none());
    assert!(plan.visibility);
    assert!(plan.preview);
    assert!(state.finish_rebuild(&plan, g.doc.revision(), projection, session, &mut inv));
    assert_eq!(state.session_revision.get(), 1);
    assert!(inv.is_empty());
}

#[test]
fn finishing_keeps_causes_of_phases_that_did_not_run() {
    let g = chain();
    let mut inv = GraphInvalidation::new();
    inv.mark_graph_node(g.a);
    inv.mark_viewport();
    let mut state = DeriveState::new();
    let plan = understory::node_graph::RebuildPlan { geometry: None, visibility: true, preview: true };
    assert!(state.finish_rebuild(&plan, g.doc.revision(), Revision::new(), Revision::new(), &mut inv));
    assert!(inv.has_cause(GraphInvalidationCause::Graph));
    assert!(!inv.has_cause(GraphInvalidationCause::Viewport));
}

#[derive(Default)]
struct Recorder {
    seen: Vec<(GraphInvalidationCause, InvalidationTarget)>,
}

impl GraphDeriveObserver for Recorder {
    fn invalidated(&mut self, cause: GraphInvalidationCause, target: InvalidationTarget) {
        self.seen.push((cause, target));
    }
}

#[test]
fn observer_sees_marks_in_cause_order() {
    let g = chain();
    let mut inv = GraphInvalidation::new();
    inv.mark_visibility();
    inv.mark_routing_edge(g.ab);
    inv.mark_graph_node(g.a);
    inv.mark_graph_node(g.b);
    let mut rec = Recorder::default();
    notify_invalidated(&inv, &mut rec);
    assert_eq!(
        rec.seen,
        vec![
            (GraphInvalidationCause::Graph, InvalidationTarget::Node(g.a)),
            (GraphInvalidationCause::Graph, InvalidationTarget::Node(g.b)),
            (GraphInvalidationCause::Routing, InvalidationTarget::Edge(g.ab)),
            (GraphInvalidationCause::Visibility, InvalidationTarget::Graph),
        ]
    );
}

struct RejectAll;

impl<N, P, E> PortCompatibility<N, P, E> for RejectAll {
    fn can_connect(&self, _cx: ConnectionContext<'_, N, P, E>) -> bool {
        false
    }
}

#[test]
fn preview_snaps_to_hovered_input_port() {
    let g = chain();
    let hover = Some(HitTarget::Port(g.b_in));
    assert_eq!(preview_snap_target(&g.doc, g.a_out, hover, &AllowAllPortConnections), Some((g.b_in, true)));
    assert_eq!(preview_snap_target(&g.doc, g.a_out, hover, &RejectAll), Some((g.b_in, false)));
}

#[test]
fn preview_does_not_snap_elsewhere() {
    let g = chain();
    let allow = AllowAllPortConnections;
    assert_eq!(preview_snap_target(&g.doc, g.a_out, None, &allow), None);
    assert_eq!(preview_snap_target(&g.doc, g.a_out, Some(HitTarget::Node(g.b)), &allow), None);
    assert_eq!(preview_snap_target(&g.doc, g.a_out, Some(HitTarget::Edge(g.ab)), &allow), None);
    assert_eq!(preview_snap_target(&g.doc, g.a_out, Some(HitTarget::Port(g.a_out)), &allow), None);
    assert_eq!(preview_snap_target(&g.doc, g.a_out, Some(HitTarget::Port(g.b_out)), &allow), None);
}

#[test]
fn preview_does_not_snap_from_an_input_port() {
    let g = chain();
    let hover = Some(HitTarget::Port(g.b_in));
    let mut doc = g.doc;
    let c_in = doc.add_port(g.c, PortDirection::Input, ()).unwrap();
    assert_eq!(preview_snap_target(&doc, c_in, hover, &AllowAllPortConnections), None);
}
