use understory::display::{DisplayAlign, DisplayItem, DisplayListBuilder, ItemId, SemanticId};
use understory::graph_view::{EdgeView, HitTarget, Revision};
use understory::node_graph::{EdgeId, GraphElementId, NodeId, PortId};

#[test]
fn hit_targets_map_to_element_ids() {
    let node = NodeId::from_parts(1, 2);
    let port = PortId::from_parts(3, 4);
    let edge = EdgeId::from_parts(5, 6);
    assert_eq!(HitTarget::Node(node).element_id(), GraphElementId::Node(node));
    assert_eq!(HitTarget::Port(port).element_id(), GraphElementId::Port(port));
    assert_eq!(HitTarget::Edge(edge).element_id(), GraphElementId::Edge(edge));
}

#[test]
fn revisions_advance_and_wrap() {
    let mut r = Revision::new();
    assert_eq!(r.get(), 0);
    assert_eq!(r.bump().get(), 1);
    assert_eq!(r.get(), 1);
    let mut last = Revision::new();
    for _ in 0..3 {
        last.bump();
    }
    assert_eq!(last.get(), 3);
}

#[test]
fn edge_views_start_visible() {
    let v = EdgeView::new("meta");
    assert_eq!(v.z_index, 0);
    assert!(!v.hidden);
    assert_eq!(v.meta, "meta");
}

#[test]
fn display_ids_round_trip() {
    assert_eq!(ItemId::new(12).index(), 12);
    assert_eq!(SemanticId::new(34).get(), 34);
    assert_eq!(DisplayAlign::default(), DisplayAlign::Start);
}

#[test]
fn node_ids_pack_index_and_generation() {
    let id = NodeId::from_parts(0xdead_beef, 0x1234_5678);
    assert_eq!(id.index(), 0xdead_beef);
    assert_eq!(id.generation(), 0x1234_5678);
    assert_ne!(NodeId::from_parts(1, 0), NodeId::from_parts(1, 1));
}

#[test]
fn builder_assigns_monotonic_ids() {
    let mut builder: DisplayListBuilder<(i32, i32, i32, i32), &str> = DisplayListBuilder::new();
    let a = builder.push_with_bounds((0, 0, 10, 10), 0, None, "fill black");
    let b = builder.push_with_bounds((10, 0, 20, 10), 1, Some(SemanticId::new(7)), "fill white");

    assert_eq!(a.index(), 0);
    assert_eq!(b.index(), 1);
    assert_eq!(builder.build().len(), 2);
}

#[test]
fn pushed_item_moves_next_id_past_it() {
    let mut builder: DisplayListBuilder<(), u8> = DisplayListBuilder::new();
    builder.push(DisplayItem { id: ItemId::new(5), bounds: (), z: 0, semantic_id: None, op: 1 });
    let next = builder.push_with_bounds((), 0, None, 2);
    assert_eq!(next.index(), 6);
    builder.push(DisplayItem { id: ItemId::new(2), bounds: (), z: 0, semantic_id: None, op: 3 });
    assert_eq!(builder.push_with_bounds((), 0, None, 4).index(), 7);
    builder.push(DisplayItem { id: ItemId::new(u32::MAX), bounds: (), z: 0, semantic_id: None, op: 5 });
    assert_eq!(builder.push_with_bounds((), 0, None, 6).index(), u32::MAX);
    let list = builder.build();
    let ops: Vec<u8> = list.items().iter().map(|item| item.op).collect();
    assert_eq!(ops, vec![1, 2, 3, 4, 5, 6]);
    assert!(!list.is_empty());
}
