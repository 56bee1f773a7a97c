use understory::box_tree::{NodeFlags, NodeId};

#[test]
fn default_flags_are_visible_and_pickable() {
    let flags = NodeFlags::default();
    assert!(flags.contains(NodeFlags::visible()));
    assert!(flags.contains(NodeFlags::pickable()));
    assert!(!flags.contains(NodeFlags::focusable()));
    assert_eq!(flags.bits(), 0b0000_0011);
}

#[test]
fn flags_insert_and_remove() {
    let mut flags = NodeFlags::empty();
    assert!(flags.is_empty());
    flags.insert(NodeFlags::focusable());
    assert!(flags.contains(NodeFlags::focusable()));
    flags.insert(NodeFlags::visible());
    assert_eq!(flags.bits(), 0b0000_0101);
    flags.remove(NodeFlags::focusable());
    assert_eq!(flags, NodeFlags::visible());
    assert!(NodeFlags::empty().contains(NodeFlags::empty()));
    assert_eq!(NodeFlags::visible().union(NodeFlags::focusable()).bits(), 0b0000_0101);
}

#[test]
fn node_id_holds_slot_and_generation() {
    let id = NodeId::new(7, 3);
    assert_eq!(id.idx(), 7);
    assert_eq!(id.generation(), 3);
    assert_eq!(id, NodeId::new(7, 3));
    assert_ne!(id, NodeId::new(7, 4));
}
