use understory::presentation::{PresentationStore, Primitive};

#[derive(Clone, Debug, Default, PartialEq)]
struct Surface {
    background: Option<(u8, u8, u8)>,
    corner_radius: u32,
}

#[derive(Clone, Debug, Default, PartialEq)]
struct PlainText {
    content: String,
}

#[derive(Clone, Debug, PartialEq)]
struct Image<K> {
    image: K,
}

#[derive(Clone, Debug, PartialEq)]
struct Path {
    points: Vec<(i32, i32)>,
}

type Store<K, S, I = u64> = PresentationStore<K, S, Surface, PlainText, Image<I>, Path>;

#[derive(Clone, Debug, Eq, PartialEq)]
struct Asset(&'static str);

#[test]
fn insert_tracks_nodes_and_dirty_order() {
    let mut store: Store<i32, i32> = PresentationStore::new();

    assert!(store.insert(1, 10).is_none());
    assert!(store.insert(2, 10).is_none());

    assert_eq!(store.len(), 2);
    assert_eq!(store.keys(), vec![1, 2]);
    assert_eq!(store.take_dirty(), vec![1, 2]);
    assert!(store.dirty_is_empty());
}

#[test]
fn replacing_node_preserves_order_and_returns_old_node() {
    let mut store: Store<i32, i32> = PresentationStore::new();
    store.insert(1, 10);
    store.insert(2, 10);
    store.clear_dirty();

    let old = store.insert(1, 11).unwrap();

    assert_eq!(old.source(), &10);
    assert_eq!(store.keys(), vec![1, 2]);
    assert_eq!(store.node(1).unwrap().source(), &11);
    assert_eq!(store.take_dirty(), vec![1]);
}

#[test]
fn surface_mut_creates_surface_and_dedupes_dirty() {
    let mut store: Store<i32, i32> = PresentationStore::new();
    store.insert(1, 10);
    store.clear_dirty();

    let surface = store.surface_mut(1).unwrap();
    surface.background = Some((20, 30, 40));

    let surface = store.surface_mut(1).unwrap();
    surface.corner_radius = 4;

    let node = store.node(1).unwrap();
    assert_eq!(node.primitives().len(), 1);
    assert_eq!(node.surface(), Some(&Surface { background: Some((20, 30, 40)), corner_radius: 4 }));
    assert_eq!(store.take_dirty(), vec![1]);
}

#[test]
fn plain_text_mut_creates_plain_text() {
    let mut store: Store<i32, i32> = PresentationStore::new();
    store.insert(1, 10);
    store.clear_dirty();

    let text = store.text_mut(1).unwrap();
    text.content = String::from("Apply");

    assert_eq!(store.node(1).unwrap().text().unwrap().content.as_str(), "Apply");
    assert_eq!(store.take_dirty(), vec![1]);
}

#[test]
fn set_image_uses_host_image_key_type() {
    let mut store = Store::<u32, u32, Asset>::new();
    store.insert(1, 10);
    store.clear_dirty();

    let image = store.set_image(1, Image { image: Asset("button-background") }).unwrap();

    assert_eq!(image.image, Asset("button-background"));
    assert_eq!(store.node(1).unwrap().image().unwrap().image, Asset("button-background"));
    assert_eq!(store.take_dirty(), vec![1]);
}

#[test]
fn set_image_replaces_existing_image() {
    let mut store: Store<i32, i32> = PresentationStore::new();
    store.insert(1, 10);

    store.set_image(1, Image { image: 42 });
    store.set_image(1, Image { image: 43 });

    let node = store.node(1).unwrap();
    assert_eq!(node.primitives().len(), 1);
    assert_eq!(node.image().unwrap().image, 43);
}

#[test]
fn set_path_replaces_existing_path() {
    let mut store: Store<i32, i32> = PresentationStore::new();
    store.insert(1, 10);
    store.clear_dirty();

    store.set_path(1, Path { points: Vec::new() });
    let path = Path { points: vec![(1, 2), (3, 4)] };
    store.set_path(1, path.clone());

    let node = store.node(1).unwrap();
    assert_eq!(node.primitives().len(), 1);
    assert_eq!(node.path().unwrap(), &path);
    assert_eq!(store.take_dirty(), vec![1]);
}

#[test]
fn image_mut_does_not_create_default_image() {
    let mut store: Store<i32, i32> = PresentationStore::new();
    store.insert(1, 10);
    store.clear_dirty();

    assert!(store.image_mut(1).is_none());
    assert!(store.dirty_is_empty());
}

#[test]
fn missing_primitive_helpers_return_none_without_dirty() {
    let mut store: Store<u32, u32> = PresentationStore::new();

    assert!(store.surface_mut(99).is_none());
    assert!(store.text_mut(99).is_none());
    assert!(store.image_mut(99).is_none());
    assert!(store.path_mut(99).is_none());
    assert!(store.set_image(99, Image { image: 1 }).is_none());
    assert!(store.set_path(99, Path { points: Vec::new() }).is_none());
    assert!(store.dirty_is_empty());
}

#[test]
fn remove_marks_existing_key_dirty() {
    let mut store: Store<i32, i32> = PresentationStore::new();
    store.insert(1, 10);
    store.insert(2, 10);
    store.clear_dirty();

    assert!(store.remove(1).is_some());
    assert!(store.node(1).is_none());
    assert_eq!(store.keys(), vec![2]);
    assert_eq!(store.take_dirty(), vec![1]);
}

#[test]
fn clear_marks_live_keys_dirty_in_insertion_order() {
    let mut store: Store<i32, i32> = PresentationStore::new();
    store.insert(1, 10);
    store.insert(2, 10);
    store.clear_dirty();

    store.clear();

    assert!(store.is_empty());
    assert_eq!(store.take_dirty(), vec![1, 2]);
}

#[test]
fn clear_keeps_earlier_dirty_keys_first() {
    let mut store: Store<i32, i32> = PresentationStore::new();
    store.insert(1, 10);
    store.insert(2, 10);
    store.insert(3, 10);
    store.clear_dirty();
    store.mark_dirty(3);
    store.mark_dirty(7);

    store.clear();
    assert_eq!(store.take_dirty(), vec![3, 7, 1, 2]);
}

#[test]
fn dirty_keys_come_once_until_marked_again() {
    let mut store: Store<i32, i32> = PresentationStore::new();
    store.mark_dirty(5);
    store.mark_dirty(5);
    assert!(store.is_dirty(5));
    assert_eq!(store.dirty_len(), 1);
    assert_eq!(store.take_dirty(), vec![5]);
    assert!(!store.is_dirty(5));
    assert!(store.take_dirty().is_empty());
    store.mark_dirty(5);
    assert_eq!(store.take_dirty(), vec![5]);
}

#[test]
fn insert_then_remove_restores_keys() {
    let mut store: Store<i32, i32> = PresentationStore::new();
    store.insert(1, 10);
    store.insert(2, 20);
    store.insert(3, 30);
    assert!(store.remove(3).is_some());
    assert_eq!(store.keys(), vec![1, 2]);
    let sources: Vec<i32> = store.nodes().iter().map(|(_, n)| *n.source()).collect();
    assert_eq!(sources, vec![10, 20]);
}

#[test]
fn node_mut_and_first_primitive_helpers() {
    let mut store: Store<i32, i32> = PresentationStore::new();
    store.insert(1, 10);
    {
        let node = store.node_mut(1).unwrap();
        node.push_primitive(Primitive::image(Image { image: 5 }));
        node.push_primitive(Primitive::image(Image { image: 6 }));
        node.set_source(12);
    }
    assert_eq!(store.image_mut(1).unwrap().image, 5);
    let node = store.node(1).unwrap();
    assert_eq!(node.source(), &12);
    assert_eq!(node.primitives()[1].as_image().unwrap().image, 6);
    assert!(node.surface().is_none());
    assert!(node.path().is_none());
}
