use understory::dirty::{Channel, DirtyTracker, InternId, Interner, LazyPolicy};

#[derive(Debug, Eq, PartialEq, Hash)]
struct Key(&'static str);

#[test]
fn interns_duplicates_to_same_id() {
    let mut i = Interner::<Key>::new();
    let a0 = i.intern(Key("a"));
    let a1 = i.intern(Key("a"));
    let b = i.intern(Key("b"));

    assert_eq!(a0, a1);
    assert_ne!(a0, b);
    assert_eq!(i.get(a0).unwrap(), &Key("a"));
    assert_eq!(i.get(b).unwrap(), &Key("b"));
}

#[test]
fn interner_counts_clears_and_rejects_stale_ids() {
    let mut i = Interner::<String>::default();
    assert!(i.is_empty());
    let x = i.intern(String::from("x"));
    let y = i.intern(String::from("y"));
    let x_again = i.intern(String::from("x"));
    assert_eq!(x, x_again);
    assert_eq!(i.len(), 2);
    assert_eq!(x.as_u32(), 0);
    assert_eq!(y.as_u32(), 1);
    assert!(i.get(InternId(2)).is_none());
    i.clear();
    assert!(i.is_empty());
    assert!(i.get(x).is_none());
    assert_eq!(i.intern(String::from("y")).as_u32(), 0);
}

#[derive(Clone, Debug, Eq, PartialEq, Hash)]
struct ResourceKey(&'static str);

#[test]
fn interned_ids_drive_a_tracker() {
    let layout = Channel::new(0);
    let mut ids = Interner::<ResourceKey>::new();
    let a: InternId = ids.intern(ResourceKey("a"));
    let b: InternId = ids.intern(ResourceKey("b"));

    let mut tracker = DirtyTracker::<InternId>::new();
    tracker.add_dependency(b, a, layout).unwrap();
    tracker.mark_with(a, layout, &LazyPolicy);

    let order: Vec<_> = tracker.drain_affected_sorted(layout).drain_all();
    assert_eq!(order, vec![a, b]);
    assert_eq!(ids.get(a).unwrap().0, "a");
}
