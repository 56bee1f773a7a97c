use std::cell::Cell;
use std::rc::Rc;

use understory::property::PropertyId;
use understory::property_binding::{value_source_property_id, ValueSourceStore};

#[test]
fn value_source_endpoint_uses_synthetic_property() {
    let mut store = ValueSourceStore::<u32, fn() -> u32>::new();
    let source = store.push_value(12_u32);
    let endpoint = source.endpoint("source");

    assert_eq!(endpoint.owner(), "source");
    assert_eq!(endpoint.property().id(), value_source_property_id());
}

#[test]
fn stored_values_can_be_read_and_written() {
    let mut store = ValueSourceStore::<u32, fn() -> u32>::new();
    let source = store.push_value(12_u32);

    assert_eq!(store.value(source), Some(12));
    assert!(!store.set_value(source, 12));
    assert!(store.set_value(source, 18));
    assert_eq!(store.value(source), Some(18));

    let erased = store
        .value_erased(source.id(), value_source_property_id())
        .expect("source should have an erased value");
    assert_eq!(erased, 18);
}

#[test]
fn erased_writes_reject_other_properties() {
    let mut store = ValueSourceStore::<u32, fn() -> u32>::new();
    let source = store.push_value(12_u32);

    assert!(!store.set_value_erased(source.id(), PropertyId::new(42), 18_u32));
    assert_eq!(store.value(source), Some(12));

    assert!(store.set_value_erased(source.id(), value_source_property_id(), 18_u32));
    assert_eq!(store.value(source), Some(18));
}

#[test]
fn external_sources_read_latest_value() {
    let value = Rc::new(Cell::new(4_u32));
    let source_value = Rc::clone(&value);
    let mut store = ValueSourceStore::new();
    let source = store.push_external(move || source_value.get());

    let first = store
        .external_erased(source.id(), value_source_property_id())
        .expect("external source should read");
    assert_eq!(first, 4);

    value.set(9);
    let second = store
        .external_erased(source.id(), value_source_property_id())
        .expect("external source should read");
    assert_eq!(second, 9);
}

#[test]
fn missing_sources_and_other_properties_read_nothing() {
    let mut store = ValueSourceStore::<u32, fn() -> u32>::default();
    let source = store.push_value(3);
    let other = store.push_value(5);
    assert_eq!(source.id().index(), 0);
    assert_eq!(other.id().index(), 1);
    assert!(store.value_erased(source.id(), PropertyId::new(7)).is_none());
    let fresh = ValueSourceStore::<u32, fn() -> u32>::new();
    assert!(fresh.value(source).is_none());
    assert!(fresh.value_erased(source.id(), value_source_property_id()).is_none());
    let reader: fn() -> u32 = || 11;
    let ext = store.push_external(reader);
    assert!(store.external_erased(ext.id(), PropertyId::new(1)).is_none());
    assert_eq!(store.external_erased(ext.id(), value_source_property_id()), Some(11));
}
