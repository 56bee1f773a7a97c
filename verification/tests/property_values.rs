use understory::dirty::{Channel, ChannelSet};
use understory::property::{LocalValueSource, Property, PropertyId};
use understory::property_binding::{
    value_source_property, BindingId, BindingWrite, EndpointKey, PropertyEndpoint,
};

#[test]
fn local_value_source_precedence_order() {
    assert!(LocalValueSource::Local.precedence() > LocalValueSource::TemplateBinding.precedence());
    assert!(LocalValueSource::TemplateBinding.precedence() > LocalValueSource::TemplateDefault.precedence());
}

#[test]
fn local_value_source_precedence_values() {
    assert_eq!(LocalValueSource::Local.precedence(), 3);
    assert_eq!(LocalValueSource::TemplateBinding.precedence(), 2);
    assert_eq!(LocalValueSource::TemplateDefault.precedence(), 1);
}

#[test]
fn property_handles_round_trip_ids() {
    let id = PropertyId::new(42);
    assert_eq!(id.get(), 42);
    let prop: Property<f64> = Property::from_id(id);
    assert_eq!(prop.id(), id);
}

#[test]
fn endpoints_expose_owner_and_property() {
    let prop: Property<u32> = Property::from_id(PropertyId::new(7));
    let endpoint = PropertyEndpoint::new("owner", prop);
    assert_eq!(endpoint.owner(), "owner");
    assert_eq!(endpoint.property().id(), PropertyId::new(7));
    let key = endpoint.key();
    assert_eq!(key, EndpointKey::new("owner", PropertyId::new(7)));
    assert_eq!(key.owner(), "owner");
    assert_eq!(key.property(), PropertyId::new(7));
}

#[test]
fn binding_ids_round_trip() {
    assert_eq!(BindingId::new(9).get(), 9);
    assert!(BindingId::new(1) < BindingId::new(2));
}

#[test]
fn binding_writes_report_change_and_channels() {
    let unchanged = BindingWrite::unchanged();
    assert!(!unchanged.did_change());
    assert!(unchanged.affected_channels().is_empty());

    let set = ChannelSet::single(Channel::new(3));
    let changed = BindingWrite::changed(set);
    assert!(changed.did_change());
    assert!(changed.affected_channels().contains(Channel::new(3)));
    assert!(!changed.affected_channels().contains(Channel::new(4)));
    assert_eq!(BindingWrite::new(true, set), changed);
}

#[test]
fn value_source_property_uses_the_reserved_id() {
    let prop: Property<u8> = value_source_property();
    assert_eq!(prop.id().get(), u16::MAX);
}
