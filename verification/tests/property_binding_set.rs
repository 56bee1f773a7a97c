use std::any::{Any, TypeId};
use std::collections::BTreeMap;
use std::rc::Rc;

use understory::dirty::{Channel, ChannelSet};
use understory::property::{ErasedTypeMismatch, Property, PropertyId};
use understory::property_binding::{
    value_source_property_id, BindingError, BindingHost, BindingId, BindingSet, BindingWrite, EndpointKey,
    PropertyEndpoint, ValueSourceId, ValueSourceStore,
};

/// A type-erased value, as hosts hand them to bindings.
type Erased = Rc<dyn Any>;

/// A binding's conversion of an erased source value.
type Convert = Box<dyn Fn(&Erased) -> Result<Erased, ErasedTypeMismatch>>;

type Bindings<C> = BindingSet<u32, C, Erased, Convert>;

fn erased<T: 'static>(value: T) -> Erased {
    Rc::new(value)
}

/// A conversion that reads an `S`, applies `f`, and writes a `T`.
fn typed<S: 'static, T: 'static>(f: impl Fn(&S) -> T + 'static) -> Convert {
    Box::new(move |value: &Erased| match (**value).downcast_ref::<S>() {
        Some(source) => Ok(erased(f(source))),
        None => Err(ErasedTypeMismatch { expected: TypeId::of::<S>(), actual: (**value).type_id() }),
    })
}

/// The conversion of an identity binding of `T` values.
fn identity<T: Clone + 'static>() -> Convert {
    typed(|value: &T| value.clone())
}

fn binding() -> Channel {
    Channel::new(0)
}

fn layout() -> Channel {
    Channel::new(1)
}

fn paint() -> Channel {
    Channel::new(2)
}

#[derive(Default)]
struct TestHost {
    values: BTreeMap<EndpointKey<u32>, Erased>,
    channels: BTreeMap<u16, ChannelSet>,
    writes: Vec<EndpointKey<u32>>,
}

impl TestHost {
    fn set_initial<T: Clone + 'static>(&mut self, endpoint: PropertyEndpoint<u32, T>, value: T) {
        self.values.insert(endpoint.key(), erased(value));
    }

    fn set_channels<T>(&mut self, endpoint: PropertyEndpoint<u32, T>, channels: ChannelSet) {
        self.channels.insert(endpoint.property().id().get(), channels);
    }

    fn value<T: 'static>(&self, endpoint: PropertyEndpoint<u32, T>) -> Option<&T> {
        self.values.get(&endpoint.key()).and_then(|value| (**value).downcast_ref::<T>())
    }

    fn erased_equal(left: &Erased, right: &Erased) -> bool {
        if (**left).type_id() != (**right).type_id() {
            return false;
        }
        if let (Some(left), Some(right)) = ((**left).downcast_ref::<u32>(), (**right).downcast_ref::<u32>()) {
            return left == right;
        }
        if let (Some(left), Some(right)) =
            ((**left).downcast_ref::<String>(), (**right).downcast_ref::<String>())
        {
            return left == right;
        }
        false
    }
}

impl BindingHost<u32, (), Erased> for TestHost {
    fn get_erased(&self, endpoint: EndpointKey<u32>) -> Option<Erased> {
        self.values.get(&endpoint).cloned()
    }

    fn set_erased(&mut self, endpoint: EndpointKey<u32>, value: Erased, (): ()) -> BindingWrite {
        let changed = self.values.get(&endpoint).is_none_or(|old| !Self::erased_equal(old, &value));
        self.values.insert(endpoint, value);
        self.writes.push(endpoint);

        let channels = if changed {
            self.channels.get(&endpoint.property().get()).copied().unwrap_or_else(ChannelSet::empty)
        } else {
            ChannelSet::empty()
        };

        BindingWrite::new(changed, channels)
    }
}

fn registry() -> Property<u32> {
    Property::from_id(PropertyId::new(0))
}

#[test]
fn one_way_binding_copies_changed_value() {
    let width = registry();
    let source = PropertyEndpoint::new(1, width);
    let target = PropertyEndpoint::new(2, width);

    let mut bindings: Bindings<()> = BindingSet::new(binding());
    bindings.bind_map(source, target, (), identity::<u32>()).unwrap();

    let mut host = TestHost::default();
    host.set_initial(source, 42_u32);
    host.set_channels(target, ChannelSet::single(layout()));

    assert!(bindings.mark_source_changed(source));
    assert_eq!(bindings.stats().dirty_bindings(), 1);
    let report = bindings.drain(&mut host).unwrap();

    assert_eq!(report.evaluated_bindings(), 1);
    assert_eq!(report.changed_bindings(), 1);
    assert!(report.affected_channels().contains(layout()));
    assert_eq!(bindings.stats().dirty_bindings(), 0);
    assert_eq!(host.value(target), Some(&42));
}

#[test]
fn drain_accepts_erased_host_boundary() {
    let width = registry();
    let source = PropertyEndpoint::new(1, width);
    let target = PropertyEndpoint::new(2, width);

    let mut bindings: Bindings<()> = BindingSet::new(binding());
    bindings.bind_map(source, target, (), identity::<u32>()).unwrap();

    let mut host = TestHost::default();
    host.set_initial(source, 12_u32);
    bindings.mark_source_changed(source);

    let host: &mut dyn BindingHost<u32, (), Erased> = &mut host;
    let report = bindings.drain(host).unwrap();

    assert_eq!(report.evaluated_bindings(), 1);
}

#[test]
fn drain_without_dirty_source_does_nothing() {
    let width = registry();
    let source = PropertyEndpoint::new(1, width);
    let target = PropertyEndpoint::new(2, width);

    let mut bindings: Bindings<()> = BindingSet::new(binding());
    bindings.bind_map(source, target, (), identity::<u32>()).unwrap();

    let mut host = TestHost::default();
    host.set_initial(source, 42_u32);

    let report = bindings.drain(&mut host).unwrap();

    assert_eq!(report.evaluated_bindings(), 0);
    assert_eq!(host.value(target), None);
}

#[test]
fn mapped_binding_converts_value_type() {
    let count: Property<u32> = Property::from_id(PropertyId::new(0));
    let label: Property<String> = Property::from_id(PropertyId::new(1));
    let source = PropertyEndpoint::new(1, count);
    let target = PropertyEndpoint::new(2, label);

    let mut bindings: Bindings<()> = BindingSet::new(binding());
    bindings
        .bind_map(source, target, (), typed(|value: &u32| format!("count: {value}")))
        .unwrap();

    let mut host = TestHost::default();
    host.set_initial(source, 7_u32);
    host.set_channels(target, ChannelSet::single(paint()));

    bindings.mark_source_changed(source);
    let report = bindings.drain(&mut host).unwrap();

    assert_eq!(report.evaluated_bindings(), 1);
    assert!(report.affected_channels().contains(paint()));
    assert_eq!(host.value(target).map(String::as_str), Some("count: 7"));
}

#[test]
fn binding_write_context_is_passed_to_host() {
    #[derive(Copy, Clone, Debug, PartialEq, Eq)]
    enum WriteLayer {
        Local,
        TemplateBinding,
    }

    #[derive(Default)]
    struct LayerHost {
        values: BTreeMap<EndpointKey<u32>, Erased>,
        writes: Vec<(EndpointKey<u32>, WriteLayer)>,
    }

    impl LayerHost {
        fn set_initial<T: Clone + 'static>(&mut self, endpoint: PropertyEndpoint<u32, T>, value: T) {
            self.values.insert(endpoint.key(), erased(value));
        }
    }

    impl BindingHost<u32, WriteLayer, Erased> for LayerHost {
        fn get_erased(&self, endpoint: EndpointKey<u32>) -> Option<Erased> {
            self.values.get(&endpoint).cloned()
        }

        fn set_erased(&mut self, endpoint: EndpointKey<u32>, value: Erased, context: WriteLayer) -> BindingWrite {
            self.values.insert(endpoint, value);
            self.writes.push((endpoint, context));
            BindingWrite::changed(ChannelSet::empty())
        }
    }

    let width = registry();
    let first = PropertyEndpoint::new(1, width);
    let second = PropertyEndpoint::new(2, width);
    let third = PropertyEndpoint::new(3, width);

    let mut bindings: Bindings<WriteLayer> = BindingSet::new(binding());
    bindings.bind_map(first, second, WriteLayer::Local, identity::<u32>()).unwrap();
    bindings.bind_map(second, third, WriteLayer::TemplateBinding, identity::<u32>()).unwrap();

    let mut host = LayerHost::default();
    host.set_initial(first, 42_u32);
    bindings.mark_source_changed(first);
    let report = bindings.drain(&mut host).unwrap();

    assert_eq!(report.evaluated_bindings(), 2);
    assert_eq!(
        host.writes,
        vec![(second.key(), WriteLayer::Local), (third.key(), WriteLayer::TemplateBinding)]
    );
}

#[test]
fn chained_bindings_propagate_after_target_change() {
    let width = registry();
    let first = PropertyEndpoint::new(1, width);
    let second = PropertyEndpoint::new(2, width);
    let third = PropertyEndpoint::new(3, width);

    let mut bindings: Bindings<()> = BindingSet::new(binding());
    let first_to_second = bindings.bind_map(first, second, (), identity::<u32>()).unwrap();
    let second_to_third = bindings.bind_map(second, third, (), identity::<u32>()).unwrap();

    let mut host = TestHost::default();
    host.set_initial(first, 10_u32);
    host.set_channels(second, ChannelSet::single(layout()));
    host.set_channels(third, ChannelSet::single(paint()));

    bindings.mark_source_changed(first);
    let report = bindings.drain(&mut host).unwrap();

    assert_eq!(report.evaluated_bindings(), 2);
    assert_eq!(host.value(second), Some(&10));
    assert_eq!(host.value(third), Some(&10));
    assert_eq!(
        host.writes,
        vec![second.key(), third.key()],
        "binding ids {first_to_second:?} and {second_to_third:?} should drain in dependency order",
    );
}

#[test]
fn simultaneous_dirty_sources_use_dependency_order_without_duplicate_downstream_eval() {
    let width = registry();
    let first = PropertyEndpoint::new(1, width);
    let second = PropertyEndpoint::new(2, width);
    let third = PropertyEndpoint::new(3, width);

    let mut bindings: Bindings<()> = BindingSet::new(binding());
    bindings.bind_map(first, second, (), identity::<u32>()).unwrap();
    bindings.bind_map(second, third, (), identity::<u32>()).unwrap();

    let mut host = TestHost::default();
    host.set_initial(first, 10_u32);
    host.set_initial(second, 99_u32);

    bindings.mark_source_changed(first);
    bindings.mark_source_changed(second);
    let report = bindings.drain(&mut host).unwrap();

    assert_eq!(report.evaluated_bindings(), 2);
    assert_eq!(host.value(third), Some(&10));
    assert_eq!(host.writes, vec![second.key(), third.key()]);
}

#[test]
fn independent_dirty_bindings_drain_in_binding_id_order() {
    let width = registry();
    let first_source = PropertyEndpoint::new(1, width);
    let first_target = PropertyEndpoint::new(2, width);
    let second_source = PropertyEndpoint::new(3, width);
    let second_target = PropertyEndpoint::new(4, width);

    let mut bindings: Bindings<()> = BindingSet::new(binding());
    bindings.bind_map(first_source, first_target, (), identity::<u32>()).unwrap();
    bindings.bind_map(second_source, second_target, (), identity::<u32>()).unwrap();

    let mut host = TestHost::default();
    host.set_initial(first_source, 10_u32);
    host.set_initial(second_source, 20_u32);

    bindings.mark_source_changed(second_source);
    bindings.mark_source_changed(first_source);
    let report = bindings.drain(&mut host).unwrap();

    assert_eq!(report.evaluated_bindings(), 2);
    assert_eq!(host.writes, vec![first_target.key(), second_target.key()]);
}

#[test]
fn cycle_is_rejected() {
    let width = registry();
    let first = PropertyEndpoint::new(1, width);
    let second = PropertyEndpoint::new(2, width);

    let mut bindings: Bindings<()> = BindingSet::new(binding());
    let first_id = bindings.bind_map(first, second, (), identity::<u32>()).unwrap();
    let error = bindings.bind_map(second, first, (), identity::<u32>()).unwrap_err();

    assert!(matches!(
        error,
        BindingError::Cycle {
            dependent,
            dependency
        } if dependent == first_id && dependency == BindingId::new(1)
    ));
    assert_eq!(bindings.len(), 1);
}

#[test]
fn duplicate_target_is_rejected_until_existing_binding_is_removed() {
    let width = registry();
    let first = PropertyEndpoint::new(1, width);
    let second = PropertyEndpoint::new(2, width);
    let target = PropertyEndpoint::new(3, width);

    let mut bindings: Bindings<()> = BindingSet::new(binding());
    let first_id = bindings.bind_map(first, target, (), identity::<u32>()).unwrap();
    let error = bindings.bind_map(second, target, (), identity::<u32>()).unwrap_err();

    assert!(matches!(
        error,
        BindingError::TargetAlreadyBound {
            target: error_target,
            existing
        } if error_target == target.key() && existing == first_id
    ));

    assert!(bindings.unbind(first_id));
    assert!(!bindings.unbind(first_id));
    assert!(bindings.bind_map(second, target, (), identity::<u32>()).is_ok());
    assert_eq!(bindings.len(), 1);
    assert_eq!(bindings.stats().binding_slots(), 2);
}

#[test]
fn unbind_removes_indexes_and_dependency_edges() {
    let width = registry();
    let first = PropertyEndpoint::new(1, width);
    let second = PropertyEndpoint::new(2, width);
    let third = PropertyEndpoint::new(3, width);

    let mut bindings: Bindings<()> = BindingSet::new(binding());
    let first_to_second = bindings.bind_map(first, second, (), identity::<u32>()).unwrap();
    bindings.bind_map(second, third, (), identity::<u32>()).unwrap();

    assert_eq!(bindings.stats().dependency_edges(), 1);
    assert!(bindings.unbind(first_to_second));
    assert_eq!(bindings.len(), 1);
    assert_eq!(bindings.stats().dependency_edges(), 0);
    assert!(!bindings.mark_source_changed(first));

    let mut host = TestHost::default();
    host.set_initial(second, 11_u32);
    bindings.mark_source_changed(second);
    let report = bindings.drain(&mut host).unwrap();

    assert_eq!(report.evaluated_bindings(), 1);
    assert_eq!(host.value(third), Some(&11));
}

#[test]
fn clear_owner_removes_source_and_target_bindings() {
    let width = registry();
    let first = PropertyEndpoint::new(1, width);
    let second = PropertyEndpoint::new(2, width);
    let third = PropertyEndpoint::new(3, width);

    let mut bindings: Bindings<()> = BindingSet::new(binding());
    bindings.bind_map(first, second, (), identity::<u32>()).unwrap();
    bindings.bind_map(second, third, (), identity::<u32>()).unwrap();

    assert_eq!(bindings.clear_owner(2), 2);
    assert!(bindings.is_empty());
    assert_eq!(bindings.stats().source_endpoints(), 0);
    assert_eq!(bindings.stats().target_endpoints(), 0);
}

#[test]
fn clear_endpoint_removes_readers_and_writer() {
    let width = registry();
    let first = PropertyEndpoint::new(1, width);
    let second = PropertyEndpoint::new(2, width);
    let third = PropertyEndpoint::new(3, width);

    let mut bindings: Bindings<()> = BindingSet::new(binding());
    bindings.bind_map(first, second, (), identity::<u32>()).unwrap();
    bindings.bind_map(second, third, (), identity::<u32>()).unwrap();

    assert_eq!(bindings.clear_endpoint(second.key()), 2);
    assert!(bindings.is_empty());
}

#[test]
fn direct_self_binding_is_rejected() {
    let width = registry();
    let endpoint = PropertyEndpoint::new(1, width);

    let mut bindings: Bindings<()> = BindingSet::new(binding());
    let error = bindings.bind_map(endpoint, endpoint, (), identity::<u32>()).unwrap_err();

    assert!(matches!(error, BindingError::SelfBinding { .. }));
    assert!(bindings.is_empty());
}

#[test]
fn source_type_mismatch_errors() {
    let width = registry();
    let source = PropertyEndpoint::new(1, width);
    let target = PropertyEndpoint::new(2, width);

    let mut bindings: Bindings<()> = BindingSet::new(binding());
    bindings.bind_map(source, target, (), identity::<u32>()).unwrap();

    let mut host = TestHost::default();
    host.values.insert(source.key(), erased(String::from("wrong")));

    bindings.mark_source_changed(source);
    let error = bindings.drain(&mut host).unwrap_err();

    assert!(matches!(
        error.error(),
        BindingError::SourceTypeMismatch {
            binding,
            endpoint,
            ..
        } if *binding == BindingId::new(0) && *endpoint == source.key()
    ));
    assert!(bindings.has_dirty_bindings());
}

#[test]
fn missing_source_is_skipped_and_resumes_when_source_arrives() {
    let width = registry();
    let first = PropertyEndpoint::new(1, width);
    let second = PropertyEndpoint::new(2, width);
    let third = PropertyEndpoint::new(3, width);

    let mut bindings: Bindings<()> = BindingSet::new(binding());
    bindings.bind_map(first, second, (), identity::<u32>()).unwrap();
    bindings.bind_map(second, third, (), identity::<u32>()).unwrap();

    let mut host = TestHost::default();
    host.set_initial(second, 10_u32);

    bindings.mark_source_changed(first);
    bindings.mark_source_changed(second);
    let report = bindings.drain(&mut host).unwrap();

    assert_eq!(report.evaluated_bindings(), 1);
    assert_eq!(report.changed_bindings(), 1);
    assert_eq!(report.skipped_missing_source(), 1);
    assert_eq!(host.value(third), Some(&10));
    assert!(!bindings.has_dirty_bindings());

    host.set_initial(first, 20_u32);
    bindings.mark_source_changed(first);
    let retry = bindings.drain(&mut host).unwrap();

    assert_eq!(retry.evaluated_bindings(), 2);
    assert_eq!(retry.changed_bindings(), 2);
    assert_eq!(retry.skipped_missing_source(), 0);
    assert_eq!(host.value(second), Some(&20));
    assert_eq!(host.value(third), Some(&20));
}

#[test]
fn missing_source_does_not_block_sibling_writes() {
    let width = registry();
    let first_source = PropertyEndpoint::new(1, width);
    let first_target = PropertyEndpoint::new(2, width);
    let missing_source = PropertyEndpoint::new(3, width);
    let missing_target = PropertyEndpoint::new(4, width);

    let mut bindings: Bindings<()> = BindingSet::new(binding());
    bindings.bind_map(first_source, first_target, (), identity::<u32>()).unwrap();
    bindings.bind_map(missing_source, missing_target, (), identity::<u32>()).unwrap();

    let mut host = TestHost::default();
    host.set_initial(first_source, 10_u32);
    host.set_channels(first_target, ChannelSet::single(layout()));

    bindings.mark_source_changed(first_source);
    bindings.mark_source_changed(missing_source);
    let report = bindings.drain(&mut host).unwrap();

    assert_eq!(report.evaluated_bindings(), 1);
    assert_eq!(report.changed_bindings(), 1);
    assert_eq!(report.skipped_missing_source(), 1);
    assert!(report.affected_channels().contains(layout()));
    assert_eq!(host.value(first_target), Some(&10));
    assert!(!bindings.has_dirty_bindings());

    host.set_initial(missing_source, 20_u32);
    bindings.mark_source_changed(missing_source);
    let retry = bindings.drain(&mut host).unwrap();

    assert_eq!(retry.evaluated_bindings(), 1);
    assert_eq!(host.value(missing_target), Some(&20));
}

#[test]
fn stored_values_bind_through_normal_binding_set() {
    #[derive(Copy, Clone, Debug, Eq, PartialEq, Hash)]
    enum Owner {
        Source(ValueSourceId),
        Target,
    }

    impl understory::dirty::Key for Owner {
        fn key_eq(&self, other: &Self) -> bool {
            self == other
        }
    }

    struct Host {
        sources: ValueSourceStore<Erased, fn() -> Erased>,
        target: Option<Erased>,
    }

    impl BindingHost<Owner, (), Erased> for Host {
        fn get_erased(&self, endpoint: EndpointKey<Owner>) -> Option<Erased> {
            match endpoint.owner() {
                Owner::Source(id) => self.sources.value_erased(id, endpoint.property()),
                Owner::Target => self.target.clone(),
            }
        }

        fn set_erased(&mut self, endpoint: EndpointKey<Owner>, value: Erased, (): ()) -> BindingWrite {
            match endpoint.owner() {
                Owner::Target => {
                    self.target = Some(value);
                    BindingWrite::changed(ChannelSet::empty())
                }
                Owner::Source(_) => BindingWrite::unchanged(),
            }
        }
    }

    let mut host = Host { sources: ValueSourceStore::new(), target: None };
    let source = host.sources.push_value(erased(7_u32));
    let target = Property::<String>::from_id(PropertyId::new(4));
    let source_endpoint = source.endpoint(Owner::Source(source.id()));
    let target_endpoint = PropertyEndpoint::new(Owner::Target, target);

    let mut bindings: BindingSet<Owner, (), Erased, Convert> = BindingSet::new(binding());
    bindings
        .bind_map(source_endpoint, target_endpoint, (), typed(|value: &u32| format_value(*value)))
        .unwrap();
    bindings.mark_source_changed(source_endpoint);

    let report = bindings.drain(&mut host).unwrap();
    assert_eq!(report.evaluated_bindings(), 1);
    assert_eq!(report.changed_bindings(), 1);
    assert_eq!(
        host.target.as_ref().and_then(|value| (**value).downcast_ref::<String>()).map(String::as_str),
        Some("value: 7"),
    );
    assert_eq!(source_endpoint.property().id(), value_source_property_id());
}

fn format_value(value: u32) -> String {
    format!("value: {value}")
}

#[test]
fn bindings_stats_count_endpoints_edges_and_dirty() {
    let width = registry();
    let a = PropertyEndpoint::new(1, width);
    let b = PropertyEndpoint::new(2, width);
    let c = PropertyEndpoint::new(3, width);
    let d = PropertyEndpoint::new(4, width);

    let mut bindings: Bindings<()> = BindingSet::new(binding());
    bindings.bind_map(a, b, (), identity::<u32>()).unwrap();
    bindings.bind_map(a, c, (), identity::<u32>()).unwrap();
    bindings.bind_map(c, d, (), identity::<u32>()).unwrap();
    assert_eq!(bindings.binding_channel(), binding());

    let stats = bindings.stats();
    assert_eq!(stats.active_bindings(), 3);
    assert_eq!(stats.binding_slots(), 3);
    assert_eq!(stats.source_endpoints(), 2);
    assert_eq!(stats.target_endpoints(), 3);
    assert_eq!(stats.dependency_edges(), 1);
    assert!(!stats.has_dirty_bindings());

    assert!(bindings.mark_endpoint_changed(a.key()));
    assert!(!bindings.mark_endpoint_changed(a.key()));
    assert_eq!(bindings.stats().dirty_bindings(), 2);
    assert!(bindings.mark_binding_dirty(BindingId::new(2)));
    assert!(!bindings.mark_binding_dirty(BindingId::new(9)));
    assert_eq!(bindings.stats().dirty_bindings(), 3);
}

#[test]
fn failed_drain_remarks_the_rest_of_the_pass() {
    let width = registry();
    let a = PropertyEndpoint::new(1, width);
    let b = PropertyEndpoint::new(2, width);
    let c = PropertyEndpoint::new(3, width);

    let mut bindings: Bindings<()> = BindingSet::new(binding());
    let bad = bindings.bind_map(a, b, (), identity::<u32>()).unwrap();
    let other = bindings.bind_map(c, PropertyEndpoint::new(4, width), (), identity::<u32>()).unwrap();

    let mut host = TestHost::default();
    host.values.insert(a.key(), erased(String::from("not a number")));
    host.set_initial(c, 5_u32);
    bindings.mark_source_changed(a);
    bindings.mark_source_changed(c);

    let error = bindings.drain(&mut host).unwrap_err();
    assert!(matches!(error.error(), BindingError::SourceTypeMismatch { binding, .. } if *binding == bad));
    assert_eq!(error.report().evaluated_bindings(), 0);
    assert_eq!(bindings.stats().dirty_bindings(), 2);
    assert!(!bindings.mark_binding_dirty(other));
}

#[test]
fn a_longer_cycle_is_reported_at_the_first_closing_reader() {
    let width = registry();
    let e1 = PropertyEndpoint::new(1, width);
    let e2 = PropertyEndpoint::new(2, width);
    let e3 = PropertyEndpoint::new(3, width);

    let mut bindings: Bindings<()> = BindingSet::new(binding());
    let first = bindings.bind_map(e1, e2, (), identity::<u32>()).unwrap();
    bindings.bind_map(e2, e3, (), identity::<u32>()).unwrap();
    let error = bindings.bind_map(e3, e1, (), identity::<u32>()).unwrap_err();
    assert!(matches!(
        error,
        BindingError::Cycle { dependent, dependency } if dependent == first && dependency == BindingId::new(2)
    ));
    assert_eq!(bindings.len(), 2);
    assert_eq!(bindings.stats().dependency_edges(), 1);
}

#[test]
fn evaluate_read_converts_or_reports() {
    let width = registry();
    let source = PropertyEndpoint::new(1, width);
    let target = PropertyEndpoint::new(2, width);

    let mut bindings: Bindings<u8> = BindingSet::new(binding());
    let id = bindings.bind_map(source, target, 9, typed(|v: &u32| v + 1)).unwrap();

    match bindings.evaluate_read(id, Some(erased(41_u32))) {
        Ok(Some((t, value, context))) => {
            assert_eq!(t, target.key());
            assert_eq!((*value).downcast_ref::<u32>(), Some(&42));
            assert_eq!(context, 9);
        }
        _ => panic!("expected a write"),
    }
    assert!(matches!(
        bindings.evaluate_read(id, None),
        Err(BindingError::MissingSource { binding, endpoint }) if binding == id && endpoint == source.key()
    ));
    assert!(matches!(
        bindings.evaluate_read(id, Some(erased(String::from("wide")))),
        Err(BindingError::SourceTypeMismatch { binding, .. }) if binding == id
    ));
    assert!(bindings.unbind(id));
    assert!(matches!(bindings.evaluate_read(id, Some(erased(1_u32))), Ok(None)));
}

#[test]
fn drain_counts_one_evaluation_per_write() {
    let width = registry();
    let a = PropertyEndpoint::new(1, width);
    let b = PropertyEndpoint::new(2, width);
    let c = PropertyEndpoint::new(3, width);

    let mut bindings: Bindings<()> = BindingSet::new(binding());
    bindings.bind_map(a, b, (), identity::<u32>()).unwrap();
    bindings.bind_map(b, c, (), typed(|value: &u32| value + 1)).unwrap();

    let mut host = TestHost::default();
    host.set_initial(a, 5_u32);

    assert!(bindings.mark_source_changed(a));
    let report = bindings.drain(&mut host).unwrap();

    assert_eq!(report.evaluated_bindings(), host.writes.len());
    assert_eq!(host.writes, vec![b.key(), c.key()]);
    assert_eq!(host.value(b), Some(&5));
    assert_eq!(host.value(c), Some(&6));
}
