use std::any::TypeId;

use understory::dirty::{Channel, ChannelSet};
use understory::property::{LocalValueSource, Property, PropertyId, PropertyStore};

/// The values these tests store: widths are `f64`, counts are `i32`.
#[derive(Clone, Debug, PartialEq)]
enum Val {
    F(f64),
    I(i32),
}

fn setup_registry() -> (Property<f64>, Property<i32>) {
    (Property::from_id(PropertyId::new(0)), Property::from_id(PropertyId::new(1)))
}

const WIDTH_DEFAULT: Val = Val::F(0.0);

#[test]
fn store_new() {
    let store = PropertyStore::<u32, Val>::new(1);
    assert!(store.is_empty());
    assert_eq!(store.len(), 0);
    assert_eq!(store.owner(), 1);
}

#[test]
fn store_set_get_local() {
    let (width, _) = setup_registry();
    let mut store = PropertyStore::<u32, Val>::new(1);

    assert!(store.get_local(width).is_none());

    store.set_local(width, Val::F(100.0));
    assert_eq!(store.get_local(width), Some(&Val::F(100.0)));
    assert!(!store.is_empty());
    assert_eq!(store.len(), 1);
}

#[test]
fn store_set_get_animation() {
    let (width, _) = setup_registry();
    let mut store = PropertyStore::<u32, Val>::new(1);

    assert!(store.get_animation(width).is_none());

    store.set_animation(width, Val::F(200.0));
    assert_eq!(store.get_animation(width), Some(&Val::F(200.0)));
}

#[test]
fn store_animation_precedence() {
    let (width, _) = setup_registry();
    let mut store = PropertyStore::<u32, Val>::new(1);

    store.set_local(width, Val::F(100.0));
    assert_eq!(store.get_effective_local(width, &WIDTH_DEFAULT), Val::F(100.0));

    store.set_animation(width, Val::F(200.0));
    assert_eq!(store.get_effective_local(width, &WIDTH_DEFAULT), Val::F(200.0));

    store.clear_animation(width);
    assert_eq!(store.get_effective_local(width, &WIDTH_DEFAULT), Val::F(100.0));
}

#[test]
fn store_effective_local_ref_precedence_and_sources() {
    let (width, _) = setup_registry();
    let mut store = PropertyStore::<u32, Val>::new(1);
    let metadata_default = WIDTH_DEFAULT;

    let default_ref = store.get_effective_local_ref(width, &metadata_default);
    assert!(std::ptr::eq(default_ref, &metadata_default));

    store.set_local(width, Val::F(100.0));
    let local_ref = store.get_effective_local_ref(width, &metadata_default);
    assert!(std::ptr::eq(local_ref, store.get_local(width).unwrap()));

    store.set_animation(width, Val::F(200.0));
    let anim_ref = store.get_effective_local_ref(width, &metadata_default);
    assert!(std::ptr::eq(anim_ref, store.get_animation(width).unwrap()));
}

#[test]
fn store_clear_local() {
    let (width, _) = setup_registry();
    let mut store = PropertyStore::<u32, Val>::new(1);

    store.set_local(width, Val::F(100.0));
    assert!(store.has_local(width));

    assert!(store.clear_local(width));
    assert!(!store.has_local(width));
    assert!(store.is_empty());

    assert!(!store.clear_local(width));
}

#[test]
fn store_clear_animation() {
    let (width, _) = setup_registry();
    let mut store = PropertyStore::<u32, Val>::new(1);

    store.set_animation(width, Val::F(200.0));
    assert!(store.has_animation(width));

    assert!(store.clear_animation(width));
    assert!(!store.has_animation(width));
    assert!(store.is_empty());
}

#[test]
fn store_clear_all_animations() {
    let (width, count) = setup_registry();
    let mut store = PropertyStore::<u32, Val>::new(1);

    store.set_local(width, Val::F(100.0));
    store.set_animation(width, Val::F(200.0));
    store.set_animation(count, Val::I(5));

    let removed = store.clear_all_animations();
    assert_eq!(removed, 2);

    assert!(!store.has_animation(width));
    assert!(!store.has_animation(count));
    assert!(store.has_local(width));
    assert!(!store.has_value(count));
}

#[test]
fn store_default_value() {
    let (width, _) = setup_registry();
    let store = PropertyStore::<u32, Val>::new(1);
    assert_eq!(store.get_effective_local(width, &WIDTH_DEFAULT), Val::F(0.0));
}

#[test]
fn store_clone() {
    let (width, _) = setup_registry();
    let mut store = PropertyStore::<u32, Val>::new(1);
    store.set_local(width, Val::F(100.0));

    let cloned = store.clone();
    assert_eq!(cloned.get_local(width), Some(&Val::F(100.0)));
    assert_eq!(cloned.owner(), 1);
}

#[test]
fn store_property_ids() {
    let (width, count) = setup_registry();
    let mut store = PropertyStore::<u32, Val>::new(1);

    store.set_local(width, Val::F(100.0));
    store.set_local(count, Val::I(5));

    let ids: Vec<_> = store.property_ids();
    assert_eq!(ids.len(), 2);
    assert!(ids.contains(&width.id()));
    assert!(ids.contains(&count.id()));
}

#[test]
fn store_sorted_order() {
    let c: Property<i32> = Property::from_id(PropertyId::new(0));
    let a: Property<i32> = Property::from_id(PropertyId::new(1));
    let b: Property<i32> = Property::from_id(PropertyId::new(2));

    let mut store = PropertyStore::<u32, i32>::new(1);

    store.set_local(b, 2);
    store.set_local(c, 3);
    store.set_local(a, 1);

    let ids: Vec<_> = store.property_ids();
    assert_eq!(ids.len(), 3);

    for i in 1..ids.len() {
        assert!(ids[i - 1].get() < ids[i].get());
    }
}

#[test]
fn store_binary_search_correctness() {
    let props: Vec<Property<i32>> = (0..20)
        .map(|i| Property::from_id(PropertyId::new(i)))
        .collect();

    let mut store = PropertyStore::<u32, i32>::new(1);

    for (i, prop) in props.iter().enumerate() {
        if i % 2 == 0 {
            let value = i32::try_from(i).unwrap();
            store.set_local(*prop, value);
        }
    }

    for (i, prop) in props.iter().enumerate() {
        if i % 2 == 0 {
            let value = i32::try_from(i).unwrap();
            assert_eq!(store.get_local(*prop), Some(&value));
        } else {
            assert!(store.get_local(*prop).is_none());
        }
    }
}

#[test]
fn store_local_and_animation_together() {
    let (width, _) = setup_registry();
    let mut store = PropertyStore::<u32, Val>::new(1);

    store.set_local(width, Val::F(100.0));
    store.set_animation(width, Val::F(200.0));

    assert_eq!(store.get_local(width), Some(&Val::F(100.0)));
    assert_eq!(store.get_animation(width), Some(&Val::F(200.0)));

    store.clear_local(width);
    assert!(store.get_local(width).is_none());
    assert_eq!(store.get_animation(width), Some(&Val::F(200.0)));
    assert!(store.has_value(width));

    store.clear_animation(width);
    assert!(!store.has_value(width));
    assert!(store.is_empty());
}

#[test]
fn set_local_records_local_source() {
    let (width, _) = setup_registry();
    let mut store = PropertyStore::<u32, Val>::new(1);

    store.set_local(width, Val::F(100.0));
    assert_eq!(store.get_local_source(width), Some(LocalValueSource::Local));
}

#[test]
fn set_local_with_source_records_source() {
    let (width, _) = setup_registry();
    let mut store = PropertyStore::<u32, Val>::new(1);

    store.set_local_with_source(width, Val::F(10.0), LocalValueSource::TemplateDefault);
    assert_eq!(store.get_local(width), Some(&Val::F(10.0)));
    assert_eq!(store.get_local_source(width), Some(LocalValueSource::TemplateDefault));
}

#[test]
fn highest_source_wins_read() {
    let (width, _) = setup_registry();
    let mut store = PropertyStore::<u32, Val>::new(1);

    store.set_local_with_source(width, Val::F(10.0), LocalValueSource::TemplateDefault);
    store.set_local_with_source(width, Val::F(20.0), LocalValueSource::TemplateBinding);
    store.set_local(width, Val::F(30.0));

    assert_eq!(store.get_local(width), Some(&Val::F(30.0)));
    assert_eq!(store.get_local_source(width), Some(LocalValueSource::Local));
}

#[test]
fn clear_template_binding_reveals_template_default() {
    let (width, _) = setup_registry();
    let mut store = PropertyStore::<u32, Val>::new(1);

    store.set_local_with_source(width, Val::F(10.0), LocalValueSource::TemplateDefault);
    store.set_local_with_source(width, Val::F(20.0), LocalValueSource::TemplateBinding);
    assert_eq!(store.get_local(width), Some(&Val::F(20.0)));

    assert!(store.clear_local_at_source(width, LocalValueSource::TemplateBinding));
    assert_eq!(store.get_local(width), Some(&Val::F(10.0)));
    assert_eq!(store.get_local_source(width), Some(LocalValueSource::TemplateDefault));
}

#[test]
fn clear_local_reveals_template_binding() {
    let (width, _) = setup_registry();
    let mut store = PropertyStore::<u32, Val>::new(1);

    store.set_local_with_source(width, Val::F(20.0), LocalValueSource::TemplateBinding);
    store.set_local(width, Val::F(30.0));
    assert_eq!(store.get_local(width), Some(&Val::F(30.0)));

    assert!(store.clear_local(width));
    assert_eq!(store.get_local(width), Some(&Val::F(20.0)));
    assert_eq!(store.get_local_source(width), Some(LocalValueSource::TemplateBinding));
}

#[test]
fn clear_local_erased_reveals_template_binding() {
    let (width, _) = setup_registry();
    let mut store = PropertyStore::<u32, Val>::new(1);

    store.set_local_with_source(width, Val::F(20.0), LocalValueSource::TemplateBinding);
    store.set_local(width, Val::F(30.0));

    assert!(store.clear_local_erased(width.id()));
    assert_eq!(store.get_local(width), Some(&Val::F(20.0)));
    assert_eq!(store.get_local_source(width), Some(LocalValueSource::TemplateBinding));
    assert!(!store.clear_local_erased(width.id()));
}

#[test]
fn clear_local_erased_at_source_targets_one_slot() {
    let (width, _) = setup_registry();
    let mut store = PropertyStore::<u32, Val>::new(1);

    store.set_local_with_source(width, Val::F(10.0), LocalValueSource::TemplateDefault);
    store.set_local_with_source(width, Val::F(20.0), LocalValueSource::TemplateBinding);

    assert!(store.clear_local_erased_at_source(width.id(), LocalValueSource::TemplateBinding));
    assert_eq!(store.get_local(width), Some(&Val::F(10.0)));
    assert_eq!(store.get_local_source(width), Some(LocalValueSource::TemplateDefault));
}

#[test]
fn clear_local_erased_notifying_reports_visible_local_change() {
    let layout = Channel::new(0);
    let width_affects = ChannelSet::single(layout);
    let (width, _) = setup_registry();
    let mut store = PropertyStore::<u32, Val>::new(1);
    store.set_local(width, Val::F(30.0));

    let channels = store.clear_local_erased_notifying(width.id(), width_affects);

    assert!(channels.contains(layout));
    assert!(!store.has_local(width));
}

#[test]
fn clear_local_erased_at_source_notifying_skips_masked_slots() {
    let layout = Channel::new(0);
    let width_affects = ChannelSet::single(layout);
    let (width, _) = setup_registry();
    let mut store = PropertyStore::<u32, Val>::new(1);
    store.set_local(width, Val::F(30.0));
    store.set_local_with_source(width, Val::F(20.0), LocalValueSource::TemplateBinding);

    let channels = store.clear_local_erased_at_source_notifying(
        width.id(),
        LocalValueSource::TemplateBinding,
        width_affects,
    );

    assert!(channels.is_empty());
    assert_eq!(store.get_local(width), Some(&Val::F(30.0)));
    assert!(!store.has_local_at_source(width, LocalValueSource::TemplateBinding));
}

#[test]
fn clear_local_erased_notifying_skips_animation_masked_local() {
    let layout = Channel::new(0);
    let width_affects = ChannelSet::single(layout);
    let (width, _) = setup_registry();
    let mut store = PropertyStore::<u32, Val>::new(1);
    store.set_local(width, Val::F(30.0));
    store.set_animation(width, Val::F(50.0));

    let channels = store.clear_local_erased_notifying(width.id(), width_affects);

    assert!(channels.is_empty());
    assert!(!store.has_local_at_source(width, LocalValueSource::Local));
    assert_eq!(store.get_effective_local(width, &WIDTH_DEFAULT), Val::F(50.0));
}

#[test]
fn set_to_lower_source_does_not_change_winning_value() {
    let (width, _) = setup_registry();
    let mut store = PropertyStore::<u32, Val>::new(1);

    store.set_local(width, Val::F(100.0));
    store.set_local_with_source(width, Val::F(50.0), LocalValueSource::TemplateBinding);

    assert_eq!(store.get_local(width), Some(&Val::F(100.0)));
    assert_eq!(store.get_local_source(width), Some(LocalValueSource::Local));
    assert_eq!(
        store.get_local_at_source(width, LocalValueSource::TemplateBinding),
        Some(&Val::F(50.0))
    );
}

#[test]
fn clear_local_by_source_removes_only_that_slot() {
    let (width, count) = setup_registry();
    let mut store = PropertyStore::<u32, Val>::new(1);

    store.set_local_with_source(width, Val::F(1.0), LocalValueSource::TemplateDefault);
    store.set_local_with_source(count, Val::I(2), LocalValueSource::TemplateDefault);
    store.set_local(width, Val::F(99.0));

    let removed = store.clear_local_by_source(LocalValueSource::TemplateDefault);
    assert_eq!(removed, 2);

    assert_eq!(store.get_local(width), Some(&Val::F(99.0)));
    assert_eq!(store.get_local_source(width), Some(LocalValueSource::Local));
    assert!(!store.has_local(count));
}

#[test]
fn clear_local_by_source_returns_zero_when_empty() {
    let (width, _) = setup_registry();
    let mut store = PropertyStore::<u32, Val>::new(1);
    store.set_local(width, Val::F(100.0));

    assert_eq!(store.clear_local_by_source(LocalValueSource::TemplateDefault), 0);
    assert!(store.has_local(width));
}

#[test]
fn has_local_at_source_reflects_specific_slot() {
    let (width, _) = setup_registry();
    let mut store = PropertyStore::<u32, Val>::new(1);

    store.set_local_with_source(width, Val::F(7.0), LocalValueSource::TemplateBinding);

    assert!(store.has_local_at_source(width, LocalValueSource::TemplateBinding));
    assert!(!store.has_local_at_source(width, LocalValueSource::Local));
    assert!(!store.has_local_at_source(width, LocalValueSource::TemplateDefault));
}

#[test]
fn property_ids_dedupes_across_slots() {
    let (width, count) = setup_registry();
    let mut store = PropertyStore::<u32, Val>::new(1);

    store.set_local_with_source(width, Val::F(1.0), LocalValueSource::TemplateDefault);
    store.set_local_with_source(width, Val::F(2.0), LocalValueSource::TemplateBinding);
    store.set_local(width, Val::F(3.0));
    store.set_animation(width, Val::F(4.0));
    store.set_local(count, Val::I(99));

    let ids: Vec<_> = store.property_ids();
    assert_eq!(ids.len(), 2);
    assert!(ids.contains(&width.id()));
    assert!(ids.contains(&count.id()));
}

#[test]
fn local_winner_erased_returns_highest_source_entry() {
    let (width, _) = setup_registry();
    let mut store = PropertyStore::<u32, Val>::new(1);

    store.set_local_with_source(width, Val::F(10.0), LocalValueSource::TemplateDefault);
    store.set_local_with_source(width, Val::F(20.0), LocalValueSource::TemplateBinding);

    let erased = store.local_winner_erased(width.id()).unwrap();
    assert_eq!(erased, &Val::F(20.0));
    assert_eq!(store.get_local(width), Some(&Val::F(20.0)));

    store.set_local(width, Val::F(30.0));
    let erased = store.local_winner_erased(width.id()).unwrap();
    assert_eq!(erased, &Val::F(30.0));
    assert_eq!(store.get_local(width), Some(&Val::F(30.0)));
}

#[test]
fn local_winner_erased_returns_none_without_local_entries() {
    let (width, _) = setup_registry();
    let store = PropertyStore::<u32, Val>::new(1);

    assert!(store.local_winner_erased(width.id()).is_none());
}

#[test]
fn effective_local_erased_prefers_animation_over_local_winner() {
    let (width, _) = setup_registry();
    let mut store = PropertyStore::<u32, Val>::new(1);

    store.set_local(width, Val::F(100.0));
    store.set_animation(width, Val::F(200.0));

    let erased = store.effective_local_erased(width.id()).unwrap();
    assert_eq!(erased, &Val::F(200.0));
}

#[test]
fn animation_erased_returns_animation_slot_entry() {
    let (width, _) = setup_registry();
    let mut store = PropertyStore::<u32, Val>::new(1);

    assert!(store.animation_erased(width.id()).is_none());

    store.set_local(width, Val::F(100.0));
    store.set_animation(width, Val::F(200.0));

    let erased = store.animation_erased(width.id()).unwrap();
    assert_eq!(erased, &Val::F(200.0));
}

#[test]
fn local_erased_at_source_reads_specific_slot() {
    let (width, _) = setup_registry();
    let mut store = PropertyStore::<u32, Val>::new(1);

    store.set_local_with_source(width, Val::F(10.0), LocalValueSource::TemplateDefault);
    store.set_local(width, Val::F(30.0));

    let erased = store
        .local_erased_at_source(width.id(), LocalValueSource::TemplateDefault)
        .unwrap();
    assert_eq!(erased, &Val::F(10.0));
    let erased = store
        .local_erased_at_source(width.id(), LocalValueSource::Local)
        .unwrap();
    assert_eq!(erased, &Val::F(30.0));
}

#[test]
fn set_local_erased_with_source_checked_rejects_mismatch_and_leaves_store() {
    let (width, _) = setup_registry();
    let mut store = PropertyStore::<u32, Val>::new(1);
    store.set_local_with_source(width, Val::F(10.0), LocalValueSource::TemplateDefault);

    let err = store
        .set_local_erased_with_source_checked(
            width.id(),
            Val::I(42),
            TypeId::of::<i32>(),
            LocalValueSource::TemplateDefault,
            TypeId::of::<f64>(),
        )
        .unwrap_err();

    assert_eq!(err.expected, TypeId::of::<f64>());
    assert_eq!(err.actual, TypeId::of::<i32>());
    assert_eq!(store.get_local(width), Some(&Val::F(10.0)));
}

#[test]
fn set_local_erased_with_source_round_trips_through_typed_read() {
    let (width, _) = setup_registry();
    let mut store = PropertyStore::<u32, Val>::new(1);

    store.set_local_erased_with_source(width.id(), Val::F(42.0), LocalValueSource::TemplateBinding);

    assert_eq!(store.get_local(width), Some(&Val::F(42.0)));
    assert_eq!(store.get_local_source(width), Some(LocalValueSource::TemplateBinding));
}

#[test]
fn set_local_erased_with_source_notifying_returns_channels_even_for_same_value() {
    let layout = Channel::new(0);
    let width_affects = ChannelSet::single(layout);
    let (width, _) = setup_registry();
    let mut store = PropertyStore::<u32, Val>::new(1);

    let first = store
        .set_local_erased_with_source_notifying(
            width.id(),
            Val::F(10.0),
            TypeId::of::<f64>(),
            LocalValueSource::Local,
            TypeId::of::<f64>(),
            width_affects,
        )
        .unwrap();
    let second = store
        .set_local_erased_with_source_notifying(
            width.id(),
            Val::F(10.0),
            TypeId::of::<f64>(),
            LocalValueSource::Local,
            TypeId::of::<f64>(),
            width_affects,
        )
        .unwrap();

    assert!(first.contains(layout));
    assert!(second.contains(layout));
    assert_eq!(store.get_local(width), Some(&Val::F(10.0)));
}

#[test]
fn set_local_erased_with_source_notifying_mismatch_leaves_store_untouched() {
    let (width, _) = setup_registry();
    let mut store = PropertyStore::<u32, Val>::new(1);
    store.set_local_with_source(width, Val::F(10.0), LocalValueSource::TemplateDefault);

    let err = store
        .set_local_erased_with_source_notifying(
            width.id(),
            Val::I(42),
            TypeId::of::<i32>(),
            LocalValueSource::Local,
            TypeId::of::<f64>(),
            ChannelSet::empty(),
        )
        .unwrap_err();

    assert_eq!(err.expected, TypeId::of::<f64>());
    assert_eq!(err.actual, TypeId::of::<i32>());
    assert!(!store.has_local_at_source(width, LocalValueSource::Local));
    assert_eq!(
        store.get_local_at_source(width, LocalValueSource::TemplateDefault),
        Some(&Val::F(10.0))
    );
    assert_eq!(store.get_local(width), Some(&Val::F(10.0)));
}

#[test]
fn clear_all_removes_every_layer() {
    let (width, count) = setup_registry();
    let mut store = PropertyStore::<u32, Val>::new(1);

    store.set_local_with_source(width, Val::F(1.0), LocalValueSource::TemplateDefault);
    store.set_local(width, Val::F(2.0));
    store.set_animation(width, Val::F(3.0));
    store.set_local(count, Val::I(4));

    assert!(store.clear_all(width));
    assert!(!store.has_value(width));
    assert_eq!(store.len(), 1);
    assert!(!store.clear_all(width));
    assert_eq!(store.local_property_ids_at_source(LocalValueSource::Local), vec![count.id()]);
}

#[test]
fn local_property_ids_at_source_are_ascending() {
    let mut store = PropertyStore::<u32, i32>::new(1);
    for raw in [7u16, 2, 9, 4] {
        store.set_local_with_source(
            Property::<i32>::from_id(PropertyId::new(raw)),
            i32::from(raw),
            LocalValueSource::TemplateBinding,
        );
    }
    let ids: Vec<u16> = store
        .local_property_ids_at_source(LocalValueSource::TemplateBinding)
        .iter()
        .map(|id| id.get())
        .collect();
    assert_eq!(ids, vec![2, 4, 7, 9]);
    assert!(store.local_property_ids_at_source(LocalValueSource::Local).is_empty());
}
