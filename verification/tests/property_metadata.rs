use std::sync::atomic::AtomicBool;
use std::sync::Arc;

use understory::dirty::{Channel, ChannelSet};
use understory::property::{PropertyMetadata, PropertyMetadataBuilder};

type Changed<T> = Box<dyn Fn(Option<&T>, &T) + Send + Sync>;
type Coerce<T> = Box<dyn Fn(T) -> T + Send + Sync>;

fn layout() -> Channel {
    Channel::new(0)
}

fn paint() -> Channel {
    Channel::new(1)
}

#[test]
fn metadata_defaults() {
    let metadata = PropertyMetadata::<i32, Changed<i32>, Coerce<i32>>::new(42_i32);
    assert_eq!(metadata.default_value(), &42);
    assert!(!metadata.inherits());
    assert!(metadata.affects_channels().is_empty());
    assert!(!metadata.has_changed_callback());
    assert!(!metadata.has_coerce_callback());
}

#[test]
fn metadata_builder() {
    let metadata = PropertyMetadataBuilder::<f64, Changed<f64>, Coerce<f64>>::new(100.0_f64)
        .inherits(true)
        .affects_channels(ChannelSet::single(layout()).union(ChannelSet::single(paint())))
        .build();

    assert_eq!(metadata.default_value(), &100.0);
    assert!(metadata.inherits());
    assert!(metadata.affects_channels().contains(layout()));
    assert!(metadata.affects_channels().contains(paint()));
}

#[test]
fn metadata_coerce() {
    let metadata = PropertyMetadataBuilder::<f64, Changed<f64>, Coerce<f64>>::new(0.0_f64)
        .coerce(Box::new(|v: f64| v.clamp(0.0, 100.0)))
        .build();

    assert_eq!(metadata.coerce(-10.0), 0.0);
    assert_eq!(metadata.coerce(50.0), 50.0);
    assert_eq!(metadata.coerce(150.0), 100.0);
}

#[test]
fn metadata_changed_callback() {
    let called = Arc::new(AtomicBool::new(false));
    let called_clone = called.clone();

    let metadata = PropertyMetadataBuilder::<i32, Changed<i32>, Coerce<i32>>::new(0_i32)
        .on_changed(Box::new(move |_, _| {
            called_clone.store(true, std::sync::atomic::Ordering::SeqCst);
        }))
        .build();

    assert!(metadata.has_changed_callback());
    assert!(!called.load(std::sync::atomic::Ordering::SeqCst));

    metadata.on_changed(None, &42);
    assert!(called.load(std::sync::atomic::Ordering::SeqCst));
}

#[test]
fn coerce_without_callback_keeps_the_value() {
    let metadata = PropertyMetadata::<u32, Changed<u32>, Coerce<u32>>::new(5);
    assert_eq!(metadata.coerce(17), 17);
    metadata.on_changed(Some(&1), &2);
    let built = PropertyMetadataBuilder::<u32, Changed<u32>, Coerce<u32>>::new(3).build();
    assert_eq!(built.default_value(), &3);
    assert!(!built.has_coerce_callback());
}

#[test]
fn metadata_debug() {
    let metadata =
        PropertyMetadataBuilder::<i32, fn(Option<&i32>, &i32), fn(i32) -> i32>::new(42_i32).inherits(true).build();

    let debug = format!("{:?}", metadata);
    assert!(debug.contains("PropertyMetadata"));
    assert!(debug.contains("42"));
    assert!(debug.contains("true"));
}
