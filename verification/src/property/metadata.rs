//! Property metadata: default value, inheritance, affected channels and the
//! optional change and coercion callbacks.
use vstd::prelude::*;

use crate::dirty::ChannelSet;

verus! {

/// Metadata of a dependency property: its default value, whether it
/// inherits from parent objects, which dirty channels its changes affect, and
/// optional callbacks run on change (`Changed`) and before storing (`Coerce`).
#[derive(Debug)]
pub struct PropertyMetadata<T, Changed, Coerce> {
    default_value: T,
    inherits: bool,
    affects_channels: ChannelSet,
    changed_callback: Option<Changed>,
    coerce_callback: Option<Coerce>,
}

impl<T, Changed: Fn(Option<&T>, &T), Coerce: Fn(T) -> T> PropertyMetadata<T, Changed, Coerce> {
    /// The default value.
    pub closed spec fn default_view(self) -> T {
        self.default_value
    }

    /// Whether the property inherits from parent objects.
    pub closed spec fn inherits_view(self) -> bool {
        self.inherits
    }

    /// The channels the property's changes affect.
    pub closed spec fn channels_view(self) -> ChannelSet {
        self.affects_channels
    }

    /// The change callback, if any.
    pub closed spec fn changed_view(self) -> Option<Changed> {
        self.changed_callback
    }

    /// The coercion callback, if any.
    pub closed spec fn coerce_view(self) -> Option<Coerce> {
        self.coerce_callback
    }

    /// Both callbacks, where set, accept every input.
    pub open spec fn callable(self) -> bool {
        &&& self.changed_view() matches Some(f) ==> forall|old: Option<&T>, new: &T|
            #[trigger] call_requires(f, (old, new))
        &&& self.coerce_view() matches Some(g) ==> forall|v: T| #[trigger] call_requires(g, (v,))
    }

    /// Metadata with `default_value`, no inheritance, no affected channel and
    /// no callback.
    pub fn new(default_value: T) -> (r: Self)
        ensures
            r.default_view() == default_value,
            !r.inherits_view(),
            r.channels_view()@ == Set::<nat>::empty(),
            r.changed_view() is None,
            r.coerce_view() is None,
            r.callable(),
    {
        PropertyMetadata {
            default_value,
            inherits: false,
            affects_channels: ChannelSet::empty(),
            changed_callback: None,
            coerce_callback: None,
        }
    }

    /// The default value.
    pub fn default_value(&self) -> (r: &T)
        ensures
            *r == self.default_view(),
    {
        &self.default_value
    }

    /// Whether the property inherits from parent objects.
    pub fn inherits(&self) -> (r: bool)
        ensures
            r == self.inherits_view(),
    {
        self.inherits
    }

    /// The channels the property's changes affect.
    pub fn affects_channels(&self) -> (r: ChannelSet)
        ensures
            r == self.channels_view(),
    {
        self.affects_channels
    }

    /// Runs the change callback, if one is set, on the old and new values.
    pub fn on_changed(&self, old_value: Option<&T>, new_value: &T)
        requires
            self.callable(),
        ensures
            self.changed_view() matches Some(callback) ==> call_ensures(callback, (old_value, new_value), ()),
    {
        match &self.changed_callback {
            Some(callback) => {
                proof {
                    assert(call_requires(self.changed_view()->0, (old_value, new_value)));
                }
                callback(old_value, new_value);
            },
            None => {},
        }
    }

    /// Passes `value` through the coercion callback, if one is set; without
    /// one the value is returned as it is.
    pub fn coerce(&self, value: T) -> (r: T)
        requires
            self.callable(),
        ensures
            match self.coerce_view() {
                Some(g) => call_ensures(g, (value,), r),
                None => r == value,
            },
    {
        match &self.coerce_callback {
            Some(callback) => {
                proof {
                    assert(call_requires(self.coerce_view()->0, (value,)));
                }
                callback(value)
            },
            None => value,
        }
    }

    /// Whether a change callback is set.
    pub fn has_changed_callback(&self) -> (r: bool)
        ensures
            r == self.changed_view() is Some,
    {
        self.changed_callback.is_some()
    }

    /// Whether a coercion callback is set.
    pub fn has_coerce_callback(&self) -> (r: bool)
        ensures
            r == self.coerce_view() is Some,
    {
        self.coerce_callback.is_some()
    }
}

/// Builder of [`PropertyMetadata`].
pub struct PropertyMetadataBuilder<T, Changed, Coerce> {
    default_value: T,
    inherits: bool,
    affects_channels: ChannelSet,
    changed_callback: Option<Changed>,
    coerce_callback: Option<Coerce>,
}

impl<T, Changed: Fn(Option<&T>, &T), Coerce: Fn(T) -> T> PropertyMetadataBuilder<T, Changed, Coerce> {
    /// The metadata this builder builds.
    pub closed spec fn metadata_view(self) -> PropertyMetadata<T, Changed, Coerce> {
        PropertyMetadata {
            default_value: self.default_value,
            inherits: self.inherits,
            affects_channels: self.affects_channels,
            changed_callback: self.changed_callback,
            coerce_callback: self.coerce_callback,
        }
    }

    /// A builder with `default_value`, no inheritance, no affected channel
    /// and no callback.
    pub fn new(default_value: T) -> (r: Self)
        ensures
            r.metadata_view().default_view() == default_value,
            !r.metadata_view().inherits_view(),
            r.metadata_view().channels_view()@ == Set::<nat>::empty(),
            r.metadata_view().changed_view() is None,
            r.metadata_view().coerce_view() is None,
            r.metadata_view().callable(),
    {
        PropertyMetadataBuilder {
            default_value,
            inherits: false,
            affects_channels: ChannelSet::empty(),
            changed_callback: None,
            coerce_callback: None,
        }
    }

    /// Sets whether the property inherits from parent objects.
    pub fn inherits(self, inherits: bool) -> (r: Self)
        ensures
            r.metadata_view().inherits_view() == inherits,
            r.metadata_view().default_view() == self.metadata_view().default_view(),
            r.metadata_view().channels_view() == self.metadata_view().channels_view(),
            r.metadata_view().changed_view() == self.metadata_view().changed_view(),
            r.metadata_view().coerce_view() == self.metadata_view().coerce_view(),
    {
        let mut this = self;
        this.inherits = inherits;
        this
    }

    /// Sets the channels the property's changes affect.
    pub fn affects_channels(self, channels: ChannelSet) -> (r: Self)
        ensures
            r.metadata_view().channels_view() == channels,
            r.metadata_view().default_view() == self.metadata_view().default_view(),
            r.metadata_view().inherits_view() == self.metadata_view().inherits_view(),
            r.metadata_view().changed_view() == self.metadata_view().changed_view(),
            r.metadata_view().coerce_view() == self.metadata_view().coerce_view(),
    {
        let mut this = self;
        this.affects_channels = channels;
        this
    }

    /// Sets the callback run when the property's value changes.
    pub fn on_changed(self, callback: Changed) -> (r: Self)
        ensures
            r.metadata_view().changed_view() == Some(callback),
            r.metadata_view().default_view() == self.metadata_view().default_view(),
            r.metadata_view().inherits_view() == self.metadata_view().inherits_view(),
            r.metadata_view().channels_view() == self.metadata_view().channels_view(),
            r.metadata_view().coerce_view() == self.metadata_view().coerce_view(),
    {
        let mut this = self;
        this.changed_callback = Some(callback);
        this
    }

    /// Sets the callback that coerces values before they are stored.
    pub fn coerce(self, callback: Coerce) -> (r: Self)
        ensures
            r.metadata_view().coerce_view() == Some(callback),
            r.metadata_view().default_view() == self.metadata_view().default_view(),
            r.metadata_view().inherits_view() == self.metadata_view().inherits_view(),
            r.metadata_view().channels_view() == self.metadata_view().channels_view(),
            r.metadata_view().changed_view() == self.metadata_view().changed_view(),
    {
        let mut this = self;
        this.coerce_callback = Some(callback);
        this
    }

    /// The metadata built so far.
    pub fn build(self) -> (r: PropertyMetadata<T, Changed, Coerce>)
        ensures
            r == self.metadata_view(),
    {
        PropertyMetadata {
            default_value: self.default_value,
            inherits: self.inherits,
            affects_channels: self.affects_channels,
            changed_callback: self.changed_callback,
            coerce_callback: self.coerce_callback,
        }
    }
}

} // verus!
