use vstd::prelude::*;
use vstd::std_specs::cmp::PartialEqSpec;

use std::marker::PhantomData;

use super::endpoint::PropertyEndpoint;
use crate::property::{Property, PropertyId};

verus! {

/// The raw id of the synthetic property under which value sources are read.
pub open spec fn value_source_raw_id() -> u16 {
    u16::MAX
}

/// The id of the synthetic property under which value sources are read.
pub fn value_source_property_id() -> (r: PropertyId)
    ensures
        r.raw() == value_source_raw_id(),
{
    PropertyId::new(u16::MAX)
}

/// Whether `property` is the synthetic value-source property.
fn is_value_source_property(property: PropertyId) -> (r: bool)
    ensures
        r == (property.raw() == value_source_raw_id()),
{
    property.get() == u16::MAX
}

/// The synthetic property under which value sources are read.
pub fn value_source_property<T>() -> (r: Property<T>)
    ensures
        r.id_view().raw() == value_source_raw_id(),
{
    Property::from_id(PropertyId::new(u16::MAX))
}

/// Identifier of a stored value source.
#[derive(Copy, Clone, Debug, Eq, PartialEq, Structural, Hash)]
pub struct ValueSourceId(usize);

impl ValueSourceId {
    /// The slot index.
    pub closed spec fn index_view(self) -> usize {
        self.0
    }

    /// The slot index.
    pub fn index(self) -> (r: usize)
        ensures
            r == self.index_view(),
    {
        self.0
    }
}

/// Identifier of an external value source.
#[derive(Copy, Clone, Debug, Eq, PartialEq, Structural, Hash)]
pub struct ExternalSourceId(usize);

impl ExternalSourceId {
    /// The slot index.
    pub closed spec fn index_view(self) -> usize {
        self.0
    }

    /// The slot index.
    pub fn index(self) -> (r: usize)
        ensures
            r == self.index_view(),
    {
        self.0
    }
}

/// A typed handle to a stored value source.
pub struct ValueSource<T> {
    id: ValueSourceId,
    marker: PhantomData<T>,
}

impl<T> ValueSource<T> {
    /// The source's id.
    pub closed spec fn id_view(self) -> ValueSourceId {
        self.id
    }

    /// The handle of the stored source `id`.
    pub(crate) fn new(id: ValueSourceId) -> (r: Self)
        ensures
            r.id_view() == id,
    {
        ValueSource { id, marker: PhantomData }
    }

    /// The source's id.
    pub fn id(self) -> (r: ValueSourceId)
        ensures
            r == self.id_view(),
    {
        self.id
    }

    /// The endpoint under which `owner` exposes this source to bindings.
    pub fn endpoint<K>(self, owner: K) -> (r: PropertyEndpoint<K, T>)
        ensures
            r.owner_view() == owner,
            r.property_view().id_view().raw() == value_source_raw_id(),
    {
        PropertyEndpoint::new(owner, value_source_property())
    }
}

impl<T> Clone for ValueSource<T> {
    fn clone(&self) -> (r: Self)
        ensures
            r == *self,
    {
        ValueSource { id: self.id, marker: PhantomData }
    }
}

impl<T> Copy for ValueSource<T> {
}

/// A typed handle to an external value source.
pub struct ExternalSource<T> {
    id: ExternalSourceId,
    marker: PhantomData<T>,
}

impl<T> ExternalSource<T> {
    /// The source's id.
    pub closed spec fn id_view(self) -> ExternalSourceId {
        self.id
    }

    /// The handle of the external source `id`.
    pub(crate) fn new(id: ExternalSourceId) -> (r: Self)
        ensures
            r.id_view() == id,
    {
        ExternalSource { id, marker: PhantomData }
    }

    /// The source's id.
    pub fn id(self) -> (r: ExternalSourceId)
        ensures
            r == self.id_view(),
    {
        self.id
    }

    /// The endpoint under which `owner` exposes this source to bindings.
    pub fn endpoint<K>(self, owner: K) -> (r: PropertyEndpoint<K, T>)
        ensures
            r.owner_view() == owner,
            r.property_view().id_view().raw() == value_source_raw_id(),
    {
        PropertyEndpoint::new(owner, value_source_property())
    }
}

impl<T> Clone for ExternalSource<T> {
    fn clone(&self) -> (r: Self)
        ensures
            r == *self,
    {
        ExternalSource { id: self.id, marker: PhantomData }
    }
}

impl<T> Copy for ExternalSource<T> {
}

/// Storage for single-value binding sources: stored values, and external
/// sources read through a callback of type `F`.
///
/// Values are held as `V`, typically a type-erased value.
pub struct ValueSourceStore<V, F> {
    values: Vec<V>,
    external_sources: Vec<F>,
}

impl<V, F: Fn() -> V> ValueSourceStore<V, F> {
    /// The stored values, by source index.
    pub closed spec fn values_view(self) -> Seq<V> {
        self.values@
    }

    /// The external readers, by source index.
    pub closed spec fn readers_view(self) -> Seq<F> {
        self.external_sources@
    }

    /// An empty source store.
    pub fn new() -> (r: Self)
        ensures
            r.values_view() == Seq::<V>::empty(),
            r.readers_view() == Seq::<F>::empty(),
    {
        ValueSourceStore { values: Vec::new(), external_sources: Vec::new() }
    }

    /// Stores `value` and returns its handle.
    pub fn push_value(&mut self, value: V) -> (r: ValueSource<V>)
        ensures
            final(self).values_view() == old(self).values_view().push(value),
            final(self).readers_view() == old(self).readers_view(),
            r.id_view().index_view() == old(self).values_view().len(),
    {
        let id = ValueSourceId(self.values.len());
        self.values.push(value);
        ValueSource::new(id)
    }

    /// Registers an external source read through `read`, and returns its
    /// handle.
    pub fn push_external(&mut self, read: F) -> (r: ExternalSource<V>)
        ensures
            final(self).readers_view() == old(self).readers_view().push(read),
            final(self).values_view() == old(self).values_view(),
            r.id_view().index_view() == old(self).readers_view().len(),
    {
        let id = ExternalSourceId(self.external_sources.len());
        self.external_sources.push(read);
        ExternalSource::new(id)
    }

    /// A clone of the value stored for `source`, if it exists.
    pub fn value(&self, source: ValueSource<V>) -> (r: Option<V>) where V: Clone
        ensures
            match r {
                Some(v) => source.id_view().index_view() < self.values_view().len() && cloned(
                    self.values_view()[source.id_view().index_view() as int],
                    v,
                ),
                None => source.id_view().index_view() >= self.values_view().len(),
            },
    {
        let i = source.id().index();
        if i < self.values.len() {
            Some(self.values[i].clone())
        } else {
            None
        }
    }

    /// Replaces the value stored for `source` unless it is absent or equal
    /// to `value`; returns whether the stored value changed.
    pub fn set_value(&mut self, source: ValueSource<V>, value: V) -> (r: bool) where V: PartialEq
        ensures
            final(self).readers_view() == old(self).readers_view(),
            r ==> source.id_view().index_view() < old(self).values_view().len()
                && final(self).values_view() == old(self).values_view().update(
                source.id_view().index_view() as int,
                value,
            ),
            !r ==> final(self).values_view() == old(self).values_view(),
            source.id_view().index_view() >= old(self).values_view().len() ==> !r,
            V::obeys_eq_spec() && source.id_view().index_view() < old(self).values_view().len()
                ==> (r == !old(self).values_view()[source.id_view().index_view() as int].eq_spec(
                &value,
            )),
    {
        let i = source.id().index();
        if i >= self.values.len() {
            return false;
        }
        if self.values[i] == value {
            return false;
        }
        self.values.set(i, value);
        true
    }

    /// A clone of the value stored as `id`, read as the endpoint property
    /// `property`; `None` unless `property` is the synthetic value-source
    /// property and `id` exists.
    pub fn value_erased(&self, id: ValueSourceId, property: PropertyId) -> (r: Option<V>) where
        V: Clone,
        ensures
            match r {
                Some(v) => property.raw() == value_source_raw_id() && id.index_view()
                    < self.values_view().len() && cloned(
                    self.values_view()[id.index_view() as int],
                    v,
                ),
                None => property.raw() != value_source_raw_id() || id.index_view()
                    >= self.values_view().len(),
            },
    {
        if !is_value_source_property(property) {
            return None;
        }
        let i = id.index();
        if i < self.values.len() {
            Some(self.values[i].clone())
        } else {
            None
        }
    }

    /// Writes `value` as `id` through the endpoint property `property`;
    /// returns `false`, leaving the store as it was, unless `property` is the
    /// synthetic value-source property and `id` exists. A write that happens
    /// is reported as a change.
    pub fn set_value_erased(&mut self, id: ValueSourceId, property: PropertyId, value: V) -> (r:
        bool)
        ensures
            final(self).readers_view() == old(self).readers_view(),
            r == (property.raw() == value_source_raw_id() && id.index_view() < old(
                self,
            ).values_view().len()),
            r ==> final(self).values_view() == old(self).values_view().update(
                id.index_view() as int,
                value,
            ),
            !r ==> final(self).values_view() == old(self).values_view(),
    {
        if !is_value_source_property(property) {
            return false;
        }
        let i = id.index();
        if i >= self.values.len() {
            return false;
        }
        self.values.set(i, value);
        true
    }

    /// Reads the external source `id` through its callback, read as the
    /// endpoint property `property`; `None` unless `property` is the synthetic
    /// value-source property and `id` exists.
    pub fn external_erased(&self, id: ExternalSourceId, property: PropertyId) -> (r: Option<V>)
        requires
            forall|i: int|
                0 <= i < self.readers_view().len() ==> call_requires(
                    #[trigger] self.readers_view()[i],
                    (),
                ),
        ensures
            match r {
                Some(v) => property.raw() == value_source_raw_id() && id.index_view()
                    < self.readers_view().len() && call_ensures(
                    self.readers_view()[id.index_view() as int],
                    (),
                    v,
                ),
                None => property.raw() != value_source_raw_id() || id.index_view()
                    >= self.readers_view().len(),
            },
    {
        if !is_value_source_property(property) {
            return None;
        }
        let i = id.index();
        if i < self.external_sources.len() {
            let read = &self.external_sources[i];
            proof {
                assert(call_requires(self.readers_view()[i as int], ()));
            }
            Some(read())
        } else {
            None
        }
    }
}

impl<V, F: Fn() -> V> Default for ValueSourceStore<V, F> {
    fn default() -> (r: Self)
        ensures
            r.values_view() == Seq::<V>::empty(),
            r.readers_view() == Seq::<F>::empty(),
    {
        Self::new()
    }
}

} // verus!
