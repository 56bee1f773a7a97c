use vstd::prelude::*;

use crate::dirty::Key;
use crate::property::{Property, PropertyId};

verus! {

/// Identifier of a binding.
#[derive(Copy, Clone, Debug, PartialEq, Eq, Structural, PartialOrd, Ord, Hash)]
pub struct BindingId(u32);

impl BindingId {
    /// The raw id.
    pub closed spec fn raw(self) -> u32 {
        self.0
    }

    /// The binding id with the given raw value.
    pub fn new(raw: u32) -> (r: Self)
        ensures
            r.raw() == raw,
    {
        BindingId(raw)
    }

    /// The raw id.
    pub fn get(self) -> (r: u32)
        ensures
            r == self.raw(),
    {
        self.0
    }

    /// The id as a slot index.
    pub(crate) fn index(self) -> (r: Option<usize>)
        ensures
            r == Some(self.raw() as usize),
    {
        Some(self.0 as usize)
    }
}

/// An untyped endpoint: a property of an owner.
#[derive(Copy, Clone, Debug, PartialEq, Eq, PartialOrd, Ord, Hash)]
pub struct EndpointKey<K> {
    owner: K,
    property: PropertyId,
}

impl<K> EndpointKey<K> {
    /// The owner.
    pub closed spec fn owner_view(self) -> K {
        self.owner
    }

    /// The property.
    pub closed spec fn property_view(self) -> PropertyId {
        self.property
    }

    /// Two endpoints are the same exactly when their owners and properties
    /// are.
    pub proof fn lemma_fields_eq(a: Self, b: Self)
        ensures
            (a == b) <==> (a.owner_view() == b.owner_view() && a.property_view()
                == b.property_view()),
    {
    }

    /// The endpoint `property` of `owner`.
    pub fn new(owner: K, property: PropertyId) -> (r: Self)
        ensures
            r.owner_view() == owner,
            r.property_view() == property,
    {
        EndpointKey { owner, property }
    }

    /// The property.
    pub fn property(&self) -> (r: PropertyId)
        ensures
            r == self.property_view(),
    {
        self.property
    }
}

impl<K: Copy> EndpointKey<K> {
    /// The owner.
    pub fn owner(self) -> (r: K)
        ensures
            r == self.owner_view(),
    {
        self.owner
    }
}

impl<K: Key> Key for EndpointKey<K> {
    fn key_eq(&self, other: &Self) -> (r: bool) {
        let same_owner = self.owner.key_eq(&other.owner);
        let same_property = self.property.get() == other.property.get();
        proof {
            if same_property {
                PropertyId::lemma_raw_injective(self.property, other.property);
            }
        }
        same_owner && same_property
    }
}

/// A typed endpoint: a property with values of type `T` of an owner.
pub struct PropertyEndpoint<K, T> {
    owner: K,
    property: Property<T>,
}

impl<K, T> PropertyEndpoint<K, T> {
    /// The owner.
    pub closed spec fn owner_view(self) -> K {
        self.owner
    }

    /// The property.
    pub closed spec fn property_view(self) -> Property<T> {
        self.property
    }

    /// The endpoint `property` of `owner`.
    pub fn new(owner: K, property: Property<T>) -> (r: Self)
        ensures
            r.owner_view() == owner,
            r.property_view() == property,
    {
        PropertyEndpoint { owner, property }
    }

    /// The property.
    pub fn property(&self) -> (r: Property<T>)
        ensures
            r == self.property_view(),
    {
        self.property
    }
}

impl<K: Copy, T> PropertyEndpoint<K, T> {
    /// The owner.
    pub fn owner(self) -> (r: K)
        ensures
            r == self.owner_view(),
    {
        self.owner
    }

    /// The untyped endpoint of the same owner and property.
    pub closed spec fn key_view(self) -> EndpointKey<K> {
        EndpointKey { owner: self.owner, property: self.property.id_view() }
    }

    /// The untyped endpoint has this endpoint's owner and property id.
    pub proof fn lemma_key_view(self)
        ensures
            self.key_view().owner_view() == self.owner_view(),
            self.key_view().property_view() == self.property_view().id_view(),
    {
    }

    /// The untyped endpoint of the same owner and property.
    pub fn key(self) -> (r: EndpointKey<K>)
        ensures
            r == self.key_view(),
            r.owner_view() == self.owner_view(),
            r.property_view() == self.property_view().id_view(),
    {
        EndpointKey::new(self.owner, self.property.id())
    }
}

impl<K: Copy, T> Clone for PropertyEndpoint<K, T> {
    fn clone(&self) -> (r: Self)
        ensures
            r == *self,
    {
        PropertyEndpoint { owner: self.owner, property: self.property }
    }
}

impl<K: Copy, T> Copy for PropertyEndpoint<K, T> {
}

} // verus!
