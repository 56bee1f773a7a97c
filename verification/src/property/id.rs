use vstd::prelude::*;

use std::marker::PhantomData;

verus! {

/// Identifier of a registered property.
#[derive(Copy, Clone, Debug, PartialEq, Eq, Structural, PartialOrd, Ord, Hash)]
pub struct PropertyId(u16);

impl PropertyId {
    /// The raw id.
    pub closed spec fn raw(self) -> u16 {
        self.0
    }

    /// Two ids with the same raw value are the same id.
    pub proof fn lemma_raw_injective(a: Self, b: Self)
        requires
            a.raw() == b.raw(),
        ensures
            a == b,
    {
    }

    /// The property id with the given raw value.
    pub fn new(raw: u16) -> (r: Self)
        ensures
            r.raw() == raw,
    {
        PropertyId(raw)
    }

    /// The raw id.
    pub fn get(self) -> (r: u16)
        ensures
            r == self.raw(),
    {
        self.0
    }
}

/// A typed handle to a registered property with values of type `T`.
pub struct Property<T> {
    id: PropertyId,
    marker: PhantomData<T>,
}

impl<T> Property<T> {
    /// The property's id.
    pub closed spec fn id_view(self) -> PropertyId {
        self.id
    }

    /// The typed handle of the property with id `id`.
    pub fn from_id(id: PropertyId) -> (r: Self)
        ensures
            r.id_view() == id,
    {
        Property { id, marker: PhantomData }
    }

    /// The property's id.
    pub fn id(self) -> (r: PropertyId)
        ensures
            r == self.id_view(),
    {
        self.id
    }
}

impl<T> Clone for Property<T> {
    fn clone(&self) -> (r: Self)
        ensures
            r == *self,
    {
        Property { id: self.id, marker: PhantomData }
    }
}

impl<T> Copy for Property<T> {
}

} // verus!
