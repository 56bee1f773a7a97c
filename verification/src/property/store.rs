use vstd::prelude::*;

use core::any::TypeId;

use super::entries::{
    ascending_ids, collect_entry_ids, entries_map, entry_clear, entry_get, entry_has,
    entry_ids, entry_write, ids_ascending, lemma_ascending_len, lemma_entry_ids_ascending,
    lemma_map_domain, lemma_map_len, merge_ids,
};
use super::id::{Property, PropertyId};
use crate::dirty::channel::ChannelSet;

verus! {

#[verifier::external_type_specification]
#[verifier::external_body]
pub struct ExTypeId(core::any::TypeId);

/// `TypeId::clone`: `TypeId` is `Copy`, so its clone is the same id.
pub assume_specification[ <core::any::TypeId as Clone>::clone ](t: &core::any::TypeId) -> (r: core::any::TypeId)
    ensures
        r == *t,
;

/// Where a local property value came from; a higher precedence wins when
/// several are set.
#[derive(Copy, Clone, Debug, PartialEq, Eq, Structural, Hash)]
#[non_exhaustive]
pub enum LocalValueSource {
    /// Set by user code.
    Local,
    /// Forwarded by a template binding.
    TemplateBinding,
    /// Written by a template as a part's initial value.
    TemplateDefault,
}

impl LocalValueSource {
    /// The ordinal precedence of a source: `Local` 3, `TemplateBinding` 2,
    /// `TemplateDefault` 1.
    pub open spec fn rank(self) -> u8 {
        match self {
            LocalValueSource::Local => 3u8,
            LocalValueSource::TemplateBinding => 2u8,
            LocalValueSource::TemplateDefault => 1u8,
        }
    }

    /// The ordinal precedence of this source: `Local` 3, `TemplateBinding`
    /// 2, `TemplateDefault` 1.
    pub fn precedence(self) -> (r: u8)
        ensures
            r == self.rank(),
    {
        match self {
            LocalValueSource::Local => 3,
            LocalValueSource::TemplateBinding => 2,
            LocalValueSource::TemplateDefault => 1,
        }
    }
}

/// `TypeId`'s `==`: true exactly when both ids name the same type.
#[verifier::external_body]
fn same_type_id(a: &TypeId, b: &TypeId) -> (r: bool)
    ensures
        r == (*a == *b),
{
    a == b
}

/// A type-erased value of one type was offered where another was expected.
#[derive(Debug, Clone, Copy, PartialEq, Eq)]
pub struct ErasedTypeMismatch {
    /// The value type registered for the property.
    pub expected: TypeId,
    /// The value type actually supplied.
    pub actual: TypeId,
}

/// What a property store holds: one map per local-layer source, and the
/// animation layer above them.
pub ghost struct StoreModel<V> {
    /// Values written by user code.
    pub local: Map<PropertyId, V>,
    /// Values forwarded by template bindings.
    pub template_binding: Map<PropertyId, V>,
    /// Values installed by templates as initial values.
    pub template_default: Map<PropertyId, V>,
    /// Animation values, above the whole local layer.
    pub animation: Map<PropertyId, V>,
}

impl<V> StoreModel<V> {
    /// The model with no value anywhere.
    pub open spec fn empty() -> Self {
        StoreModel {
            local: Map::empty(),
            template_binding: Map::empty(),
            template_default: Map::empty(),
            animation: Map::empty(),
        }
    }

    /// The map of one local-layer source.
    pub open spec fn slot(self, source: LocalValueSource) -> Map<PropertyId, V> {
        match source {
            LocalValueSource::Local => self.local,
            LocalValueSource::TemplateBinding => self.template_binding,
            LocalValueSource::TemplateDefault => self.template_default,
        }
    }

    /// The model with the map of `source` replaced by `m`.
    pub open spec fn with_slot(self, source: LocalValueSource, m: Map<PropertyId, V>) -> Self {
        match source {
            LocalValueSource::Local => StoreModel {
                local: m,
                template_binding: self.template_binding,
                template_default: self.template_default,
                animation: self.animation,
            },
            LocalValueSource::TemplateBinding => StoreModel {
                local: self.local,
                template_binding: m,
                template_default: self.template_default,
                animation: self.animation,
            },
            LocalValueSource::TemplateDefault => StoreModel {
                local: self.local,
                template_binding: self.template_binding,
                template_default: m,
                animation: self.animation,
            },
        }
    }

    /// The model with the animation map replaced by `m`.
    pub open spec fn with_animation(self, m: Map<PropertyId, V>) -> Self {
        StoreModel {
            local: self.local,
            template_binding: self.template_binding,
            template_default: self.template_default,
            animation: m,
        }
    }

    /// The highest-precedence local source holding a value for `id`.
    pub open spec fn winner(self, id: PropertyId) -> Option<LocalValueSource> {
        if self.local.contains_key(id) {
            Some(LocalValueSource::Local)
        } else if self.template_binding.contains_key(id) {
            Some(LocalValueSource::TemplateBinding)
        } else if self.template_default.contains_key(id) {
            Some(LocalValueSource::TemplateDefault)
        } else {
            None
        }
    }

    /// The value of the winning local source for `id`.
    pub open spec fn winner_value(self, id: PropertyId) -> Option<V> {
        match self.winner(id) {
            Some(source) => Some(self.slot(source)[id]),
            None => None,
        }
    }

    /// The effective local value: animation first, then the local winner.
    pub open spec fn effective(self, id: PropertyId) -> Option<V> {
        if self.animation.contains_key(id) {
            Some(self.animation[id])
        } else {
            self.winner_value(id)
        }
    }

    /// Every property id with a value in some layer.
    pub open spec fn ids(self) -> Set<PropertyId> {
        self.local.dom() + self.template_binding.dom() + self.template_default.dom()
            + self.animation.dom()
    }
}

impl<V> StoreModel<V> {
    /// The local winner for `id` is the source of highest precedence that
    /// holds a value for it, and there is none exactly when no source holds
    /// one.
    pub proof fn lemma_highest_source_wins(self, id: PropertyId)
        ensures
            match self.winner(id) {
                Some(w) => self.slot(w).contains_key(id) && forall|s: LocalValueSource|
                    #[trigger] self.slot(s).contains_key(id) ==> s.rank() <= w.rank(),
                None => forall|s: LocalValueSource| !#[trigger] self.slot(s).contains_key(id),
            },
    {
        assert forall|s: LocalValueSource| #[trigger] self.slot(s).contains_key(id) implies (
        match self.winner(id) {
            Some(w) => s.rank() <= w.rank(),
            None => false,
        }) by {
            match s {
                LocalValueSource::Local => {},
                LocalValueSource::TemplateBinding => {},
                LocalValueSource::TemplateDefault => {},
            }
        }
    }

    /// A write to one source leaves every other source, and the animation
    /// layer, as they were.
    pub proof fn lemma_write_leaves_other_slots(
        self,
        source: LocalValueSource,
        id: PropertyId,
        v: V,
        other: LocalValueSource,
    )
        requires
            other != source,
        ensures
            self.with_slot(source, self.slot(source).insert(id, v)).slot(other) == self.slot(other),
            self.with_slot(source, self.slot(source).insert(id, v)).animation == self.animation,
    {
    }

    /// Writing `v` for `id` under `source` makes it the local winner exactly
    /// when no source of higher precedence holds a value for `id`; otherwise
    /// the winning value is unchanged.
    pub proof fn lemma_write_wins_unless_masked(
        self,
        source: LocalValueSource,
        id: PropertyId,
        v: V,
    )
        ensures
            ({
                let after = self.with_slot(source, self.slot(source).insert(id, v));
                let masked = exists|h: LocalValueSource|
                    #[trigger] self.slot(h).contains_key(id) && h.rank() > source.rank();
                &&& !masked ==> after.winner(id) == Some(source) && after.winner_value(id) == Some(
                    v,
                )
                &&& masked ==> after.winner(id) == self.winner(id) && after.winner_value(id)
                    == self.winner_value(id)
            }),
    {
        let masked = exists|h: LocalValueSource|
            #[trigger] self.slot(h).contains_key(id) && h.rank() > source.rank();
        if !masked {
            assert(!self.slot(LocalValueSource::Local).contains_key(id) || source
                == LocalValueSource::Local);
            assert(!self.slot(LocalValueSource::TemplateBinding).contains_key(id) || source
                != LocalValueSource::TemplateDefault);
        } else {
            let h = choose|h: LocalValueSource|
                #[trigger] self.slot(h).contains_key(id) && h.rank() > source.rank();
            assert(self.slot(h).contains_key(id));
        }
    }

    /// Clearing `source` for `id` hands the local win to the next source that
    /// still holds a value: the winner afterwards is the highest-precedence
    /// source other than `source` that holds one. Clearing a source that was
    /// not winning changes nothing of the local resolution.
    pub proof fn lemma_clear_reveals_next(self, source: LocalValueSource, id: PropertyId)
        ensures
            ({
                let after = self.with_slot(source, self.slot(source).remove(id));
                &&& match after.winner(id) {
                    Some(w) => w != source && self.slot(w).contains_key(id) && forall|
                        s: LocalValueSource,
                    | s != source && #[trigger] self.slot(s).contains_key(id) ==> s.rank()
                        <= w.rank(),
                    None => forall|s: LocalValueSource|
                        s != source ==> !#[trigger] self.slot(s).contains_key(id),
                }
                &&& after.winner(id) is Some ==> after.winner_value(id) == Some(
                    self.slot(after.winner(id)->0)[id],
                )
                &&& self.winner(id) != Some(source) ==> after.winner(id) == self.winner(id)
                    && after.winner_value(id) == self.winner_value(id)
            }),
    {
        let after = self.with_slot(source, self.slot(source).remove(id));
        after.lemma_highest_source_wins(id);
        assert forall|s: LocalValueSource| s != source implies #[trigger] after.slot(s)
            == self.slot(s) by {
            match s {
                LocalValueSource::Local => {},
                LocalValueSource::TemplateBinding => {},
                LocalValueSource::TemplateDefault => {},
            }
        }
        assert(!after.slot(source).contains_key(id));
    }

    /// An animation value overrides the local layer; removing it again gives
    /// back the local winner's value.
    pub proof fn lemma_animation_overrides_local(self, id: PropertyId, v: V)
        ensures
            self.with_animation(self.animation.insert(id, v)).effective(id) == Some(v),
            self.with_animation(self.animation.remove(id)).effective(id) == self.winner_value(id),
    {
    }

    /// Writing a value under a source that held none for `id`, then clearing
    /// it, gives back the model as it was.
    pub proof fn lemma_write_clear_roundtrip(self, source: LocalValueSource, id: PropertyId, v: V)
        requires
            !self.slot(source).contains_key(id),
        ensures
            ({
                let written = self.with_slot(source, self.slot(source).insert(id, v));
                written.with_slot(source, written.slot(source).remove(id)) == self
            }),
    {
        let written = self.with_slot(source, self.slot(source).insert(id, v));
        assert(written.slot(source).remove(id) =~= self.slot(source));
        match source {
            LocalValueSource::Local => {},
            LocalValueSource::TemplateBinding => {},
            LocalValueSource::TemplateDefault => {},
        }
    }
}

/// Per-object sparse storage of property values: three local-layer sources
/// and an animation layer, each a slot sorted by property id.
///
/// Values are held as `V`, typically a type-erased value; the handles'
/// value types are not checked here.
#[derive(Clone, Debug)]
pub struct PropertyStore<K, V> {
    local_entries: Vec<(PropertyId, V)>,
    template_binding_entries: Vec<(PropertyId, V)>,
    template_default_entries: Vec<(PropertyId, V)>,
    animation_entries: Vec<(PropertyId, V)>,
    owner: K,
}

impl<K, V> View for PropertyStore<K, V> {
    type V = StoreModel<V>;

    closed spec fn view(&self) -> StoreModel<V> {
        StoreModel {
            local: entries_map(self.local_entries@),
            template_binding: entries_map(self.template_binding_entries@),
            template_default: entries_map(self.template_default_entries@),
            animation: entries_map(self.animation_entries@),
        }
    }
}

impl<K: Copy, V> PropertyStore<K, V> {
    /// Every slot is sorted by strictly increasing property id.
    pub closed spec fn wf(self) -> bool {
        &&& ids_ascending(self.local_entries@)
        &&& ids_ascending(self.template_binding_entries@)
        &&& ids_ascending(self.template_default_entries@)
        &&& ids_ascending(self.animation_entries@)
    }

    /// The owner key the store was made for.
    pub closed spec fn owner_view(self) -> K {
        self.owner
    }

    spec fn slot_entries(self, source: LocalValueSource) -> Seq<(PropertyId, V)> {
        match source {
            LocalValueSource::Local => self.local_entries@,
            LocalValueSource::TemplateBinding => self.template_binding_entries@,
            LocalValueSource::TemplateDefault => self.template_default_entries@,
        }
    }

    /// An empty store for `owner`.
    pub fn new(owner: K) -> (r: Self)
        ensures
            r.wf(),
            r@ == StoreModel::<V>::empty(),
            r.owner_view() == owner,
    {
        let r = PropertyStore {
            local_entries: Vec::new(),
            template_binding_entries: Vec::new(),
            template_default_entries: Vec::new(),
            animation_entries: Vec::new(),
            owner,
        };
        proof {
            assert(r@.local =~= Map::empty());
            assert(r@.template_binding =~= Map::empty());
            assert(r@.template_default =~= Map::empty());
            assert(r@.animation =~= Map::empty());
        }
        r
    }

    /// The owner key.
    pub fn owner(&self) -> (r: K)
        ensures
            r == self.owner_view(),
    {
        self.owner
    }

    /// Whether no layer holds any value.
    pub fn is_empty(&self) -> (r: bool)
        requires
            self.wf(),
        ensures
            r == (self@.ids() =~= Set::<PropertyId>::empty()),
    {
        proof {
            lemma_map_len(self.local_entries@);
            lemma_map_len(self.template_binding_entries@);
            lemma_map_len(self.template_default_entries@);
            lemma_map_len(self.animation_entries@);
            if self.local_entries.len() > 0 {
                crate::property::entries::lemma_map_at(self.local_entries@, 0);
                assert(self@.ids().contains(self.local_entries@[0].0));
            }
            if self.template_binding_entries.len() > 0 {
                crate::property::entries::lemma_map_at(self.template_binding_entries@, 0);
                assert(self@.ids().contains(self.template_binding_entries@[0].0));
            }
            if self.template_default_entries.len() > 0 {
                crate::property::entries::lemma_map_at(self.template_default_entries@, 0);
                assert(self@.ids().contains(self.template_default_entries@[0].0));
            }
            if self.animation_entries.len() > 0 {
                crate::property::entries::lemma_map_at(self.animation_entries@, 0);
                assert(self@.ids().contains(self.animation_entries@[0].0));
            }
        }
        self.local_entries.len() == 0 && self.template_binding_entries.len() == 0
            && self.template_default_entries.len() == 0 && self.animation_entries.len() == 0
    }

    /// The ids with a value in any layer, each once, in ascending order.
    pub fn property_ids(&self) -> (r: Vec<PropertyId>)
        requires
            self.wf(),
        ensures
            ascending_ids(r@),
            forall|id: PropertyId| r@.contains(id) <==> self@.ids().contains(id),
    {
        let a = collect_entry_ids(&self.local_entries);
        let b = collect_entry_ids(&self.template_binding_entries);
        let c = collect_entry_ids(&self.template_default_entries);
        let d = collect_entry_ids(&self.animation_entries);
        proof {
            lemma_entry_ids_ascending(self.local_entries@);
            lemma_entry_ids_ascending(self.template_binding_entries@);
            lemma_entry_ids_ascending(self.template_default_entries@);
            lemma_entry_ids_ascending(self.animation_entries@);
            lemma_map_domain(self.local_entries@);
            lemma_map_domain(self.template_binding_entries@);
            lemma_map_domain(self.template_default_entries@);
            lemma_map_domain(self.animation_entries@);
        }
        let ab = merge_ids(&a, &b);
        let abc = merge_ids(&ab, &c);
        let r = merge_ids(&abc, &d);
        proof {
            assert forall|id: PropertyId| r@.contains(id) <==> self@.ids().contains(id) by {
                assert(a@.contains(id) <==> a@.to_set().contains(id));
                assert(b@.contains(id) <==> b@.to_set().contains(id));
                assert(c@.contains(id) <==> c@.to_set().contains(id));
                assert(d@.contains(id) <==> d@.to_set().contains(id));
            }
        }
        r
    }

    /// The number of distinct ids with a value in any layer.
    pub fn len(&self) -> (r: usize)
        requires
            self.wf(),
        ensures
            r == self@.ids().len(),
    {
        let ids = self.property_ids();
        proof {
            lemma_ascending_len(ids@);
            assert(ids@.to_set() =~= self@.ids());
        }
        ids.len()
    }

    fn slot_vec(&self, source: LocalValueSource) -> (r: &Vec<(PropertyId, V)>)
        ensures
            r@ == self.slot_entries(source),
    {
        match source {
            LocalValueSource::Local => &self.local_entries,
            LocalValueSource::TemplateBinding => &self.template_binding_entries,
            LocalValueSource::TemplateDefault => &self.template_default_entries,
        }
    }

    /// The value of the winning local source for `property`.
    pub fn get_local<T>(&self, property: Property<T>) -> (r: Option<&V>)
        requires
            self.wf(),
        ensures
            match r {
                Some(v) => self@.winner_value(property.id_view()) == Some(*v),
                None => self@.winner_value(property.id_view()) is None,
            },
    {
        match self.local_layer_lookup(property.id()) {
            Some((_, v)) => Some(v),
            None => None,
        }
    }

    /// The local source currently winning for `property`.
    pub fn get_local_source<T>(&self, property: Property<T>) -> (r: Option<LocalValueSource>)
        requires
            self.wf(),
        ensures
            r == self@.winner(property.id_view()),
    {
        self.winning_local_source_for_id(property.id())
    }

    /// The value held by `source` for `property`, if any.
    pub fn get_local_at_source<T>(&self, property: Property<T>, source: LocalValueSource) -> (r:
        Option<&V>)
        requires
            self.wf(),
        ensures
            match r {
                Some(v) => self@.slot(source).contains_key(property.id_view())
                    && self@.slot(source)[property.id_view()] == *v,
                None => !self@.slot(source).contains_key(property.id_view()),
            },
    {
        self.slot_get(property.id(), source)
    }

    /// The value of the winning local source for `id` (animation not consulted).
    pub fn local_winner_erased(&self, id: PropertyId) -> (r: Option<&V>)
        requires
            self.wf(),
        ensures
            match r {
                Some(v) => self@.winner_value(id) == Some(*v),
                None => self@.winner_value(id) is None,
            },
    {
        match self.local_layer_lookup(id) {
            Some((_, v)) => Some(v),
            None => None,
        }
    }

    /// The animation value for `id`, if any.
    pub fn animation_erased(&self, id: PropertyId) -> (r: Option<&V>)
        requires
            self.wf(),
        ensures
            match r {
                Some(v) => self@.animation.contains_key(id) && self@.animation[id] == *v,
                None => !self@.animation.contains_key(id),
            },
    {
        entry_get(&self.animation_entries, id)
    }

    /// The effective local value for `id`: animation, else the local winner.
    pub fn effective_local_erased(&self, id: PropertyId) -> (r: Option<&V>)
        requires
            self.wf(),
        ensures
            match r {
                Some(v) => self@.effective(id) == Some(*v),
                None => self@.effective(id) is None,
            },
    {
        match self.animation_erased(id) {
            Some(v) => Some(v),
            None => self.local_winner_erased(id),
        }
    }

    /// The value held by `source` for `id`, if any.
    pub fn local_erased_at_source(&self, id: PropertyId, source: LocalValueSource) -> (r: Option<
        &V,
    >)
        requires
            self.wf(),
        ensures
            match r {
                Some(v) => self@.slot(source).contains_key(id) && self@.slot(source)[id] == *v,
                None => !self@.slot(source).contains_key(id),
            },
    {
        self.slot_get(id, source)
    }

    /// Whether some local source holds a value for `property`.
    pub fn has_local<T>(&self, property: Property<T>) -> (r: bool)
        requires
            self.wf(),
        ensures
            r == self@.winner(property.id_view()) is Some,
    {
        self.local_layer_lookup(property.id()).is_some()
    }

    /// Whether `source` holds a value for `property`.
    pub fn has_local_at_source<T>(&self, property: Property<T>, source: LocalValueSource) -> (r:
        bool)
        requires
            self.wf(),
        ensures
            r == self@.slot(source).contains_key(property.id_view()),
    {
        entry_has(self.slot_vec(source), property.id())
    }

    /// Stores `value` in the `Local` slot for `property` and returns the stored
    /// value.
    pub fn set_local<T>(&mut self, property: Property<T>, value: V) -> (r: &V)
        requires
            old(self).wf(),
        ensures
            final(self).wf(),
            final(self).owner_view() == old(self).owner_view(),
            final(self)@ == old(self)@.with_slot(
                LocalValueSource::Local,
                old(self)@.local.insert(property.id_view(), value),
            ),
            *r == value,
    {
        let id = property.id();
        self.slot_write(id, LocalValueSource::Local, value);
        entry_get(&self.local_entries, id).unwrap()
    }

    /// Stores `value` in the slot of `source` for `property`; the other slots
    /// are untouched.
    pub fn set_local_with_source<T>(
        &mut self,
        property: Property<T>,
        value: V,
        source: LocalValueSource,
    )
        requires
            old(self).wf(),
        ensures
            final(self).wf(),
            final(self).owner_view() == old(self).owner_view(),
            final(self)@ == old(self)@.with_slot(
                source,
                old(self)@.slot(source).insert(property.id_view(), value),
            ),
    {
        self.slot_write(property.id(), source, value);
    }

    /// Stores `value` in the slot of `source` for `id`; the other slots are
    /// untouched.
    pub fn set_local_erased_with_source(&mut self, id: PropertyId, value: V, source: LocalValueSource)
        requires
            old(self).wf(),
        ensures
            final(self).wf(),
            final(self).owner_view() == old(self).owner_view(),
            final(self)@ == old(self)@.with_slot(source, old(self)@.slot(source).insert(id, value)),
    {
        self.slot_write(id, source, value);
    }

    /// Stores `value` for `id` under `source` when its type id `actual` is the
    /// one registered for the property, `expected`; otherwise leaves the store
    /// unchanged and reports both.
    pub fn set_local_erased_with_source_checked(
        &mut self,
        id: PropertyId,
        value: V,
        actual: TypeId,
        source: LocalValueSource,
        expected: TypeId,
    ) -> (r: Result<(), ErasedTypeMismatch>)
        requires
            old(self).wf(),
        ensures
            final(self).wf(),
            final(self).owner_view() == old(self).owner_view(),
            r is Ok <==> actual == expected,
            r is Ok ==> final(self)@ == old(self)@.with_slot(
                source,
                old(self)@.slot(source).insert(id, value),
            ),
            r matches Err(e) ==> e.expected == expected && e.actual == actual && final(self)@
                == old(self)@,
    {
        if !same_type_id(&actual, &expected) {
            return Err(ErasedTypeMismatch { expected, actual });
        }
        self.set_local_erased_with_source(id, value, source);
        Ok(())
    }

    /// As [`Self::set_local_erased_with_source_checked`]; on success returns
    /// `affects`, the channels the property is registered to affect.
    pub fn set_local_erased_with_source_notifying(
        &mut self,
        id: PropertyId,
        value: V,
        actual: TypeId,
        source: LocalValueSource,
        expected: TypeId,
        affects: ChannelSet,
    ) -> (r: Result<ChannelSet, ErasedTypeMismatch>)
        requires
            old(self).wf(),
        ensures
            final(self).wf(),
            final(self).owner_view() == old(self).owner_view(),
            r is Ok <==> actual == expected,
            r matches Ok(c) ==> c == affects && final(self)@ == old(self)@.with_slot(
                source,
                old(self)@.slot(source).insert(id, value),
            ),
            r matches Err(e) ==> e.expected == expected && e.actual == actual && final(self)@
                == old(self)@,
    {
        match self.set_local_erased_with_source_checked(id, value, actual, source, expected) {
            Ok(()) => Ok(affects),
            Err(e) => Err(e),
        }
    }

    /// Removes the `Local` value of `property`; returns whether there was one.
    pub fn clear_local<T>(&mut self, property: Property<T>) -> (r: bool)
        requires
            old(self).wf(),
        ensures
            final(self).wf(),
            final(self).owner_view() == old(self).owner_view(),
            r == old(self)@.local.contains_key(property.id_view()),
            final(self)@ == old(self)@.with_slot(
                LocalValueSource::Local,
                old(self)@.local.remove(property.id_view()),
            ),
    {
        self.slot_clear_id(property.id(), LocalValueSource::Local)
    }

    /// Removes the `Local` value of `id`; returns whether there was one.
    pub fn clear_local_erased(&mut self, id: PropertyId) -> (r: bool)
        requires
            old(self).wf(),
        ensures
            final(self).wf(),
            final(self).owner_view() == old(self).owner_view(),
            r == old(self)@.local.contains_key(id),
            final(self)@ == old(self)@.with_slot(
                LocalValueSource::Local,
                old(self)@.local.remove(id),
            ),
    {
        self.slot_clear_id(id, LocalValueSource::Local)
    }

    /// Removes the value of `source` for `property`; returns whether there was
    /// one.
    pub fn clear_local_at_source<T>(&mut self, property: Property<T>, source: LocalValueSource) -> (r:
        bool)
        requires
            old(self).wf(),
        ensures
            final(self).wf(),
            final(self).owner_view() == old(self).owner_view(),
            r == old(self)@.slot(source).contains_key(property.id_view()),
            final(self)@ == old(self)@.with_slot(
                source,
                old(self)@.slot(source).remove(property.id_view()),
            ),
    {
        self.slot_clear_id(property.id(), source)
    }

    /// Removes the value of `source` for `id`; returns whether there was one.
    pub fn clear_local_erased_at_source(&mut self, id: PropertyId, source: LocalValueSource) -> (r:
        bool)
        requires
            old(self).wf(),
        ensures
            final(self).wf(),
            final(self).owner_view() == old(self).owner_view(),
            r == old(self)@.slot(source).contains_key(id),
            final(self)@ == old(self)@.with_slot(source, old(self)@.slot(source).remove(id)),
    {
        self.slot_clear_id(id, source)
    }

    /// Removes the `Local` value of `id` and returns `affects` (the channels
    /// the property is registered to affect) when that removal may change the
    /// effective value, else no channel.
    pub fn clear_local_erased_notifying(&mut self, id: PropertyId, affects: ChannelSet) -> (r:
        ChannelSet)
        requires
            old(self).wf(),
        ensures
            final(self).wf(),
            final(self).owner_view() == old(self).owner_view(),
            final(self)@ == old(self)@.with_slot(
                LocalValueSource::Local,
                old(self)@.local.remove(id),
            ),
            r@ == (if old(self)@.local.contains_key(id) && !old(self)@.animation.contains_key(id)
                && old(self)@.winner(id) == Some(LocalValueSource::Local) {
                affects@
            } else {
                Set::<nat>::empty()
            }),
    {
        self.clear_local_erased_at_source_notifying(id, LocalValueSource::Local, affects)
    }

    /// Removes the value of `source` for `id` and returns `affects` (the
    /// channels the property is registered to affect) when `source` was the
    /// local winner and no animation masked it, else no channel.
    pub fn clear_local_erased_at_source_notifying(
        &mut self,
        id: PropertyId,
        source: LocalValueSource,
        affects: ChannelSet,
    ) -> (r: ChannelSet)
        requires
            old(self).wf(),
        ensures
            final(self).wf(),
            final(self).owner_view() == old(self).owner_view(),
            final(self)@ == old(self)@.with_slot(source, old(self)@.slot(source).remove(id)),
            r@ == (if old(self)@.slot(source).contains_key(id) && !old(self)@.animation.contains_key(
                id,
            ) && old(self)@.winner(id) == Some(source) {
                affects@
            } else {
                Set::<nat>::empty()
            }),
    {
        if self.slot_get(id, source).is_none() {
            proof {
                assert(self@.slot(source).remove(id) =~= self@.slot(source));
                assert(self@.with_slot(source, self@.slot(source)) == self@);
            }
            return ChannelSet::empty();
        }
        let winner = self.winning_local_source_for_id(id);
        let wins = match winner {
            Some(w) => w == source,
            None => false,
        };
        let may_affect = !self.animation_entries_has(id) && wins;
        self.slot_clear_id(id, source);
        if may_affect {
            affects
        } else {
            ChannelSet::empty()
        }
    }

    /// Removes every value held by `source`; returns how many there were.
    pub fn clear_local_by_source(&mut self, source: LocalValueSource) -> (r: usize)
        requires
            old(self).wf(),
        ensures
            final(self).wf(),
            final(self).owner_view() == old(self).owner_view(),
            r == old(self)@.slot(source).dom().len(),
            final(self)@ == old(self)@.with_slot(source, Map::empty()),
    {
        proof {
            lemma_map_len(self.slot_entries(source));
        }
        let n: usize;
        match source {
            LocalValueSource::Local => {
                n = self.local_entries.len();
                self.local_entries.clear();
            },
            LocalValueSource::TemplateBinding => {
                n = self.template_binding_entries.len();
                self.template_binding_entries.clear();
            },
            LocalValueSource::TemplateDefault => {
                n = self.template_default_entries.len();
                self.template_default_entries.clear();
            },
        }
        proof {
            assert(self@.slot(source) =~= Map::empty());
        }
        n
    }

    /// The ids held by `source`, in ascending order.
    pub fn local_property_ids_at_source(&self, source: LocalValueSource) -> (r: Vec<PropertyId>)
        requires
            self.wf(),
        ensures
            ascending_ids(r@),
            forall|id: PropertyId| r@.contains(id) <==> self@.slot(source).contains_key(id),
    {
        let r = collect_entry_ids(self.slot_vec(source));
        proof {
            lemma_entry_ids_ascending(self.slot_entries(source));
            lemma_map_domain(self.slot_entries(source));
            assert forall|id: PropertyId| r@.contains(id) <==> self@.slot(source).contains_key(
                id,
            ) by {
                assert(r@.contains(id) <==> r@.to_set().contains(id));
            }
        }
        r
    }

    /// The local source currently winning for `id`.
    pub fn winning_local_source_for_id(&self, id: PropertyId) -> (r: Option<LocalValueSource>)
        requires
            self.wf(),
        ensures
            r == self@.winner(id),
    {
        match self.local_layer_lookup(id) {
            Some((source, _)) => Some(source),
            None => None,
        }
    }

    /// Whether the animation layer holds a value for `id`.
    pub fn animation_entries_has(&self, id: PropertyId) -> (r: bool)
        requires
            self.wf(),
        ensures
            r == self@.animation.contains_key(id),
    {
        entry_has(&self.animation_entries, id)
    }

    /// The animation value of `property`, if any.
    pub fn get_animation<T>(&self, property: Property<T>) -> (r: Option<&V>)
        requires
            self.wf(),
        ensures
            match r {
                Some(v) => self@.animation.contains_key(property.id_view())
                    && self@.animation[property.id_view()] == *v,
                None => !self@.animation.contains_key(property.id_view()),
            },
    {
        entry_get(&self.animation_entries, property.id())
    }

    /// Stores the animation value of `property` and returns the stored value.
    pub fn set_animation<T>(&mut self, property: Property<T>, value: V) -> (r: &V)
        requires
            old(self).wf(),
        ensures
            final(self).wf(),
            final(self).owner_view() == old(self).owner_view(),
            final(self)@ == old(self)@.with_animation(
                old(self)@.animation.insert(property.id_view(), value),
            ),
            *r == value,
    {
        let id = property.id();
        entry_write(&mut self.animation_entries, id, value);
        entry_get(&self.animation_entries, id).unwrap()
    }

    /// Removes the animation value of `property`; returns whether there was
    /// one.
    pub fn clear_animation<T>(&mut self, property: Property<T>) -> (r: bool)
        requires
            old(self).wf(),
        ensures
            final(self).wf(),
            final(self).owner_view() == old(self).owner_view(),
            r == old(self)@.animation.contains_key(property.id_view()),
            final(self)@ == old(self)@.with_animation(
                old(self)@.animation.remove(property.id_view()),
            ),
    {
        entry_clear(&mut self.animation_entries, property.id())
    }

    /// Whether the animation layer holds a value for `property`.
    pub fn has_animation<T>(&self, property: Property<T>) -> (r: bool)
        requires
            self.wf(),
        ensures
            r == self@.animation.contains_key(property.id_view()),
    {
        entry_has(&self.animation_entries, property.id())
    }

    /// The effective value of `property`: animation, else the local winner,
    /// else `default` (the property's registered default).
    pub fn get_effective_local_ref<'a, T>(&'a self, property: Property<T>, default: &'a V) -> (r:
        &'a V)
        requires
            self.wf(),
        ensures
            *r == match self@.effective(property.id_view()) {
                Some(v) => v,
                None => *default,
            },
    {
        match self.effective_local_erased(property.id()) {
            Some(v) => v,
            None => default,
        }
    }

    /// A clone of the effective value of `property`: animation, else the
    /// local winner, else `default` (the property's registered default).
    pub fn get_effective_local<T>(&self, property: Property<T>, default: &V) -> (r: V) where
        V: Clone,
        requires
            self.wf(),
        ensures
            cloned(
                match self@.effective(property.id_view()) {
                    Some(v) => v,
                    None => *default,
                },
                r,
            ),
    {
        self.get_effective_local_ref(property, default).clone()
    }

    /// Whether some local source or the animation layer holds a value for
    /// `property`.
    pub fn has_value<T>(&self, property: Property<T>) -> (r: bool)
        requires
            self.wf(),
        ensures
            r == (self@.winner(property.id_view()) is Some || self@.animation.contains_key(
                property.id_view(),
            )),
    {
        self.has_local(property) || self.has_animation(property)
    }

    /// Removes every value of `property` from every layer; returns whether
    /// there was any.
    pub fn clear_all<T>(&mut self, property: Property<T>) -> (r: bool)
        requires
            old(self).wf(),
        ensures
            final(self).wf(),
            final(self).owner_view() == old(self).owner_view(),
            r == old(self)@.ids().contains(property.id_view()),
            final(self)@ == (StoreModel {
                local: old(self)@.local.remove(property.id_view()),
                template_binding: old(self)@.template_binding.remove(property.id_view()),
                template_default: old(self)@.template_default.remove(property.id_view()),
                animation: old(self)@.animation.remove(property.id_view()),
            }),
    {
        let id = property.id();
        let a = entry_clear(&mut self.local_entries, id);
        let b = entry_clear(&mut self.template_binding_entries, id);
        let c = entry_clear(&mut self.template_default_entries, id);
        let d = entry_clear(&mut self.animation_entries, id);
        a || b || c || d
    }

    /// Removes every animation value; returns how many there were.
    pub fn clear_all_animations(&mut self) -> (r: usize)
        requires
            old(self).wf(),
        ensures
            final(self).wf(),
            final(self).owner_view() == old(self).owner_view(),
            r == old(self)@.animation.dom().len(),
            final(self)@ == old(self)@.with_animation(Map::empty()),
    {
        proof {
            lemma_map_len(self.animation_entries@);
        }
        let n = self.animation_entries.len();
        self.animation_entries.clear();
        proof {
            assert(self@.animation =~= Map::empty());
        }
        n
    }

    /// The highest local source holding `id`, with its value.
    fn local_layer_lookup(&self, id: PropertyId) -> (r: Option<(LocalValueSource, &V)>)
        requires
            self.wf(),
        ensures
            match r {
                Some((source, v)) => self@.winner(id) == Some(source) && self@.slot(source)[id]
                    == *v,
                None => self@.winner(id) is None,
            },
    {
        if let Some(v) = entry_get(&self.local_entries, id) {
            return Some((LocalValueSource::Local, v));
        }
        if let Some(v) = entry_get(&self.template_binding_entries, id) {
            return Some((LocalValueSource::TemplateBinding, v));
        }
        if let Some(v) = entry_get(&self.template_default_entries, id) {
            return Some((LocalValueSource::TemplateDefault, v));
        }
        None
    }

    /// The value held by `source` for `id`, if any.
    fn slot_get(&self, id: PropertyId, source: LocalValueSource) -> (r: Option<&V>)
        requires
            self.wf(),
        ensures
            match r {
                Some(v) => self@.slot(source).contains_key(id) && self@.slot(source)[id] == *v,
                None => !self@.slot(source).contains_key(id),
            },
    {
        entry_get(self.slot_vec(source), id)
    }

    fn slot_write(&mut self, id: PropertyId, source: LocalValueSource, value: V)
        requires
            old(self).wf(),
        ensures
            final(self).wf(),
            final(self).owner_view() == old(self).owner_view(),
            final(self)@ == old(self)@.with_slot(
                source,
                old(self)@.slot(source).insert(id, value),
            ),
    {
        match source {
            LocalValueSource::Local => entry_write(&mut self.local_entries, id, value),
            LocalValueSource::TemplateBinding => entry_write(
                &mut self.template_binding_entries,
                id,
                value,
            ),
            LocalValueSource::TemplateDefault => entry_write(
                &mut self.template_default_entries,
                id,
                value,
            ),
        }
    }

    fn slot_clear_id(&mut self, id: PropertyId, source: LocalValueSource) -> (r: bool)
        requires
            old(self).wf(),
        ensures
            final(self).wf(),
            final(self).owner_view() == old(self).owner_view(),
            r == old(self)@.slot(source).contains_key(id),
            final(self)@ == old(self)@.with_slot(source, old(self)@.slot(source).remove(id)),
    {
        match source {
            LocalValueSource::Local => entry_clear(&mut self.local_entries, id),
            LocalValueSource::TemplateBinding => entry_clear(
                &mut self.template_binding_entries,
                id,
            ),
            LocalValueSource::TemplateDefault => entry_clear(
                &mut self.template_default_entries,
                id,
            ),
        }
    }
}

} // verus!
