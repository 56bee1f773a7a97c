use vstd::prelude::*;

use super::ids::ArenaId;

verus! {

/// One arena slot: its current generation, its value if live, and the next
/// free slot if it is on the free list.
#[derive(Clone, Debug)]
struct Slot<T> {
    generation: u32,
    value: Option<T>,
    next_free: Option<u32>,
}

/// The key of `id` in an arena view: its slot and generation.
pub open spec fn key<I: ArenaId>(id: I) -> (u32, u32) {
    (id.slot(), id.generation_view())
}

/// An arena view re-keyed by id.
pub open spec fn by_id<I: ArenaId, T>(m: Map<(u32, u32), T>) -> Map<I, T> {
    Map::new(|i: I| m.contains_key(key(i)), |i: I| m[key(i)])
}

/// Inserting under an id's key inserts under the id.
pub proof fn lemma_by_id_insert<I: ArenaId, T>(m: Map<(u32, u32), T>, id: I, v: T)
    ensures
        by_id::<I, T>(m.insert(key(id), v)) == by_id::<I, T>(m).insert(id, v),
{
    assert forall|i: I| #[trigger] by_id::<I, T>(m.insert(key(id), v)).contains_key(i)
        == by_id::<I, T>(m).insert(id, v).contains_key(i) by {
        if key(i) == key(id) {
            I::lemma_parts_injective(i, id);
        }
    }
    assert forall|i: I| #[trigger] by_id::<I, T>(m.insert(key(id), v)).contains_key(i)
        implies by_id::<I, T>(m.insert(key(id), v))[i] == by_id::<I, T>(m).insert(id, v)[i] by {
        if key(i) == key(id) {
            I::lemma_parts_injective(i, id);
        }
    }
    assert(by_id::<I, T>(m.insert(key(id), v)) =~= by_id::<I, T>(m).insert(id, v));
}

/// Removing an id's key removes the id.
pub proof fn lemma_by_id_remove<I: ArenaId, T>(m: Map<(u32, u32), T>, id: I)
    ensures
        by_id::<I, T>(m.remove(key(id))) == by_id::<I, T>(m).remove(id),
{
    assert forall|i: I| #[trigger] by_id::<I, T>(m.remove(key(id))).contains_key(i)
        == by_id::<I, T>(m).remove(id).contains_key(i) by {
        if key(i) == key(id) {
            I::lemma_parts_injective(i, id);
        }
    }
    assert(by_id::<I, T>(m.remove(key(id))) =~= by_id::<I, T>(m).remove(id));
}

/// A generational arena: values live in slots, a removed slot is reused by a
/// later insert under the next generation, so stale ids never alias.
#[derive(Clone)]
pub struct Arena<T> {
    slots: Vec<Slot<T>>,
    free_head: Option<u32>,
    len: usize,
    /// The free list, head first.
    free: Ghost<Seq<u32>>,
}

/// The values of `n` consecutive indices, less one of them, are fewer than `n`.
proof fn lemma_free_bound(free: Seq<u32>, n: nat, index: u32)
    requires
        free.no_duplicates(),
        forall|k: int| 0 <= k < free.len() ==> #[trigger] free[k] < n,
        index < n,
        !free.contains(index),
    ensures
        free.len() < n,
{
    let fs = free.map_values(|x: u32| x as int);
    assert(fs.no_duplicates()) by {
        assert forall|a: int, b: int| 0 <= a < fs.len() && 0 <= b < fs.len() && a != b implies fs[a] != fs[b] by {
            assert(free[a] != free[b]);
        }
    }
    let range = vstd::set_lib::set_int_range(0, n as int).remove(index as int);
    vstd::set_lib::lemma_int_range(0, n as int);
    assert(fs.to_set().subset_of(range)) by {
        assert forall|x: int| #[trigger] fs.to_set().contains(x) implies range.contains(x) by {
            let k = choose|k: int| 0 <= k < fs.len() && fs[k] == x;
            assert(free[k] < n);
            if x == index as int {
                assert(free[k] == index);
            }
        }
    }
    vstd::set_lib::lemma_len_subset(fs.to_set(), range);
    fs.unique_seq_to_set();
}

impl<T> Arena<T> {
    /// The live values, by (slot, generation).
    pub closed spec fn view(self) -> Map<(u32, u32), T> {
        Map::new(
            |k: (u32, u32)| k.0 < self.slots@.len() && self.slots@[k.0 as int].generation == k.1
                && self.slots@[k.0 as int].value is Some,
            |k: (u32, u32)| self.slots@[k.0 as int].value->Some_0,
        )
    }

    /// The generation slot `slot` is at: the generation its next value gets,
    /// or has while live; zero for a slot not yet allocated.
    pub closed spec fn generation_of(self, slot: u32) -> u32 {
        if slot < self.slots@.len() {
            self.slots@[slot as int].generation
        } else {
            0
        }
    }

    /// A live value's id carries its slot's generation.
    pub proof fn lemma_live_generation<I: ArenaId>(self, id: I)
        requires
            by_id::<I, T>(self.view()).contains_key(id),
        ensures
            self.generation_of(id.slot()) == id.generation_view(),
    {
    }

    /// The number of live values.
    pub closed spec fn count(self) -> nat {
        self.len as nat
    }

    /// An insert can allocate a slot (a free one, or one more slot index).
    pub closed spec fn can_insert(self) -> bool {
        self.free@.len() > 0 || self.slots@.len() <= u32::MAX
    }

    /// Internal consistency of the free list and the count.
    pub closed spec fn wf(self) -> bool {
        let free = self.free@;
        &&& self.slots@.len() <= u32::MAX + 1
        &&& self.len + free.len() == self.slots@.len()
        &&& free.no_duplicates()
        &&& forall|k: int| 0 <= k < free.len() ==> #[trigger] free[k] < self.slots@.len()
        &&& forall|k: int| 0 <= k < free.len() ==> self.slots@[#[trigger] free[k] as int].value is None
        &&& forall|i: int| 0 <= i < self.slots@.len() && self.slots@[i].value is None ==> #[trigger] free.contains(i as u32)
        &&& self.free_head == if free.len() == 0 { None::<u32> } else { Some(free[0]) }
        &&& forall|k: int| 0 <= k < free.len() - 1 ==> self.slots@[#[trigger] free[k] as int].next_free == Some(free[k + 1])
        &&& free.len() > 0 ==> self.slots@[free.last() as int].next_free == None::<u32>
    }

    /// Fewer than 2^32 live values leave room for one more.
    pub proof fn lemma_room(self)
        requires
            self.wf(),
            self.count() <= u32::MAX,
        ensures
            self.can_insert(),
    {
    }

    /// Creates an empty arena.
    pub fn new() -> (a: Self)
        ensures
            a.wf(),
            a.view() == Map::<(u32, u32), T>::empty(),
            a.count() == 0,
            a.can_insert(),
            forall|slot: u32| #[trigger] a.generation_of(slot) == 0,
    {
        let a = Arena { slots: Vec::new(), free_head: None, len: 0, free: Ghost(Seq::empty()) };
        assert(a.view() =~= Map::<(u32, u32), T>::empty());
        a
    }

    /// The number of live values.
    pub fn len(&self) -> (r: usize)
        ensures
            r == self.count(),
    {
        self.len
    }

    /// Stores `value` in a free slot (or a new one) and returns its id.
    pub fn insert<I: ArenaId>(&mut self, value: T) -> (id: I)
        requires
            old(self).wf(),
            old(self).can_insert(),
        ensures
            final(self).wf(),
            !old(self).view().contains_key(key(id)),
            key(id).1 == old(self).generation_of(key(id).0),
            final(self).view() == old(self).view().insert(key(id), value),
            final(self).count() == old(self).count() + 1,
            forall|slot: u32| #[trigger] final(self).generation_of(slot) == old(self).generation_of(slot),
    {
        let ghost free = self.free@;
        match self.free_head {
            Some(index) => {
                let generation = self.slots[index as usize].generation;
                let next = self.slots[index as usize].next_free;
                self.slots.set(index as usize, Slot { generation, value: Some(value), next_free: None });
                self.free_head = next;
                let _slot_count = self.slots.len();
                self.len = self.len + 1;
                proof {
                    self.free@ = free.drop_first();
                    assert forall|i: int| 0 <= i < self.slots@.len() && self.slots@[i].value is None
                        implies #[trigger] self.free@.contains(i as u32) by {
                        assert(free.contains(i as u32));
                        let k = choose|k: int| 0 <= k < free.len() && free[k] == i as u32;
                        assert(k != 0);
                        assert(self.free@[k - 1] == i as u32);
                    }
                    assert forall|k: int| 0 <= k < self.free@.len() - 1
                        implies self.slots@[#[trigger] self.free@[k] as int].next_free == Some(self.free@[k + 1]) by {
                        assert(free[k + 1] != free[0]);
                        assert(self.slots@[free[k + 1] as int] == old(self).slots@[free[k + 1] as int]);
                    }
                    if self.free@.len() > 0 {
                        assert(free.last() != free[0]);
                    }
                    if free.len() > 1 {
                        assert(free[0] as int != free[1] as int);
                    }
                    assert forall|k: int| 0 <= k < self.free@.len() implies self.slots@[#[trigger] self.free@[k] as int].value is None by {
                        assert(free[k + 1] != free[0]);
                    }
                    let kk = (index, generation);
                    assert(self.view() =~= old(self).view().insert(kk, value)) by {
                        assert forall|k: (u32, u32)| #[trigger] self.view().contains_key(k)
                            <==> old(self).view().insert(kk, value).contains_key(k) by {
                            if k.0 == index {
                                assert(old(self).slots@[index as int].value is None);
                            }
                        }
                    }
                }
                I::from_parts(index, generation)
            },
            None => {
                let index = self.slots.len() as u32;
                self.slots.push(Slot { generation: 0, value: Some(value), next_free: None });
                let _slot_count = self.slots.len();
                self.len = self.len + 1;
                proof {
                    assert forall|i: int| 0 <= i < self.slots@.len() && self.slots@[i].value is None
                        implies #[trigger] self.free@.contains(i as u32) by {
                        assert(i < old(self).slots@.len());
                        assert(free.contains(i as u32));
                    }
                    let kk = (index, 0u32);
                    assert(self.view() =~= old(self).view().insert(kk, value)) by {
                        assert forall|k: (u32, u32)| #[trigger] self.view().contains_key(k)
                            <==> old(self).view().insert(kk, value).contains_key(k) by {
                        }
                    }
                }
                I::from_parts(index, 0)
            },
        }
    }

    /// Returns `true` if `id` names a live value.
    pub fn contains<I: ArenaId>(&self, id: I) -> (r: bool)
        requires
            self.wf(),
        ensures
            r == self.view().contains_key(key(id)),
    {
        self.get(id).is_some()
    }

    /// The value that `id` names, if it is live.
    pub fn get<I: ArenaId>(&self, id: I) -> (r: Option<&T>)
        requires
            self.wf(),
        ensures
            r == if self.view().contains_key(key(id)) { Some(&self.view()[key(id)]) } else { None },
    {
        let index = id.index() as usize;
        if index < self.slots.len() && self.slots[index].generation == id.generation() {
            match &self.slots[index].value {
                Some(v) => Some(v),
                None => None,
            }
        } else {
            None
        }
    }

    /// Mutable access to the value that `id` names, if it is live.
    pub fn get_mut<I: ArenaId>(&mut self, id: I) -> (r: Option<&mut T>)
        requires
            old(self).wf(),
        ensures
            final(self).wf(),
            final(self).count() == old(self).count(),
            final(self).can_insert() == old(self).can_insert(),
            forall|slot: u32| #[trigger] final(self).generation_of(slot) == old(self).generation_of(slot),
            match r {
                Some(v) => old(self).view().contains_key(key(id)) && *v == old(self).view()[key(id)]
                    && final(self).view() == old(self).view().insert(key(id), *final(v)),
                None => !old(self).view().contains_key(key(id)) && final(self).view() == old(self).view(),
            },
    {
        let index = id.index() as usize;
        if index < self.slots.len() && self.slots[index].generation == id.generation() {
            match &mut self.slots[index].value {
                Some(v) => Some(v),
                None => None,
            }
        } else {
            None
        }
    }

    /// Removes and returns the value that `id` names, if it is live; the
    /// slot's generation advances and the slot joins the free list.
    pub fn remove<I: ArenaId>(&mut self, id: I) -> (r: Option<T>)
        requires
            old(self).wf(),
        ensures
            final(self).wf(),
            final(self).can_insert() == (old(self).can_insert() || old(self).view().contains_key(key(id))),
            r == if old(self).view().contains_key(key(id)) { Some(old(self).view()[key(id)]) } else { None::<T> },
            final(self).view() == old(self).view().remove(key(id)),
            final(self).count() == if old(self).view().contains_key(key(id)) { old(self).count() - 1 } else { old(self).count() as int },
            forall|slot: u32| #[trigger] final(self).generation_of(slot) == if old(self).view().contains_key(key(id))
                && slot == key(id).0 {
                old(self).generation_of(slot).wrapping_add(1)
            } else {
                old(self).generation_of(slot)
            },
    {
        let ghost free = self.free@;
        let index = id.index() as usize;
        if index >= self.slots.len() {
            proof {
                assert(self.view() =~= old(self).view().remove(key(id)));
            }
            return None;
        }
        if self.slots[index].generation != id.generation() || self.slots[index].value.is_none() {
            proof {
                assert(self.view() =~= old(self).view().remove(key(id)));
                if self.slots@[index as int].value is None {
                    assert(free.contains(index as u32));
                }
            }
            return None;
        }
        let mut slot = Slot { generation: 0, value: None, next_free: None };
        std::mem::swap(&mut slot, &mut self.slots[index]);
        let value = match slot.value {
            Some(v) => v,
            None => {
                proof {
                    assert(false);
                }
                return None;
            },
        };
        proof {
            assert(!free.contains(id.slot())) by {
                if free.contains(id.slot()) {
                    let k = choose|k: int| 0 <= k < free.len() && free[k] == id.slot();
                    assert(old(self).slots@[free[k] as int].value is None);
                }
            }
            lemma_free_bound(free, old(self).slots@.len(), id.slot());
        }
        self.slots.set(index, Slot { generation: slot.generation.wrapping_add(1), value: None, next_free: self.free_head });
        self.free_head = Some(id.index());
        self.len = self.len - 1;
        proof {
            self.free@ = seq![id.slot()] + free;
            let nf = self.free@;
            assert forall|k: int| 0 <= k < nf.len() implies #[trigger] nf[k] < self.slots@.len() by {
                if k > 0 {
                    assert(nf[k] == free[k - 1]);
                }
            }
            assert forall|k: int| 0 <= k < nf.len() implies self.slots@[#[trigger] nf[k] as int].value is None by {
                if k > 0 {
                    assert(nf[k] == free[k - 1]);
                }
            }
            assert(nf.no_duplicates()) by {
                assert forall|a: int, b: int| 0 <= a < nf.len() && 0 <= b < nf.len() && a != b implies nf[a] != nf[b] by {
                    if a > 0 && b > 0 {
                        assert(free[a - 1] != free[b - 1]);
                    } else if a == 0 {
                        assert(nf[b] == free[b - 1]);
                        assert(free.contains(free[b - 1]));
                    } else {
                        assert(nf[a] == free[a - 1]);
                        assert(free.contains(free[a - 1]));
                    }
                }
            }
            assert forall|i: int| 0 <= i < self.slots@.len() && self.slots@[i].value is None
                implies #[trigger] nf.contains(i as u32) by {
                if i == index as int {
                    assert(nf[0] == i as u32);
                } else {
                    assert(free.contains(i as u32));
                    let k = choose|k: int| 0 <= k < free.len() && free[k] == i as u32;
                    assert(nf[k + 1] == i as u32);
                }
            }
            assert forall|k: int| 0 <= k < nf.len() - 1 implies self.slots@[#[trigger] nf[k] as int].next_free == Some(nf[k + 1]) by {
                if k > 0 {
                    assert(nf[k] == free[k - 1]);
                    assert(nf[k + 1] == free[k]);
                    assert(free[k - 1] != id.slot()) by {
                        assert(free.contains(free[k - 1]));
                    }
                } else {
                    assert(nf[1] == free[0]);
                }
            }
            if free.len() > 0 {
                assert(nf.last() == free.last());
                assert(free.last() != id.slot()) by {
                    assert(free.contains(free.last())) by { assert(free[free.len() - 1] == free.last()); }
                }
            }
            assert(self.view() =~= old(self).view().remove(key(id))) by {
                assert forall|k: (u32, u32)| #[trigger] self.view().contains_key(k)
                    <==> old(self).view().remove(key(id)).contains_key(k) by {
                    if k.0 == id.slot() && old(self).view().contains_key(k) {
                        assert(k.1 == id.generation_view());
                    }
                }
            }
        }
        Some(value)
    }

    /// The keys of all live values, in slot order.
    pub fn keys(&self) -> (r: Vec<(u32, u32)>)
        requires
            self.wf(),
        ensures
            r@.no_duplicates(),
            forall|k: (u32, u32)| #[trigger] r@.contains(k) <==> self.view().contains_key(k),
    {
        let mut r: Vec<(u32, u32)> = Vec::new();
        let mut i: usize = 0;
        while i < self.slots.len()
            invariant
                self.wf(),
                i <= self.slots@.len(),
                r@.no_duplicates(),
                forall|m: int| 0 <= m < r@.len() ==> (#[trigger] r@[m]).0 < i,
                forall|k: (u32, u32)| #[trigger] r@.contains(k) <==> (self.view().contains_key(k) && k.0 < i),
            decreases self.slots@.len() - i,
        {
            if self.slots[i].value.is_some() {
                let k = (i as u32, self.slots[i].generation);
                proof {
                    assert(!r@.contains(k)) by {
                        if r@.contains(k) {
                            let m = choose|m: int| 0 <= m < r@.len() && r@[m] == k;
                        }
                    }
                    super::super::dirty::graph::lemma_push_fresh(r@, k);
                    super::super::dirty::graph::lemma_push_contains(r@, k);
                }
                r.push(k);
            }
            i += 1;
        }
        r
    }
}

/// Stale ids never alias: once the live id `id` is removed, the next id an
/// insert hands out for its slot has the following generation, so it differs
/// from `id` (the `u32` generation would have to wrap all the way round).
pub proof fn lemma_removed_id_not_reissued<I: ArenaId, T>(
    before: Arena<T>,
    removed: Arena<T>,
    id: I,
    id2: I,
)
    requires
        before.view().contains_key(key(id)),
        forall|slot: u32| #[trigger] removed.generation_of(slot) == if slot == key(id).0 {
            before.generation_of(slot).wrapping_add(1)
        } else {
            before.generation_of(slot)
        },
        key(id2).0 == key(id).0,
        key(id2).1 == removed.generation_of(key(id2).0),
    ensures
        key(id2).1 == key(id).1.wrapping_add(1),
        id2 != id,
{
    assert(before.generation_of(key(id).0) == key(id).1);
    let g = key(id).1;
    assert(g.wrapping_add(1) != g) by (bit_vector);
}

} // verus!
