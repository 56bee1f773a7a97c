//! Display-list identifiers, retained display lists and their builder, and
//! layout alignment.
use vstd::prelude::*;

verus! {

/// Identifier of a retained display item.
#[derive(Copy, Clone, Debug, Default, PartialEq, Eq, Structural, PartialOrd, Ord, Hash)]
pub struct ItemId(u32);

impl ItemId {
    /// The item index.
    pub closed spec fn index_view(self) -> u32 {
        self.0
    }

    /// The item id with index `index`.
    pub fn new(index: u32) -> (r: Self)
        ensures
            r.index_view() == index,
    {
        ItemId(index)
    }

    /// The item index.
    pub fn index(self) -> (r: u32)
        ensures
            r == self.index_view(),
    {
        self.0
    }
}

/// Host-defined semantic identifier attached to display items.
#[derive(Copy, Clone, Debug, Default, PartialEq, Eq, Structural, PartialOrd, Ord, Hash)]
pub struct SemanticId(u32);

impl SemanticId {
    /// The raw value.
    pub closed spec fn value(self) -> u32 {
        self.0
    }

    /// The semantic id with raw value `value`.
    pub fn new(value: u32) -> (r: Self)
        ensures
            r.value() == value,
    {
        SemanticId(value)
    }

    /// The raw value.
    pub fn get(self) -> (r: u32)
        ensures
            r == self.value(),
    {
        self.0
    }
}

/// Alignment along one axis.
#[derive(Copy, Clone, Debug, Default, PartialEq, Eq, Structural)]
pub enum DisplayAlign {
    /// Align to the minimum edge.
    #[default]
    Start,
    /// Center within the available space.
    Center,
    /// Align to the maximum edge.
    End,
    /// Fill the available space.
    Fill,
}

/// One retained paint item: its id, bounds, paint order, optional semantic
/// id and drawing operation.
#[derive(Clone, Debug, PartialEq)]
pub struct DisplayItem<B, O> {
    /// Stable item id.
    pub id: ItemId,
    /// Bounds in display space.
    pub bounds: B,
    /// Paint order within the list.
    pub z: i32,
    /// Optional host-supplied semantic or provenance id.
    pub semantic_id: Option<SemanticId>,
    /// Drawing operation.
    pub op: O,
}

/// Retained display items in insertion order.
#[derive(Clone, Debug, PartialEq)]
pub struct DisplayList<B, O> {
    items: Vec<DisplayItem<B, O>>,
}

impl<B, O> DisplayList<B, O> {
    /// The items, in insertion order.
    pub closed spec fn items_view(self) -> Seq<DisplayItem<B, O>> {
        self.items@
    }

    /// An empty list.
    pub fn new() -> (l: Self)
        ensures
            l.items_view() == Seq::<DisplayItem<B, O>>::empty(),
    {
        DisplayList { items: Vec::new() }
    }

    /// Returns `true` when the list holds no item.
    pub fn is_empty(&self) -> (r: bool)
        ensures
            r == (self.items_view().len() == 0),
    {
        self.items.len() == 0
    }

    /// The number of items.
    pub fn len(&self) -> (r: usize)
        ensures
            r == self.items_view().len(),
    {
        self.items.len()
    }

    /// The items, in insertion order.
    pub fn items(&self) -> (r: &[DisplayItem<B, O>])
        ensures
            r@ == self.items_view(),
    {
        self.items.as_slice()
    }

    fn push(&mut self, item: DisplayItem<B, O>)
        ensures
            final(self).items_view() == old(self).items_view().push(item),
    {
        self.items.push(item);
    }
}

impl<B, O> Default for DisplayList<B, O> {
    fn default() -> (l: Self)
        ensures
            l.items_view() == Seq::<DisplayItem<B, O>>::empty(),
    {
        DisplayList::new()
    }
}

/// Builder of one retained display list that hands out item ids.
#[derive(Clone, Debug)]
pub struct DisplayListBuilder<B, O> {
    list: DisplayList<B, O>,
    next_id: u32,
}

impl<B, O> DisplayListBuilder<B, O> {
    /// The items pushed so far.
    pub closed spec fn items_view(self) -> Seq<DisplayItem<B, O>> {
        self.list.items_view()
    }

    /// The index the next appended item gets.
    pub closed spec fn next_index(self) -> u32 {
        self.next_id
    }

    /// An empty builder whose first item gets index 0.
    pub fn new() -> (b: Self)
        ensures
            b.items_view() == Seq::<DisplayItem<B, O>>::empty(),
            b.next_index() == 0,
    {
        DisplayListBuilder { list: DisplayList::new(), next_id: 0 }
    }

    /// Pushes a fully formed item; later appended items get indices past
    /// its own (saturating at the largest index).
    pub fn push(&mut self, item: DisplayItem<B, O>)
        ensures
            final(self).items_view() == old(self).items_view().push(item),
            final(self).next_index() == if old(self).next_index() >= item.id.index_view().saturating_add(1) {
                old(self).next_index()
            } else {
                item.id.index_view().saturating_add(1)
            },
    {
        let after = item.id.index().saturating_add(1);
        if after > self.next_id {
            self.next_id = after;
        }
        self.list.push(item);
    }

    /// Appends an item with the next index and returns its id; the index
    /// after it (saturating) goes to the following item.
    pub fn push_with_bounds(&mut self, bounds: B, z: i32, semantic_id: Option<SemanticId>, op: O) -> (id: ItemId)
        ensures
            id.index_view() == old(self).next_index(),
            final(self).items_view() == old(self).items_view().push(
                DisplayItem { id, bounds, z, semantic_id, op },
            ),
            final(self).next_index() == old(self).next_index().saturating_add(1),
    {
        let id = ItemId::new(self.next_id);
        self.next_id = self.next_id.saturating_add(1);
        self.list.push(DisplayItem { id, bounds, z, semantic_id, op });
        id
    }

    /// Finishes the builder and returns the list.
    pub fn build(self) -> (l: DisplayList<B, O>)
        ensures
            l.items_view() == self.items_view(),
    {
        self.list
    }
}

impl<B, O> Default for DisplayListBuilder<B, O> {
    fn default() -> (b: Self)
        ensures
            b.items_view() == Seq::<DisplayItem<B, O>>::empty(),
            b.next_index() == 0,
    {
        DisplayListBuilder::new()
    }
}

} // verus!
