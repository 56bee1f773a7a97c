//! Box-tree node identifiers and node flags.
use vstd::prelude::*;

verus! {

/// Identifier for a node in a box tree: a slot index and a generation.
///
/// A fresh slot starts at generation 1; reusing a freed slot increments its
/// generation, so a stale id never names a different live node.
#[derive(Copy, Clone, Debug, PartialEq, Eq, Structural, Hash)]
pub struct NodeId {
    idx: u32,
    generation: u32,
}

impl NodeId {
    /// The slot index.
    pub closed spec fn idx_view(self) -> u32 {
        self.idx
    }

    /// The slot generation.
    pub closed spec fn generation_view(self) -> u32 {
        self.generation
    }

    /// `self` is newer than `other`: a higher generation, or, at equal
    /// generations, a higher slot index.
    pub open spec fn newer_than(self, other: Self) -> bool {
        ||| self.generation_view() > other.generation_view()
        ||| (self.generation_view() == other.generation_view() && self.idx_view() > other.idx_view())
    }

    /// The id of slot `idx` at `generation`.
    pub fn new(idx: u32, generation: u32) -> (r: Self)
        ensures
            r.idx_view() == idx,
            r.generation_view() == generation,
    {
        NodeId { idx, generation }
    }

    /// The slot index.
    pub fn idx(self) -> (r: usize)
        ensures
            r == self.idx_view(),
    {
        self.idx as usize
    }

    /// The slot generation.
    pub fn generation(self) -> (r: u32)
        ensures
            r == self.generation_view(),
    {
        self.generation
    }

    /// Ids with the same slot and generation are the same id.
    pub proof fn lemma_parts_injective(a: Self, b: Self)
        requires
            a.idx_view() == b.idx_view(),
            a.generation_view() == b.generation_view(),
        ensures
            a == b,
    {
    }

    /// "Newer" is a strict total order on ids: never reflexive, transitive,
    /// and of two distinct ids exactly one is newer.
    pub proof fn lemma_newer_total_order(a: Self, b: Self, c: Self)
        ensures
            !a.newer_than(a),
            a.newer_than(b) && b.newer_than(c) ==> a.newer_than(c),
            a != b ==> (a.newer_than(b) <==> !b.newer_than(a)),
    {
    }
}

/// The flag bit of visible nodes.
pub open spec fn visible_bit() -> u8 {
    1u8
}

/// The flag bit of pickable nodes.
pub open spec fn pickable_bit() -> u8 {
    2u8
}

/// The flag bit of focusable nodes.
pub open spec fn focusable_bit() -> u8 {
    4u8
}

/// Node flags controlling visibility, picking and focus.
#[derive(Clone, Copy, Debug, PartialEq, Eq, Structural, Hash)]
pub struct NodeFlags {
    bits: u8,
}

impl NodeFlags {
    /// The raw flag bits.
    pub closed spec fn bits_view(self) -> u8 {
        self.bits
    }

    /// The node is visible (takes part in rendering and intersection queries).
    pub fn visible() -> (r: Self)
        ensures
            r.bits_view() == visible_bit(),
    {
        NodeFlags { bits: 1 }
    }

    /// The node is pickable (takes part in hit testing).
    pub fn pickable() -> (r: Self)
        ensures
            r.bits_view() == pickable_bit(),
    {
        NodeFlags { bits: 2 }
    }

    /// The node is focusable (can receive keyboard focus).
    pub fn focusable() -> (r: Self)
        ensures
            r.bits_view() == focusable_bit(),
    {
        NodeFlags { bits: 4 }
    }

    /// No flag set.
    pub fn empty() -> (r: Self)
        ensures
            r.bits_view() == 0,
    {
        NodeFlags { bits: 0 }
    }

    /// The raw flag bits.
    pub fn bits(self) -> (r: u8)
        ensures
            r == self.bits_view(),
    {
        self.bits
    }

    /// Returns `true` if no flag is set.
    pub fn is_empty(self) -> (r: bool)
        ensures
            r == (self.bits_view() == 0),
    {
        self.bits == 0
    }

    /// Returns `true` if every flag of `other` is set in `self`.
    pub fn contains(self, other: Self) -> (r: bool)
        ensures
            r == (self.bits_view() & other.bits_view() == other.bits_view()),
    {
        self.bits & other.bits == other.bits
    }

    /// The flags set in `self` or in `other`.
    pub fn union(self, other: Self) -> (r: Self)
        ensures
            r.bits_view() == self.bits_view() | other.bits_view(),
    {
        NodeFlags { bits: self.bits | other.bits }
    }

    /// Sets the flags of `other`.
    pub fn insert(&mut self, other: Self)
        ensures
            final(self).bits_view() == old(self).bits_view() | other.bits_view(),
    {
        self.bits = self.bits | other.bits;
    }

    /// Clears the flags of `other`.
    pub fn remove(&mut self, other: Self)
        ensures
            final(self).bits_view() == old(self).bits_view() & !other.bits_view(),
    {
        self.bits = self.bits & !other.bits;
    }

    /// Setting the flags of `b` on `a` makes it contain them; clearing them
    /// leaves none of them and keeps every other flag of `a`.
    pub proof fn lemma_insert_remove(a: Self, b: Self, inserted: Self, removed: Self)
        requires
            inserted.bits_view() == a.bits_view() | b.bits_view(),
            removed.bits_view() == a.bits_view() & !b.bits_view(),
        ensures
            inserted.bits_view() & b.bits_view() == b.bits_view(),
            removed.bits_view() & b.bits_view() == 0,
            removed.bits_view() | (a.bits_view() & b.bits_view()) == a.bits_view(),
    {
        let (x, y) = (a.bits_view(), b.bits_view());
        assert((x | y) & y == y) by (bit_vector);
        assert((x & !y) & y == 0) by (bit_vector);
        assert((x & !y) | (x & y) == x) by (bit_vector);
    }
}

impl Default for NodeFlags {
    /// Visible and pickable.
    fn default() -> (r: Self)
        ensures
            r.bits_view() == visible_bit() | pickable_bit(),
    {
        NodeFlags::visible().union(NodeFlags::pickable())
    }
}

} // verus!
