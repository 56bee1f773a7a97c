use vstd::prelude::*;

use crate::dirty::key::Key;

verus! {

/// Packs a slot index (low 32 bits) and a generation (high 32 bits).
pub open spec fn pack(index: u32, generation: u32) -> u64 {
    ((generation as u64) << 32u64) | (index as u64)
}

/// The slot index held in the low 32 bits of `raw`.
pub open spec fn low_half(raw: u64) -> u32 {
    (raw & 0xffff_ffffu64) as u32
}

/// The generation held in the high 32 bits of `raw`.
pub open spec fn high_half(raw: u64) -> u32 {
    (raw >> 32u64) as u32
}

/// Packing and unpacking are inverse.
pub proof fn lemma_pack(index: u32, generation: u32)
    ensures
        low_half(pack(index, generation)) == index,
        high_half(pack(index, generation)) == generation,
{
    assert((((generation as u64) << 32u64) | (index as u64)) & 0xffff_ffffu64 == index as u64) by (bit_vector);
    assert((((generation as u64) << 32u64) | (index as u64)) >> 32u64 == generation as u64) by (bit_vector);
}

/// A raw value is determined by its two halves.
pub proof fn lemma_halves_injective(a: u64, b: u64)
    requires
        low_half(a) == low_half(b),
        high_half(a) == high_half(b),
    ensures
        a == b,
{
    assert(a & 0xffff_ffffu64 == b & 0xffff_ffffu64) by {
        assert((a & 0xffff_ffffu64) < 0x1_0000_0000u64) by (bit_vector);
        assert((b & 0xffff_ffffu64) < 0x1_0000_0000u64) by (bit_vector);
    }
    assert(a >> 32u64 == b >> 32u64) by {
        assert((a >> 32u64) < 0x1_0000_0000u64) by (bit_vector);
        assert((b >> 32u64) < 0x1_0000_0000u64) by (bit_vector);
    }
    assert(a == b) by (bit_vector)
        requires
            a & 0xffff_ffffu64 == b & 0xffff_ffffu64,
            a >> 32u64 == b >> 32u64;
}

/// An identifier made of a slot index and a generation, as handed out by a
/// generational arena.
pub trait ArenaId: Copy + Sized {
    /// The slot index.
    spec fn slot(self) -> u32;

    /// The slot generation.
    spec fn generation_view(self) -> u32;

    /// Builds the id of `index` at `generation`.
    fn from_parts(index: u32, generation: u32) -> (r: Self)
        ensures
            r.slot() == index,
            r.generation_view() == generation,
    ;

    /// The slot index.
    fn index(self) -> (r: u32)
        ensures
            r == self.slot(),
    ;

    /// The slot generation.
    fn generation(self) -> (r: u32)
        ensures
            r == self.generation_view(),
    ;

    /// Ids with the same index and generation are equal.
    proof fn lemma_parts_injective(a: Self, b: Self)
        requires
            a.slot() == b.slot(),
            a.generation_view() == b.generation_view(),
        ensures
            a == b,
    ;
}

/// Stable identifier of a node in a graph document.
#[derive(Copy, Clone, Debug, PartialEq, Eq, Structural, PartialOrd, Ord, Hash)]
pub struct NodeId(u64);

impl NodeId {
    /// The packed bits of the id.
    pub closed spec fn bits_view(self) -> u64 {
        self.0
    }

    /// Ids with the same bits are the same id.
    pub proof fn lemma_bits_injective(a: Self, b: Self)
        requires
            a.bits_view() == b.bits_view(),
        ensures
            a == b,
    {
    }

    /// The packed bits of the id, by which hashed sets hold it.
    pub(crate) fn bits(self) -> (r: u64)
        ensures
            r == self.bits_view(),
    {
        self.0
    }

    /// The id whose packed bits are `bits`.
    pub closed spec fn with_bits(bits: u64) -> Self {
        NodeId(bits)
    }

    /// The id built from `bits` has those bits.
    pub proof fn lemma_with_bits(bits: u64)
        ensures
            Self::with_bits(bits).bits_view() == bits,
    {
    }

    /// The id with the packed bits `bits`.
    pub(crate) fn from_bits(bits: u64) -> (r: Self)
        ensures
            r == Self::with_bits(bits),
            r.bits_view() == bits,
    {
        NodeId(bits)
    }

    /// Builds the id of slot `index` at `generation`.
    pub fn from_parts(index: u32, generation: u32) -> (r: Self)
        ensures
            r.slot() == index,
            r.generation_view() == generation,
    {
        proof {
            lemma_pack(index, generation);
        }
        NodeId(((generation as u64) << 32u64) | (index as u64))
    }

    /// The slot index (low 32 bits).
    pub fn index(self) -> (r: u32)
        ensures
            r == self.slot(),
    {
        (self.0 & 0xffff_ffffu64) as u32
    }

    /// The slot generation (high 32 bits).
    pub fn generation(self) -> (r: u32)
        ensures
            r == self.generation_view(),
    {
        (self.0 >> 32u64) as u32
    }
}

impl Key for NodeId {
    fn key_eq(&self, other: &Self) -> (r: bool) {
        self.0 == other.0
    }
}

impl ArenaId for NodeId {
    closed spec fn slot(self) -> u32 {
        low_half(self.0)
    }

    closed spec fn generation_view(self) -> u32 {
        high_half(self.0)
    }

    fn from_parts(index: u32, generation: u32) -> (r: Self) {
        NodeId::from_parts(index, generation)
    }

    fn index(self) -> (r: u32) {
        NodeId::index(self)
    }

    fn generation(self) -> (r: u32) {
        NodeId::generation(self)
    }

    proof fn lemma_parts_injective(a: Self, b: Self) {
        lemma_halves_injective(a.0, b.0);
    }
}

/// Stable identifier of a port in a graph document.
#[derive(Copy, Clone, Debug, PartialEq, Eq, Structural, PartialOrd, Ord, Hash)]
pub struct PortId(u64);

impl PortId {
    /// Builds the id of slot `index` at `generation`.
    pub fn from_parts(index: u32, generation: u32) -> (r: Self)
        ensures
            r.slot() == index,
            r.generation_view() == generation,
    {
        proof {
            lemma_pack(index, generation);
        }
        PortId(((generation as u64) << 32u64) | (index as u64))
    }

    /// The slot index (low 32 bits).
    pub fn index(self) -> (r: u32)
        ensures
            r == self.slot(),
    {
        (self.0 & 0xffff_ffffu64) as u32
    }

    /// The slot generation (high 32 bits).
    pub fn generation(self) -> (r: u32)
        ensures
            r == self.generation_view(),
    {
        (self.0 >> 32u64) as u32
    }
}

impl Key for PortId {
    fn key_eq(&self, other: &Self) -> (r: bool) {
        self.0 == other.0
    }
}

impl ArenaId for PortId {
    closed spec fn slot(self) -> u32 {
        low_half(self.0)
    }

    closed spec fn generation_view(self) -> u32 {
        high_half(self.0)
    }

    fn from_parts(index: u32, generation: u32) -> (r: Self) {
        PortId::from_parts(index, generation)
    }

    fn index(self) -> (r: u32) {
        PortId::index(self)
    }

    fn generation(self) -> (r: u32) {
        PortId::generation(self)
    }

    proof fn lemma_parts_injective(a: Self, b: Self) {
        lemma_halves_injective(a.0, b.0);
    }
}

/// Stable identifier of an edge in a graph document.
#[derive(Copy, Clone, Debug, PartialEq, Eq, Structural, PartialOrd, Ord, Hash)]
pub struct EdgeId(u64);

impl EdgeId {
    /// The packed bits of the id.
    pub closed spec fn bits_view(self) -> u64 {
        self.0
    }

    /// Ids with the same bits are the same id.
    pub proof fn lemma_bits_injective(a: Self, b: Self)
        requires
            a.bits_view() == b.bits_view(),
        ensures
            a == b,
    {
    }

    /// The packed bits of the id, by which hashed sets hold it.
    pub(crate) fn bits(self) -> (r: u64)
        ensures
            r == self.bits_view(),
    {
        self.0
    }

    /// The id whose packed bits are `bits`.
    pub closed spec fn with_bits(bits: u64) -> Self {
        EdgeId(bits)
    }

    /// The id built from `bits` has those bits.
    pub proof fn lemma_with_bits(bits: u64)
        ensures
            Self::with_bits(bits).bits_view() == bits,
    {
    }

    /// The id with the packed bits `bits`.
    pub(crate) fn from_bits(bits: u64) -> (r: Self)
        ensures
            r == Self::with_bits(bits),
            r.bits_view() == bits,
    {
        EdgeId(bits)
    }

    /// Builds the id of slot `index` at `generation`.
    pub fn from_parts(index: u32, generation: u32) -> (r: Self)
        ensures
            r.slot() == index,
            r.generation_view() == generation,
    {
        proof {
            lemma_pack(index, generation);
        }
        EdgeId(((generation as u64) << 32u64) | (index as u64))
    }

    /// The slot index (low 32 bits).
    pub fn index(self) -> (r: u32)
        ensures
            r == self.slot(),
    {
        (self.0 & 0xffff_ffffu64) as u32
    }

    /// The slot generation (high 32 bits).
    pub fn generation(self) -> (r: u32)
        ensures
            r == self.generation_view(),
    {
        (self.0 >> 32u64) as u32
    }
}

impl Key for EdgeId {
    fn key_eq(&self, other: &Self) -> (r: bool) {
        self.0 == other.0
    }
}

impl ArenaId for EdgeId {
    closed spec fn slot(self) -> u32 {
        low_half(self.0)
    }

    closed spec fn generation_view(self) -> u32 {
        high_half(self.0)
    }

    fn from_parts(index: u32, generation: u32) -> (r: Self) {
        EdgeId::from_parts(index, generation)
    }

    fn index(self) -> (r: u32) {
        EdgeId::index(self)
    }

    fn generation(self) -> (r: u32) {
        EdgeId::generation(self)
    }

    proof fn lemma_parts_injective(a: Self, b: Self) {
        lemma_halves_injective(a.0, b.0);
    }
}

/// Any graph element identifier.
#[derive(Copy, Clone, Debug, PartialEq, Eq, Structural, Hash)]
pub enum GraphElementId {
    /// A node.
    Node(NodeId),
    /// A port.
    Port(PortId),
    /// An edge.
    Edge(EdgeId),
}

impl From<NodeId> for GraphElementId {
    fn from(value: NodeId) -> (r: Self) {
        GraphElementId::Node(value)
    }
}

impl vstd::std_specs::convert::FromSpecImpl<NodeId> for GraphElementId {
    open spec fn obeys_from_spec() -> bool {
        true
    }

    open spec fn from_spec(v: NodeId) -> Self {
        GraphElementId::Node(v)
    }
}

impl From<PortId> for GraphElementId {
    fn from(value: PortId) -> (r: Self) {
        GraphElementId::Port(value)
    }
}

impl vstd::std_specs::convert::FromSpecImpl<PortId> for GraphElementId {
    open spec fn obeys_from_spec() -> bool {
        true
    }

    open spec fn from_spec(v: PortId) -> Self {
        GraphElementId::Port(v)
    }
}

impl From<EdgeId> for GraphElementId {
    fn from(value: EdgeId) -> (r: Self) {
        GraphElementId::Edge(value)
    }
}

impl vstd::std_specs::convert::FromSpecImpl<EdgeId> for GraphElementId {
    open spec fn obeys_from_spec() -> bool {
        true
    }

    open spec fn from_spec(v: EdgeId) -> Self {
        GraphElementId::Edge(v)
    }
}

} // verus!
