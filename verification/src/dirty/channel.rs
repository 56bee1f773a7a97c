use vstd::prelude::*;

verus! {

/// Number of channels a [`ChannelSet`] can hold.
pub const MAX_CHANNELS: usize = 64;

/// Whether bit `j` of `v` is set.
pub open spec fn bit_set(v: u64, j: u64) -> bool {
    (v >> j) & 1u64 == 1u64
}

proof fn lemma_bit_insert(v: u64, c: u64, j: u64)
    requires
        c < 64,
        j < 64,
    ensures
        bit_set(v | (1u64 << c), j) == (j == c || bit_set(v, j)),
{
    assert(((v | (1u64 << c)) >> j) & 1u64 == 1u64 <==> (j == c || (v >> j) & 1u64 == 1u64))
        by (bit_vector)
        requires
            c < 64,
            j < 64,
    ;
}

proof fn lemma_bit_remove(v: u64, c: u64, j: u64)
    requires
        c < 64,
        j < 64,
    ensures
        bit_set(v & !(1u64 << c), j) == (j != c && bit_set(v, j)),
{
    assert(((v & !(1u64 << c)) >> j) & 1u64 == 1u64 <==> (j != c && (v >> j) & 1u64 == 1u64))
        by (bit_vector)
        requires
            c < 64,
            j < 64,
    ;
}

proof fn lemma_bit_union(a: u64, b: u64, j: u64)
    requires
        j < 64,
    ensures
        bit_set(a | b, j) == (bit_set(a, j) || bit_set(b, j)),
{
    assert(((a | b) >> j) & 1u64 == 1u64 <==> ((a >> j) & 1u64 == 1u64 || (b >> j) & 1u64 == 1u64))
        by (bit_vector)
        requires
            j < 64,
    ;
}

proof fn lemma_bit_zero(j: u64)
    requires
        j < 64,
    ensures
        !bit_set(0u64, j),
{
    assert((0u64 >> j) & 1u64 == 0u64) by (bit_vector);
}

proof fn lemma_bit_value(v: u64, j: u64)
    ensures
        (v >> j) & 1u64 == 0u64 || (v >> j) & 1u64 == 1u64,
{
    assert((v >> j) & 1u64 == 0u64 || (v >> j) & 1u64 == 1u64) by (bit_vector);
}

proof fn lemma_no_bits_is_zero(v: u64)
    requires
        forall|j: u64| j < 64 ==> !#[trigger] bit_set(v, j),
    ensures
        v == 0u64,
{
    assert forall|j: u64| j < 64 implies (v >> j) & 1u64 == 0u64 by {
        lemma_bit_value(v, j);
        assert(!bit_set(v, j));
    }
    assert(v == 0u64) by (bit_vector)
        requires
            (v >> 0u64) & 1u64 == 0u64 && (v >> 1u64) & 1u64 == 0u64 && (v >> 2u64) & 1u64 == 0u64 && (v >> 3u64) & 1u64 == 0u64 && (v >> 4u64) & 1u64 == 0u64 && (v >> 5u64) & 1u64 == 0u64 && (v >> 6u64) & 1u64 == 0u64 && (v >> 7u64) & 1u64 == 0u64 && (v >> 8u64) & 1u64 == 0u64 && (v >> 9u64) & 1u64 == 0u64 && (v >> 10u64) & 1u64 == 0u64 && (v >> 11u64) & 1u64 == 0u64 && (v >> 12u64) & 1u64 == 0u64 && (v >> 13u64) & 1u64 == 0u64 && (v >> 14u64) & 1u64 == 0u64 && (v >> 15u64) & 1u64 == 0u64 && (v >> 16u64) & 1u64 == 0u64 && (v >> 17u64) & 1u64 == 0u64 && (v >> 18u64) & 1u64 == 0u64 && (v >> 19u64) & 1u64 == 0u64 && (v >> 20u64) & 1u64 == 0u64 && (v >> 21u64) & 1u64 == 0u64 && (v >> 22u64) & 1u64 == 0u64 && (v >> 23u64) & 1u64 == 0u64 && (v >> 24u64) & 1u64 == 0u64 && (v >> 25u64) & 1u64 == 0u64 && (v >> 26u64) & 1u64 == 0u64 && (v >> 27u64) & 1u64 == 0u64 && (v >> 28u64) & 1u64 == 0u64 && (v >> 29u64) & 1u64 == 0u64 && (v >> 30u64) & 1u64 == 0u64 && (v >> 31u64) & 1u64 == 0u64 && (v >> 32u64) & 1u64 == 0u64 && (v >> 33u64) & 1u64 == 0u64 && (v >> 34u64) & 1u64 == 0u64 && (v >> 35u64) & 1u64 == 0u64 && (v >> 36u64) & 1u64 == 0u64 && (v >> 37u64) & 1u64 == 0u64 && (v >> 38u64) & 1u64 == 0u64 && (v >> 39u64) & 1u64 == 0u64 && (v >> 40u64) & 1u64 == 0u64 && (v >> 41u64) & 1u64 == 0u64 && (v >> 42u64) & 1u64 == 0u64 && (v >> 43u64) & 1u64 == 0u64 && (v >> 44u64) & 1u64 == 0u64 && (v >> 45u64) & 1u64 == 0u64 && (v >> 46u64) & 1u64 == 0u64 && (v >> 47u64) & 1u64 == 0u64 && (v >> 48u64) & 1u64 == 0u64 && (v >> 49u64) & 1u64 == 0u64 && (v >> 50u64) & 1u64 == 0u64 && (v >> 51u64) & 1u64 == 0u64 && (v >> 52u64) & 1u64 == 0u64 && (v >> 53u64) & 1u64 == 0u64 && (v >> 54u64) & 1u64 == 0u64 && (v >> 55u64) & 1u64 == 0u64 && (v >> 56u64) & 1u64 == 0u64 && (v >> 57u64) & 1u64 == 0u64 && (v >> 58u64) & 1u64 == 0u64 && (v >> 59u64) & 1u64 == 0u64 && (v >> 60u64) & 1u64 == 0u64 && (v >> 61u64) & 1u64 == 0u64 && (v >> 62u64) & 1u64 == 0u64 && (v >> 63u64) & 1u64 == 0u64,
    ;
}

/// One named domain of dirty tracking (layout, paint, accessibility, ...).
///
/// A channel is a small index below [`MAX_CHANNELS`].
#[derive(Copy, Clone, Debug, PartialEq, Eq, Structural, Hash, PartialOrd, Ord)]
pub struct Channel {
    index: u8,
}

impl Channel {
    #[verifier::type_invariant]
    spec fn channel_inv(self) -> bool {
        self.index < 64
    }

    /// The channel's index as a mathematical number.
    pub closed spec fn idx(self) -> nat {
        self.index as nat
    }

    /// Creates the channel with the given index.
    pub fn new(index: u8) -> (c: Channel)
        requires
            index < 64,
        ensures
            c.idx() == index,
    {
        Channel { index }
    }

    /// Returns the channel's index.
    pub fn index(self) -> (r: u8)
        ensures
            r == self.idx(),
            r < 64,
    {
        proof {
            use_type_invariant(self);
        }
        self.index
    }
}

/// A set of channels, stored as a 64-bit mask.
#[derive(Copy, Clone, Debug, PartialEq, Eq, Structural, Hash)]
pub struct ChannelSet {
    bits: u64,
}

impl View for ChannelSet {
    type V = Set<nat>;

    closed spec fn view(&self) -> Set<nat> {
        Set::new(|c: nat| c < 64 && bit_set(self.bits, c as u64))
    }
}

impl ChannelSet {
    /// Whether channel index `c` is in the set.
    pub open spec fn has(self, c: nat) -> bool {
        self@.contains(c)
    }

    /// The empty set of channels.
    pub fn empty() -> (s: ChannelSet)
        ensures
            s@ == Set::<nat>::empty(),
    {
        let s = ChannelSet { bits: 0 };
        proof {
            assert forall|c: nat| !s@.contains(c) by {
                if c < 64 {
                    lemma_bit_zero(c as u64);
                }
            }
            assert(s@ =~= Set::<nat>::empty());
        }
        s
    }

    /// The set holding exactly `channel`.
    pub fn single(channel: Channel) -> (s: ChannelSet)
        ensures
            s@ == Set::<nat>::empty().insert(channel.idx()),
    {
        let mut s = ChannelSet::empty();
        s.insert(channel);
        s
    }

    /// Returns `true` if no channel is in the set.
    pub fn is_empty(self) -> (r: bool)
        ensures
            r == (self@ == Set::<nat>::empty()),
    {
        proof {
            if self.bits == 0 {
                assert forall|c: nat| !self@.contains(c) by {
                    if c < 64 {
                        lemma_bit_zero(c as u64);
                    }
                }
                assert(self@ =~= Set::<nat>::empty());
            } else if self@ =~= Set::<nat>::empty() {
                assert forall|j: u64| j < 64 implies !#[trigger] bit_set(self.bits, j) by {
                    assert(!self@.contains(j as nat));
                }
                lemma_no_bits_is_zero(self.bits);
            }
        }
        self.bits == 0
    }

    /// Returns `true` if `channel` is in the set.
    pub fn contains(self, channel: Channel) -> (r: bool)
        ensures
            r == self@.contains(channel.idx()),
    {
        let c = channel.index() as u64;
        let bit = (self.bits >> c) & 1u64;
        proof {
            lemma_bit_value(self.bits, c);
        }
        bit == 1u64
    }

    /// Adds `channel` to the set.
    pub fn insert(&mut self, channel: Channel)
        ensures
            final(self)@ == old(self)@.insert(channel.idx()),
    {
        let c = channel.index() as u64;
        let ghost old_bits = self.bits;
        self.bits = self.bits | (1u64 << c);
        proof {
            assert forall|j: nat| #[trigger] final(self)@.contains(j) == old(self)@.insert(channel.idx()).contains(j) by {
                if j < 64 {
                    lemma_bit_insert(old_bits, c, j as u64);
                }
            }
            assert(final(self)@ =~= old(self)@.insert(channel.idx()));
        }
    }

    /// Removes `channel` from the set.
    pub fn remove(&mut self, channel: Channel)
        ensures
            final(self)@ == old(self)@.remove(channel.idx()),
    {
        let c = channel.index() as u64;
        let ghost old_bits = self.bits;
        self.bits = self.bits & !(1u64 << c);
        proof {
            assert forall|j: nat| #[trigger] final(self)@.contains(j) == old(self)@.remove(channel.idx()).contains(j) by {
                if j < 64 {
                    lemma_bit_remove(old_bits, c, j as u64);
                }
            }
            assert(final(self)@ =~= old(self)@.remove(channel.idx()));
        }
    }

    /// Returns the union of two channel sets.
    pub fn union(self, other: ChannelSet) -> (s: ChannelSet)
        ensures
            s@ == self@.union(other@),
    {
        let s = ChannelSet { bits: self.bits | other.bits };
        proof {
            assert forall|j: nat| #[trigger] s@.contains(j) == self@.union(other@).contains(j) by {
                if j < 64 {
                    lemma_bit_union(self.bits, other.bits, j as u64);
                }
            }
            assert(s@ =~= self@.union(other@));
        }
        s
    }

    /// Every index in a channel set is below 64.
    pub proof fn lemma_bounded(self)
        ensures
            forall|c: nat| self@.contains(c) ==> c < 64,
    {
    }
}

impl Default for ChannelSet {
    fn default() -> (s: Self)
        ensures
            s@ == Set::<nat>::empty(),
    {
        ChannelSet::empty()
    }
}

} // verus!
