//! Per-slot match masks over a control group.

use vstd::prelude::*;

verus! {

/// Bits per slot in a [`BitMask`].
pub const BITMASK_STRIDE: u32 = 1;

/// Per-slot match mask over a control group: bit `i` stands for slot `i`.
#[derive(Debug, Clone, Copy)]
pub struct BitMask(pub u64);

/// Whether bit `index` of a word is set.
pub open spec fn bit_at(word: u64, index: u64) -> bool {
    (word >> index) & 1 == 1
}

impl BitMask {
    /// Whether slot `slot` matches.
    pub open spec fn has(self, slot: nat) -> bool {
        slot < 64 && bit_at(self.0, slot as u64)
    }

    /// Whether `slot` is the lowest slot that matches.
    pub open spec fn is_lowest(self, slot: nat) -> bool {
        self.has(slot) && forall|lower: nat| lower < slot ==> !#[trigger] self.has(lower)
    }

    /// Whether no slot matches.
    pub open spec fn is_clear(self) -> bool {
        forall|slot: nat| !#[trigger] self.has(slot)
    }

    /// The mask with one more slot.
    #[inline]
    pub fn with(self, slot: usize) -> (result: Self)
        requires
            slot < 64,
        ensures
            forall|other: nat|
                #[trigger] result.has(other) <==> self.has(other) || other == slot,
    {
        let index: u64 = slot as u64;
        let word: u64 = self.0 | (1u64 << index);
        assert forall|other: nat|
            #[trigger] (BitMask(word)).has(other) <==> self.has(other) || other == slot by {
            if other < 64 {
                lemma_set_bit(self.0, index, other as u64);
            }
        }
        BitMask(word)
    }

    /// The slots of either mask.
    #[inline]
    pub fn union(self, other: Self) -> (result: Self)
        ensures
            forall|slot: nat| #[trigger] result.has(slot) <==> self.has(slot) || other.has(slot),
    {
        let left: u64 = self.0;
        let right: u64 = other.0;
        assert forall|slot: nat| #[trigger] (BitMask(left | right)).has(slot) <==> self.has(slot)
            || other.has(slot) by {
            let index = slot as u64;
            assert((((left | right) >> index) & 1 == 1) == ((left >> index) & 1 == 1 || (right
                >> index) & 1 == 1)) by (bit_vector);
        }
        BitMask(left | right)
    }

    /// The mask that matches no slot.
    #[inline]
    pub fn none() -> (result: Self)
        ensures
            result.is_clear(),
            result.0 == 0,
    {
        assert forall|slot: nat| !#[trigger] (BitMask(0)).has(slot) by {
            let index = slot as u64;
            assert((0u64 >> index) & 1 == 0) by (bit_vector);
        }
        BitMask(0)
    }

    pub fn lowest(&self) -> (result: Option<u32>)
        ensures
            match result {
                Some(slot) => self.is_lowest(slot as nat) && slot < 64 && self.0 != 0,
                None => self.is_clear() && self.0 == 0,
            },
    {
        let word: u64 = self.0;
        if word == 0 {
            let clear = BitMask::none();
            assert(*self == clear);
            return None;
        }
        let slot: u32 = word.trailing_zeros();
        proof {
            vstd::std_specs::bits::axiom_u64_trailing_zeros(word);
            assert forall|lower: nat| lower < slot implies !#[trigger] self.has(lower) by {
                let index = lower as u64;
                assert((word >> index) & 1 == 0);
            }
        }
        Some(slot)
    }

    /// Lowest set slot if it lies below `limit`.
    ///
    /// Slots come out in ascending order, so once the lowest one is at or past
    /// `limit` no later one can qualify.
    #[inline]
    #[must_use]
    pub fn first_below(&self, limit: usize) -> (result: Option<usize>)
        ensures
            match result {
                Some(slot) => slot < limit && self.is_lowest(slot as nat),
                None => forall|slot: nat| slot < limit ==> !#[trigger] self.has(slot),
            },
    {
        match self.lowest() {
            None => None,
            Some(bit) => {
                let slot: usize = (bit / BITMASK_STRIDE) as usize;
                if slot < limit {
                    Some(slot)
                } else {
                    None
                }
            },
        }
    }

    /// Yields the lowest set slot, and clears it, until none is left.
    #[inline]
    pub fn next(&mut self) -> (result: Option<usize>)
        ensures
            match result {
                Some(slot) => old(self).is_lowest(slot as nat) && slot < 64 && forall|other: nat|
                    #[trigger] final(self).has(other) <==> old(self).has(other) && other != slot,
                None => old(self).is_clear() && *final(self) == *old(self),
            },
            final(self).0 <= old(self).0,
            result is Some ==> final(self).0 < old(self).0,
    {
        let word: u64 = self.0;
        match self.lowest() {
            None => None,
            Some(bit) => {
                let slot: usize = (bit / BITMASK_STRIDE) as usize;
                let cleared: u64 = word & word.wrapping_sub(1);
                proof {
                    let wide = bit as u64;
                    assert(bit_at(word, wide));
                    assert forall|other: nat|
                        #[trigger] (BitMask(cleared)).has(other) <==> self.has(other) && other
                            != slot by {
                        let index = other as u64;
                        if other < 64 {
                            if other < bit {
                                assert(!self.has(other));
                            }
                            if other < bit || !bit_at(word, index) {
                                assert((cleared >> index) & 1 == 0) by (bit_vector)
                                    requires
                                        cleared == word & ((word - 1) as u64),
                                        word > 0,
                                        (word >> index) & 1 != 1,
                                        index < 64,
                                ;
                            } else if other == bit {
                                lemma_lowest_is_cleared(*self, word, wide, cleared);
                            } else {
                                assert((cleared >> index) & 1 == 1) by (bit_vector)
                                    requires
                                        cleared == word & ((word - 1) as u64),
                                        word > 0,
                                        wide < index < 64,
                                        (word >> wide) & 1 == 1,
                                        (word >> index) & 1 == 1,
                                ;
                            }
                        }
                    }
                    assert(cleared < word) by (bit_vector)
                        requires
                            cleared == word & ((word - 1) as u64),
                            word > 0,
                    ;
                }
                self.0 = cleared;
                Some(slot)
            },
        }
    }
}

/// Setting one bit leaves the others as they were.
pub proof fn lemma_set_bit(word: u64, index: u64, other: u64)
    by (bit_vector)
    requires
        index < 64,
        other < 64,
    ensures
        ((word | (1u64 << index)) >> other) & 1 == if index == other {
            1
        } else {
            (word >> other) & 1
        },
{
}

/// Below the lowest set bit a word is zero, so that subtracting one clears it.
proof fn lemma_lowest_is_cleared(mask: BitMask, word: u64, lowest: u64, cleared: u64)
    requires
        mask.0 == word,
        word > 0,
        lowest < 64,
        mask.is_lowest(lowest as nat),
        cleared == word & ((word - 1) as u64),
    ensures
        (cleared >> lowest) & 1 == 0,
{
    lemma_low_bits_clear(mask, lowest);
    assert((cleared >> lowest) & 1 == 0) by (bit_vector)
        requires
            cleared == word & ((word - 1) as u64),
            word > 0,
            lowest < 64,
            word & (((1u64 << lowest) - 1) as u64) == 0,
    ;
}

/// A word whose low bits are clear one by one has a clear low part.
proof fn lemma_low_bits_clear(mask: BitMask, count: u64)
    requires
        count < 64,
        forall|lower: nat| lower < count ==> !#[trigger] mask.has(lower),
    ensures
        mask.0 & (((1u64 << count) - 1) as u64) == 0,
    decreases count,
{
    let word = mask.0;
    if count == 0 {
        assert(word & (((1u64 << 0u64) - 1) as u64) == 0) by (bit_vector);
    } else {
        let fewer = (count - 1) as u64;
        lemma_low_bits_clear(mask, fewer);
        assert(!mask.has(fewer as nat));
        assert(word & (((1u64 << count) - 1) as u64) == 0) by (bit_vector)
            requires
                0 < count < 64,
                fewer + 1 == count,
                word & (((1u64 << fewer) - 1) as u64) == 0,
                (word >> fewer) & 1 != 1,
        ;
    }
}

} // verus!
