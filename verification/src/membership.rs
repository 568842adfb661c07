//! A Bloom-style membership filter.
//!
//! Bits are set on insertion and never cleared key by key, so a missing bit
//! proves that no insertion ever recorded a key and a lookup can skip probing.
//! The filter has false positives, and no false negatives.

use vstd::arithmetic::power2::*;
use vstd::prelude::*;

use crate::arith;
use crate::error::TryReserveError;
use crate::layout::{self, extend_by_array, BlockLayout};

verus! {

/// Slots covered by one filter word.
pub const SLOTS_PER_WORD: usize = 10;

/// The filter words that cover so many slots.
pub open spec fn words_for(total_slots: nat) -> nat {
    arith::ceil_div(total_slots, SLOTS_PER_WORD as nat)
}

/// Filter words needed to cover `total_slots` slots.
#[inline]
pub fn word_count(total_slots: usize) -> (result: usize)
    ensures
        result as nat == words_for(total_slots as nat),
{
    if total_slots % SLOTS_PER_WORD == 0 {
        total_slots / SLOTS_PER_WORD
    } else {
        total_slots / SLOTS_PER_WORD + 1
    }
}

/// Deletes that a filter tolerates before it is recorded anew from the live
/// entries: one capacity's worth of departures doubles its load.
#[inline]
pub fn refresh_deletes(max_insertions: usize) -> (result: usize)
    ensures
        result == max_insertions,
{
    max_insertions
}

/// The two bits of a signature, from disjoint fields of it.
pub open spec fn bits_of(signature: u64) -> u64 {
    (1u64 << (signature & 63)) | (1u64 << ((signature >> 32) & 63))
}

/// The filter word of a signature: its share of `words` words.
pub open spec fn word_of(signature: u64, words: nat) -> nat {
    (signature as nat * words) / pow2(64)
}

/// A signature names two bits of a word and one of four bins.
pub proof fn lemma_bit_places(signature: u64)
    ensures
        signature & 63 < 64,
        (signature >> 32) & 63 < 64,
        signature & 3 < 4,
{
    assert(signature & 63 < 64 && (signature >> 32) & 63 < 64 && signature & 3 < 4)
        by (bit_vector);
}

/// One key's filter bits.
#[derive(Clone, Copy, Debug, PartialEq, Eq, Structural)]
pub struct MembershipKey {
    bits: u64,
}

impl MembershipKey {
    /// The bits.
    pub closed spec fn spec_bits(self) -> u64 {
        self.bits
    }

    /// Two bits of one word.
    #[inline]
    pub fn from_signature(signature: u64) -> (result: Self)
        ensures
            result.spec_bits() == bits_of(signature),
    {
        let first: u64 = signature & 63;
        let second: u64 = (signature >> 32) & 63;
        proof {
            lemma_bit_places(signature);
        }
        MembershipKey { bits: (1u64 << first) | (1u64 << second) }
    }

    /// The bits.
    #[inline]
    pub fn bits(self) -> (result: u64)
        ensures
            result == self.spec_bits(),
    {
        self.bits
    }

    /// Reduces a signature into `word_count` words by the high half of a product.
    #[inline]
    pub fn word(signature: u64, word_count: usize) -> (result: usize)
        ensures
            result as nat == word_of(signature, word_count as nat),
            word_count > 0 ==> result < word_count,
    {
        proof {
            lemma_word_below(signature, word_count as nat);
            assert(signature * word_count <= 0xffff_ffff_ffff_ffff * 0xffff_ffff_ffff_ffff)
                by (nonlinear_arith)
                requires
                    signature <= 0xffff_ffff_ffff_ffff,
                    word_count <= 0xffff_ffff_ffff_ffff,
            ;
            assert(0 <= signature * word_count) by (nonlinear_arith);
        }
        let product: u128 = (signature as u128) * (word_count as u128);
        proof {
            vstd::bits::lemma_u128_shr_is_div(product, 64);
        }
        (product >> 64) as usize
    }
}

/// A signature's word is one of the words.
pub proof fn lemma_word_below(signature: u64, words: nat)
    ensures
        words > 0 ==> word_of(signature, words) < words,
        words == 0 ==> word_of(signature, words) == 0,
{
    lemma2_to64_rest();
    lemma2_to64();
    let product = signature as nat * words;
    assert(product < 0x1_0000_0000_0000_0000 * words || words == 0) by (nonlinear_arith)
        requires
            product == signature * words,
            signature <= 0xffff_ffff_ffff_ffff,
            words >= 0,
    ;
    vstd::arithmetic::div_mod::lemma_fundamental_div_mod(
        product as int,
        0x1_0000_0000_0000_0000,
    );
}

/// Position of a filter tail inside a block.
#[derive(Clone, Copy, Debug, PartialEq, Eq, Structural)]
pub struct MembershipRegion {
    /// Byte offset from the start of the block.
    pub offset: usize,
    /// The words.
    pub words: usize,
}

impl MembershipRegion {
    /// Whether a block has room for a tail of words over so many slots.
    pub open spec fn fits(base: BlockLayout, total_slots: nat, size: nat, align: nat) -> bool {
        total_slots == 0 || base.extensible(words_for(total_slots), size, align)
    }

    /// Appends a tail of `W` words over `total_slots` slots to a block: the
    /// padded block and where the tail stands in it. No slots need no tail.
    pub fn extend<W>(base: BlockLayout, total_slots: usize) -> (result: Result<
        (BlockLayout, Self),
        TryReserveError,
    >)
        requires
            base.wf(),
        ensures
            match result {
                Ok((block, region)) => {
                    let size = vstd::layout::size_of::<W>();
                    let align = vstd::layout::align_of::<W>();
                    &&& MembershipRegion::fits(base, total_slots as nat, size, align)
                    &&& region.words as nat == words_for(total_slots as nat)
                    &&& if total_slots == 0 {
                        block == base && region.offset == 0
                    } else {
                        &&& base.extends_to(words_for(total_slots as nat), size, align, block)
                        &&& region.offset as nat == base.offset_of_next(align)
                    }
                },
                Err(error) => error == TryReserveError::AllocError && !MembershipRegion::fits(
                    base,
                    total_slots as nat,
                    vstd::layout::size_of::<W>(),
                    vstd::layout::align_of::<W>(),
                ),
            },
    {
        let words: usize = word_count(total_slots);
        if words == 0 {
            return Ok((base, MembershipRegion { offset: 0, words: 0 }));
        }
        vstd::layout::layout_for_type_is_valid::<W>();
        match extend_by_array(base, words, core::mem::size_of::<W>(), core::mem::align_of::<W>()) {
            Ok((block, offset)) => Ok((block, MembershipRegion { offset, words })),
            Err(error) => Err(error),
        }
    }
}

/// A filter has a word for every ten slots, and none to spare.
pub proof fn law_ten_slots_share_a_word(slots: nat)
    ensures
        10 * words_for(slots) >= slots,
        10 * words_for(slots) < slots + 10,
{
}

/// The words of a filter share the signatures evenly, in order: a word has those in its
/// part of their range.
pub proof fn law_words_share_the_signatures(signature: u64, words: nat)
    ensures
        word_of(signature, words) * 0x1_0000_0000_0000_0000 <= signature * words,
        signature * words < (word_of(signature, words) + 1) * 0x1_0000_0000_0000_0000,
{
    lemma2_to64();
    lemma2_to64_rest();
    assert(signature as nat * words >= 0) by (nonlinear_arith);
    let product = signature as int * words;
    assert(product / 0x1_0000_0000_0000_0000 * 0x1_0000_0000_0000_0000 <= product < (product
        / 0x1_0000_0000_0000_0000 + 1) * 0x1_0000_0000_0000_0000);
}

} // verus!
