//! Word-parallel control scans: eight control bytes packed into one `u64`,
//! matched with exact borrow-free masks, two words to a group.

use vstd::prelude::*;

use crate::bitmask::{self, BitMask};
use crate::config::GROUP_SIZE;
use crate::control;

verus! {

/// The low seven bits of each lane.
pub const SWAR_LO7: u64 = 0x7f7f_7f7f_7f7f_7f7f;

/// The high bit of each lane.
pub const SWAR_HI: u64 = 0x8080_8080_8080_8080;

/// One in each lane.
pub const SWAR_ONES: u64 = 0x0101_0101_0101_0101;

/// Lane `index` of a word, its bits `[8 * index, 8 * index + 7]`.
pub open spec fn lane(word: u64, index: u64) -> u8 {
    ((word >> ((8 * index) as u64)) & 0xff) as u8
}

/// Load eight control bytes as one little-endian word.
#[inline]
pub fn swar_word(bytes: &[u8], start: usize) -> (result: u64)
    requires
        start + 8 <= bytes@.len(),
    ensures
        forall|i: u64| i < 8 ==> #[trigger] lane(result, i) == bytes@[start + i],
{
    let b0: u8 = bytes[start];
    let b1: u8 = bytes[start + 1];
    let b2: u8 = bytes[start + 2];
    let b3: u8 = bytes[start + 3];
    let b4: u8 = bytes[start + 4];
    let b5: u8 = bytes[start + 5];
    let b6: u8 = bytes[start + 6];
    let b7: u8 = bytes[start + 7];
    let word: u64 = (b0 as u64) | ((b1 as u64) << 8) | ((b2 as u64) << 16) | ((b3 as u64) << 24) | ((
    b4 as u64) << 32) | ((b5 as u64) << 40) | ((b6 as u64) << 48) | ((b7 as u64) << 56);
    proof {
        assert(lane(word, 0) == b0 && lane(word, 1) == b1 && lane(word, 2) == b2 && lane(word, 3)
            == b3 && lane(word, 4) == b4 && lane(word, 5) == b5 && lane(word, 6) == b6 && lane(
            word,
            7,
        ) == b7) by (bit_vector)
            requires
                word == (b0 as u64) | ((b1 as u64) << 8) | ((b2 as u64) << 16) | ((b3 as u64) << 24)
                    | ((b4 as u64) << 32) | ((b5 as u64) << 40) | ((b6 as u64) << 48) | ((
                b7 as u64) << 56),
        ;
        assert forall|i: u64| i < 8 implies #[trigger] lane(word, i) == bytes@[start + i] by {
            assert(i == 0 || i == 1 || i == 2 || i == 3 || i == 4 || i == 5 || i == 6 || i == 7);
        }
    }
    word
}

/// `0x80` in each lane equal to `target`, zero in the others. Matching an empty
/// control never flags a tombstone or an occupied byte.
#[inline]
pub fn swar_eq_mask(word: u64, target: u8) -> (result: u64)
    ensures
        forall|i: u64|
            i < 8 ==> #[trigger] lane(result, i) == if lane(word, i) == target {
                0x80u8
            } else {
                0u8
            },
        result & !SWAR_HI == 0,
{
    let spread: u64 = (target as u64).wrapping_mul(SWAR_ONES);
    let differing: u64 = word ^ spread;
    let joined: u64 = ((differing & SWAR_LO7).wrapping_add(SWAR_LO7)) | differing;
    let result: u64 = (joined & SWAR_HI) ^ SWAR_HI;
    proof {
        assert((target as u64) * 0x0101_0101_0101_0101 <= u64::MAX && (differing
            & 0x7f7f_7f7f_7f7f_7f7f) + 0x7f7f_7f7f_7f7f_7f7f <= u64::MAX) by (bit_vector);
        assert forall|i: u64| i < 8 implies #[trigger] lane(result, i) == if lane(word, i)
            == target {
            0x80u8
        } else {
            0u8
        } by {
            assert(lane(result, i) == if lane(word, i) == target {
                0x80u8
            } else {
                0u8
            }) by (bit_vector)
                requires
                    i < 8,
                    spread == (target as u64) * 0x0101_0101_0101_0101,
                    differing == word ^ spread,
                    joined == (((differing & 0x7f7f_7f7f_7f7f_7f7f) + 0x7f7f_7f7f_7f7f_7f7f) as u64)
                        | differing,
                    result == (joined & 0x8080_8080_8080_8080) ^ 0x8080_8080_8080_8080,
            ;
        }
        assert(((joined & 0x8080_8080_8080_8080) ^ 0x8080_8080_8080_8080)
            & !0x8080_8080_8080_8080u64 == 0) by (bit_vector);
    }
    result
}

/// `0x80` in each occupied lane, zero in the others.
#[inline]
pub fn swar_occupied_mask(word: u64) -> (result: u64)
    ensures
        forall|i: u64|
            i < 8 ==> #[trigger] lane(result, i) == if control::occupied(lane(word, i)) {
                0x80u8
            } else {
                0u8
            },
        result & !SWAR_HI == 0,
{
    let carried: u64 = (word & SWAR_LO7).wrapping_add(SWAR_LO7);
    let result: u64 = carried & SWAR_HI;
    proof {
        assert((word & 0x7f7f_7f7f_7f7f_7f7f) + 0x7f7f_7f7f_7f7f_7f7f <= u64::MAX) by (bit_vector);
        assert forall|i: u64| i < 8 implies #[trigger] lane(result, i) == if control::occupied(
            lane(word, i),
        ) {
            0x80u8
        } else {
            0u8
        } by {
            assert(lane(result, i) == if lane(word, i) != 0 && lane(word, i) != 0x80 {
                0x80u8
            } else {
                0u8
            }) by (bit_vector)
                requires
                    i < 8,
                    result == (((word & 0x7f7f_7f7f_7f7f_7f7f) + 0x7f7f_7f7f_7f7f_7f7f) as u64)
                        & 0x8080_8080_8080_8080,
            ;
        }
        assert((carried & 0x8080_8080_8080_8080) & !0x8080_8080_8080_8080u64 == 0) by (bit_vector);
    }
    result
}

/// `0x80` in each empty or tombstone lane, zero in the others.
#[inline]
pub fn swar_free_mask(word: u64) -> (result: u64)
    ensures
        forall|i: u64|
            i < 8 ==> #[trigger] lane(result, i) == if control::occupied(lane(word, i)) {
                0u8
            } else {
                0x80u8
            },
        result & !SWAR_HI == 0,
{
    let taken: u64 = swar_occupied_mask(word);
    let result: u64 = taken ^ SWAR_HI;
    proof {
        assert forall|i: u64| i < 8 implies #[trigger] lane(result, i) == if control::occupied(
            lane(word, i),
        ) {
            0u8
        } else {
            0x80u8
        } by {
            assert(lane(taken, i) == if control::occupied(lane(word, i)) {
                0x80u8
            } else {
                0u8
            });
            assert(lane(taken ^ 0x8080_8080_8080_8080, i) == lane(taken, i) ^ 0x80) by (bit_vector)
                requires
                    i < 8,
            ;
            assert(0x80u8 ^ 0x80u8 == 0 && 0u8 ^ 0x80u8 == 0x80) by (bit_vector);
        }
        assert((taken ^ 0x8080_8080_8080_8080) & !0x8080_8080_8080_8080u64 == 0) by (bit_vector)
            requires
                taken & !0x8080_8080_8080_8080u64 == 0,
        ;
    }
    result
}

/// Gathers the lane flags of two words into one bit per slot.
#[inline]
fn gather(low: u64, high: u64) -> (result: u64)
    requires
        low & !SWAR_HI == 0,
        high & !SWAR_HI == 0,
    ensures
        result < 0x1_0000,
        forall|i: u64|
            i < 8 ==> (#[trigger] bitmask::bit_at(result, i) <==> lane(low, i) == 0x80),
        forall|i: u64|
            i < 8 ==> (bitmask::bit_at(result, (i + 8) as u64) <==> #[trigger] lane(high, i)
                == 0x80),
{
    let a: u64 = gather_lanes(low);
    let b: u64 = gather_lanes(high);
    let result: u64 = a | (b << 8u64);
    proof {
        assert forall|i: u64| i < 8 implies (#[trigger] bitmask::bit_at(result, i) <==> lane(low, i)
            == 0x80) by {
            assert(bitmask::bit_at(a, i) <==> lane(low, i) == 0x80);
            assert(((a | (b << 8u64)) >> i) & 1 == (a >> i) & 1) by (bit_vector)
                requires
                    i < 8,
            ;
        }
        assert forall|i: u64| i < 8 implies (bitmask::bit_at(result, (i + 8) as u64)
            <==> #[trigger] lane(high, i) == 0x80) by {
            assert(bitmask::bit_at(b, i) <==> lane(high, i) == 0x80);
            assert(((a | (b << 8u64)) >> ((i + 8) as u64)) & 1 == (b >> i) & 1) by (bit_vector)
                requires
                    i < 8,
                    a < 256,
            ;
        }
        assert((a | (b << 8u64)) < 0x1_0000) by (bit_vector)
            requires
                a < 256,
                b < 256,
        ;
    }
    result
}

/// Gathers the eight lane flags of one word.
#[inline]
fn gather_lanes(flags: u64) -> (result: u64)
    requires
        flags & !SWAR_HI == 0,
    ensures
        result < 256,
        forall|i: u64|
            i < 8 ==> (#[trigger] bitmask::bit_at(result, i) <==> lane(flags, i) == 0x80),
{
    let first: u64 = flags >> 7u64;
    let second: u64 = (first | (first >> 7u64)) & 0x0003_0003_0003_0003;
    let third: u64 = (second | (second >> 14u64)) & 0x0000_000f_0000_000f;
    let result: u64 = (third | (third >> 28u64)) & 0xff;
    proof {
        assert forall|i: u64| i < 8 implies (#[trigger] bitmask::bit_at(result, i) <==> lane(
            flags,
            i,
        ) == 0x80) by {
            assert(((result >> i) & 1 == 1) == (lane(flags, i) == 0x80)) by (bit_vector)
                requires
                    i < 8,
                    flags & !0x8080_8080_8080_8080u64 == 0,
                    first == flags >> 7u64,
                    second == (first | (first >> 7u64)) & 0x0003_0003_0003_0003,
                    third == (second | (second >> 14u64)) & 0x0000_000f_0000_000f,
                    result == (third | (third >> 28u64)) & 0xff,
            ;
        }
        assert((third | (third >> 28u64)) & 0xff < 256) by (bit_vector);
    }
    result
}

/// The mask of a word of gathered flags has no slot past the group.
proof fn lemma_no_slot_past_group(word: u64)
    requires
        word < 0x1_0000,
    ensures
        forall|slot: nat| slot >= GROUP_SIZE ==> !#[trigger] (BitMask(word)).has(slot),
{
    assert forall|slot: nat| slot >= GROUP_SIZE implies !#[trigger] (BitMask(word)).has(slot) by {
        if slot < 64 {
            let index = slot as u64;
            assert((word >> index) & 1 == 0) by (bit_vector)
                requires
                    word < 0x1_0000,
                    16 <= index < 64,
            ;
        }
    }
}

/// The slots of a group that hold `target`.
#[inline]
#[must_use]
pub fn eq_mask_group(controls: &[u8], start: usize, target: u8) -> (result: BitMask)
    requires
        start + GROUP_SIZE <= controls@.len(),
    ensures
        forall|slot: nat|
            #[trigger] result.has(slot) <==> slot < GROUP_SIZE && controls@[start + slot] == target,
{
    let ghost length = controls.len();
    let low: u64 = swar_word(controls, start);
    let high: u64 = swar_word(controls, start + 8);
    let low_flags: u64 = swar_eq_mask(low, target);
    let high_flags: u64 = swar_eq_mask(high, target);
    let word: u64 = gather(low_flags, high_flags);
    proof {
        lemma_no_slot_past_group(word);
        assert forall|slot: nat|
            #[trigger] (BitMask(word)).has(slot) <==> slot < GROUP_SIZE && controls@[start + slot]
                == target by {
            if slot < 8 {
                let i = slot as u64;
                assert(lane(low_flags, i) == 0x80 <==> lane(low, i) == target);
                assert(lane(low, i) == controls@[start + i]);
            } else if slot < 16 {
                let i = (slot - 8) as u64;
                assert(lane(high_flags, i) == 0x80 <==> lane(high, i) == target);
                assert(lane(high, i) == controls@[start + 8 + i]);
                assert((i + 8) as u64 == slot as u64);
            }
        }
    }
    BitMask(word)
}

/// The empty and tombstone slots of a group.
#[inline]
#[must_use]
pub fn free_mask_group(controls: &[u8], start: usize) -> (result: BitMask)
    requires
        start + GROUP_SIZE <= controls@.len(),
    ensures
        forall|slot: nat|
            #[trigger] result.has(slot) <==> slot < GROUP_SIZE && !control::occupied(
                controls@[start + slot],
            ),
{
    let ghost length = controls.len();
    let low: u64 = swar_word(controls, start);
    let high: u64 = swar_word(controls, start + 8);
    let low_flags: u64 = swar_free_mask(low);
    let high_flags: u64 = swar_free_mask(high);
    let word: u64 = gather(low_flags, high_flags);
    proof {
        lemma_no_slot_past_group(word);
        assert forall|slot: nat|
            #[trigger] (BitMask(word)).has(slot) <==> slot < GROUP_SIZE && !control::occupied(
                controls@[start + slot],
            ) by {
            if slot < 8 {
                let i = slot as u64;
                assert(lane(low_flags, i) == 0x80 <==> !control::occupied(lane(low, i)));
                assert(lane(low, i) == controls@[start + i]);
            } else if slot < 16 {
                let i = (slot - 8) as u64;
                assert(lane(high_flags, i) == 0x80 <==> !control::occupied(lane(high, i)));
                assert(lane(high, i) == controls@[start + 8 + i]);
                assert((i + 8) as u64 == slot as u64);
            }
        }
    }
    BitMask(word)
}

/// The occupied slots of a group; padding and tombstones are excluded.
#[inline]
#[must_use]
pub fn occupied_mask_group(controls: &[u8], start: usize) -> (result: BitMask)
    requires
        start + GROUP_SIZE <= controls@.len(),
    ensures
        forall|slot: nat|
            #[trigger] result.has(slot) <==> slot < GROUP_SIZE && control::occupied(
                controls@[start + slot],
            ),
{
    let ghost length = controls.len();
    let low: u64 = swar_word(controls, start);
    let high: u64 = swar_word(controls, start + 8);
    let low_flags: u64 = swar_occupied_mask(low);
    let high_flags: u64 = swar_occupied_mask(high);
    let word: u64 = gather(low_flags, high_flags);
    proof {
        lemma_no_slot_past_group(word);
        assert forall|slot: nat|
            #[trigger] (BitMask(word)).has(slot) <==> slot < GROUP_SIZE && control::occupied(
                controls@[start + slot],
            ) by {
            if slot < 8 {
                let i = slot as u64;
                assert(lane(low_flags, i) == 0x80 <==> control::occupied(lane(low, i)));
                assert(lane(low, i) == controls@[start + i]);
            } else if slot < 16 {
                let i = (slot - 8) as u64;
                assert(lane(high_flags, i) == 0x80 <==> control::occupied(lane(high, i)));
                assert(lane(high, i) == controls@[start + 8 + i]);
                assert((i + 8) as u64 == slot as u64);
            }
        }
    }
    BitMask(word)
}

} // verus!
