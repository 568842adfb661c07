//! Control bytes, group masks, capacities, reserves and block layouts.

use opthash::bitmask::BitMask;
use opthash::capacity::{capacity_for, max_insertions, tombstone_cleanup_threshold};
use opthash::config::GROUP_SIZE;
use opthash::control::{
    control_fingerprint, ControlByte, CTRL_EMPTY, CTRL_TOMBSTONE, FINGERPRINT_MASK,
};
use opthash::layout::{layout_for, layout_for_extents, LayoutCursor};
use opthash::simd::{
    eq_mask_group, free_mask_group, occupied_mask_group, swar_eq_mask, swar_free_mask,
    swar_occupied_mask, swar_word, SWAR_HI,
};
use opthash::{ReserveFraction, ReserveFractionError, TryReserveError};

#[test]
fn zero_ctrl_layout_does_not_allocate() {
    let (layout, data_offset) = layout_for::<u64, u64>(0).unwrap();
    assert_eq!(layout.size, 0);
    assert_eq!(data_offset, 0);
}

#[test]
fn avx512_keeps_the_sixteen_lane_layout() {
    assert_eq!(GROUP_SIZE, 16);
}

#[test]
fn control_fingerprint_never_zero_and_in_range() {
    // The `.max(1)` guarantees a non-zero fingerprint even for a zero hash,
    // so an occupied slot never collides with the EMPTY sentinel.
    assert_eq!(control_fingerprint(0), 1);
    // Bit 63 of the hash lands in bit 6 of the fingerprint.
    assert_eq!(control_fingerprint(1 << 63), 64);
    for hash in [0u64, 1, 42, u64::MAX, 0x8000_0000_0000_0000, 12_345_678] {
        let fp = control_fingerprint(hash);
        assert!(
            (1..=FINGERPRINT_MASK).contains(&fp),
            "fp {fp} out of [1,127]"
        );
    }
}

#[test]
fn control_byte_occupied_vs_free() {
    assert!(CTRL_EMPTY.is_free());
    assert!(!CTRL_EMPTY.is_occupied());
    // Tombstone's fingerprint bits are zero: free, not occupied.
    assert!(CTRL_TOMBSTONE.is_free());
    assert!(!CTRL_TOMBSTONE.is_occupied());
    for fp in 1..=FINGERPRINT_MASK {
        assert!(fp.is_occupied(), "fp byte {fp} should read occupied");
        assert!(!fp.is_free());
    }
}

fn reserve(reserve_exponent: u32) -> ReserveFraction {
    ReserveFraction::from_exponent(reserve_exponent).expect("test exponent must be positive")
}

#[test]
fn max_insertions_reserves_floor_fraction() {
    assert_eq!(max_insertions(0, reserve(2)), 0);
    assert_eq!(max_insertions(16, reserve(2)), 12);
    assert_eq!(max_insertions(100, reserve(1)), 50);
}

#[test]
fn capacity_for_finds_smallest_doubling_fit() {
    assert_eq!(capacity_for(16, 12, reserve(2)), Some(16));
    assert_eq!(capacity_for(16, 13, reserve(2)), Some(32));
    assert_eq!(capacity_for(16, 0, reserve(2)), Some(16));
}

#[test]
fn capacity_for_returns_none_on_overflow() {
    assert_eq!(capacity_for(1, usize::MAX, reserve(1)), None);
}

#[test]
fn tombstone_cleanup_threshold_stays_between_half_and_three_quarters() {
    for &cap in &[0usize, GROUP_SIZE, 128, 1024, 1_000_000] {
        let threshold = tombstone_cleanup_threshold(cap);
        assert!(threshold >= cap / 2);
        assert!(threshold <= cap * 3 / 4 || cap == 0);
    }
}

#[test]
fn default_is_exactly_one_eighth() {
    assert_eq!(ReserveFraction::default().exponent(), 3);
    assert_eq!(ReserveFraction::default().as_f64_bits(), Some(0.125_f64.to_bits()));
    assert_eq!(
        ReserveFraction::try_from_f64_bits(0.125_f64.to_bits()),
        Ok(ReserveFraction::default())
    );
}

#[test]
fn reserve_patterns_are_exact_inverse_powers_of_two() {
    let mut value = 1.0_f64;
    for exponent in 1..=1_074_u32 {
        let reserve = ReserveFraction::from_exponent(exponent).unwrap();
        value /= 2.0;
        assert_eq!(reserve.as_f64_bits(), Some(value.to_bits()), "exponent={exponent}");
        assert_eq!(ReserveFraction::try_from_f64_bits(value.to_bits()), Ok(reserve));
    }
    assert_eq!(ReserveFraction::from_exponent(1_075).unwrap().as_f64_bits(), None);
    assert_eq!(ReserveFraction::from_exponent(0), Err(ReserveFractionError::ExponentZero));
}

#[test]
fn reserve_patterns_that_are_no_inverse_powers_are_refused() {
    for (value, error) in [
        (0.0_f64, ReserveFractionError::NonPositive),
        (-0.0, ReserveFractionError::NonPositive),
        (-0.125, ReserveFractionError::NonPositive),
        (1.0, ReserveFractionError::NotBelowOne),
        (2.0, ReserveFractionError::NotBelowOne),
        (f64::INFINITY, ReserveFractionError::NonFinite),
        (f64::NEG_INFINITY, ReserveFractionError::NonFinite),
        (f64::NAN, ReserveFractionError::NonFinite),
        (0.3, ReserveFractionError::NotInversePowerOfTwo),
        (0.75, ReserveFractionError::NotInversePowerOfTwo),
    ] {
        assert_eq!(
            ReserveFraction::try_from_f64_bits(value.to_bits()),
            Err(error),
            "value={value}"
        );
    }
}

#[test]
fn reserved_slots_round_down() {
    let eighth = reserve(3);
    assert_eq!(eighth.floor_reserved(17), 2);
    assert_eq!(eighth.floor_half_reserved(17), 1);
    assert_eq!(reserve(64).floor_reserved(usize::MAX), 0);
}

#[test]
fn group_masks_work_on_full_groups() {
    let mut controls = vec![CTRL_EMPTY; 32];
    controls[16] = 11;
    assert_eq!(eq_mask_group(&controls, 16, 11).lowest(), Some(0));
    assert!(free_mask_group(&controls, 16).lowest().is_some());
}

#[test]
fn group_masks_yield_their_lanes_in_order() {
    let mut controls = vec![CTRL_EMPTY; 32];
    for slot in [3, 9, 15] {
        controls[slot] = 5;
    }
    controls[4] = CTRL_TOMBSTONE;
    let mut mask: BitMask = occupied_mask_group(&controls, 0);
    assert_eq!(mask.next(), Some(3));
    assert_eq!(mask.next(), Some(9));
    assert_eq!(mask.next(), Some(15));
    assert_eq!(mask.next(), None);
    assert_eq!(free_mask_group(&controls, 0).first_below(3), Some(0));
    assert_eq!(eq_mask_group(&controls, 0, CTRL_TOMBSTONE).first_below(4), None);
    assert_eq!(swar_word(&controls, 0), 5 << 24 | 0x80 << 32);
}

#[test]
fn blocks_put_the_entries_behind_the_control_bytes() {
    let (layout, data_offset) = layout_for::<u64, u64>(100).unwrap();
    assert_eq!(data_offset, 104);
    assert_eq!(layout.align, 64);
    assert_eq!(layout.size, 1_728);
    let (wider, offset) = layout_for_extents::<u64, u64>(115, 100).unwrap();
    assert_eq!(offset, 120);
    assert_eq!(wider.size, 1_728);
    assert_eq!(layout_for::<u64, u64>(usize::MAX), Err(TryReserveError::AllocError));
}

#[test]
fn cursors_hand_out_offsets_of_thirty_two_bits() {
    let mut cursor = LayoutCursor::new(128, 16).unwrap();
    assert_eq!(cursor.reserve(100), Ok((0, 128)));
    assert_eq!(cursor.reserve(3), Ok((100, 1_728)));
    assert!(matches!(LayoutCursor::new(1 << 40, 16), Err(TryReserveError::CapacityOverflow)));
    assert_eq!(cursor.reserve(u32::MAX), Err(TryReserveError::CapacityOverflow));
}

fn word(bytes: [u8; 8]) -> u64 {
    u64::from_le_bytes(bytes)
}
// Naive per-byte references in the SWAR encoding: 0x80 in lane `i` (bit
// `8*i + 7`) when the predicate holds for byte `i`.
fn ref_eq(bytes: [u8; 8], target: u8) -> u64 {
    let mut m = 0u64;
    for (i, &b) in bytes.iter().enumerate() {
        if b == target {
            m |= 0x80u64 << (8 * i);
        }
    }
    m
}
fn ref_occupied(bytes: [u8; 8]) -> u64 {
    let mut m = 0u64;
    for (i, &b) in bytes.iter().enumerate() {
        if b & FINGERPRINT_MASK != 0 {
            m |= 0x80u64 << (8 * i);
        }
    }
    m
}

// Representative and adversarial words: cross-byte borrow adjacencies
// (0x00/0x01/0x80) and the full 0..=255 range, not just real control bytes.
fn sample_words() -> [[u8; 8]; 10] {
    [
        [CTRL_EMPTY; 8],
        [CTRL_TOMBSTONE; 8],
        [0x2a; 8],
        [1, 2, 3, 4, 5, 6, 7, 8],
        [0x00, 0x01, 0x02, 0x03, 0x04, 0x05, 0x06, 0x07],
        [0x80, 0x01, 0x00, 0x00, 0x00, 0x00, 0x00, 0x00],
        [0x01, 0x00, 0x00, 0x00, 0x00, 0x00, 0x00, 0x00],
        [0x7f, 0x80, 0x00, 0x01, 0x7f, 0x80, 0x00, 0x01],
        [0xff, 0xfe, 0xfd, 0xfc, 0x80, 0x7f, 0x01, 0x00],
        [0x00, 0x80, 0x00, 0x80, 0x00, 0x80, 0x00, 0x80],
    ]
}

#[test]
fn eq_matches_reference_for_every_target() {
    for bytes in sample_words() {
        for target in 0..=u8::MAX {
            assert_eq!(
                swar_eq_mask(word(bytes), target),
                ref_eq(bytes, target),
                "word={bytes:02x?} target={target:#04x}"
            );
        }
    }
}

#[test]
fn eq_empty_flags_only_exact_zero() {
    // Matching CTRL_EMPTY must never false-positive against a tombstone or
    // occupied byte: that would terminate a present key's probe early.
    for bytes in sample_words() {
        assert_eq!(
            swar_eq_mask(word(bytes), CTRL_EMPTY),
            ref_eq(bytes, CTRL_EMPTY)
        );
    }
    assert_eq!(swar_eq_mask(word([CTRL_TOMBSTONE; 8]), CTRL_EMPTY), 0);
    assert_eq!(swar_eq_mask(word([0x2a; 8]), CTRL_EMPTY), 0);
}

#[test]
fn free_and_occupied_partition_all_lanes() {
    for bytes in sample_words() {
        let f = swar_free_mask(word(bytes));
        let o = swar_occupied_mask(word(bytes));
        assert_eq!(o, ref_occupied(bytes), "occupied mismatch: {bytes:02x?}");
        // free and occupied are exact complements over the 8 sentinel bits.
        assert_eq!(f & o, 0, "free/occupied overlap: {bytes:02x?}");
        assert_eq!(f | o, SWAR_HI, "free|occupied != all lanes: {bytes:02x?}");
    }
}

#[test]
fn free_is_empty_or_tombstone() {
    assert_eq!(swar_free_mask(word([CTRL_EMPTY; 8])), SWAR_HI);
    assert_eq!(swar_free_mask(word([CTRL_TOMBSTONE; 8])), SWAR_HI);
    assert_eq!(swar_occupied_mask(word([CTRL_EMPTY; 8])), 0);
    assert_eq!(swar_occupied_mask(word([CTRL_TOMBSTONE; 8])), 0);
    // Every occupied fingerprint (1..=127) reads occupied, never free.
    for fp in 1..=FINGERPRINT_MASK {
        assert_eq!(swar_occupied_mask(word([fp; 8])), SWAR_HI, "fp {fp:#04x}");
        assert_eq!(swar_free_mask(word([fp; 8])), 0, "fp {fp:#04x}");
    }
}

#[test]
fn no_cross_byte_borrow() {
    // A lone occupied byte among empties flags exactly its own lane.
    let bytes = [0x00, 0x01, 0x00, 0x00, 0x00, 0x00, 0x00, 0x00];
    assert_eq!(swar_occupied_mask(word(bytes)), 0x80u64 << 8);
    assert_eq!(swar_eq_mask(word(bytes), 0x01), 0x80u64 << 8);
    // Ascending distinct bytes: eq to byte i flags only lane i.
    let asc = [0x00, 0x01, 0x02, 0x03, 0x04, 0x05, 0x06, 0x07];
    for (i, &b) in asc.iter().enumerate() {
        assert_eq!(
            swar_eq_mask(word(asc), b),
            0x80u64 << (8 * i),
            "byte {b:#04x}"
        );
    }
}

#[test]
fn match_lands_in_lane_high_bit() {
    // Lane `i`'s sentinel is bit `8*i + 7`.
    assert_eq!(swar_eq_mask(word([9; 8]), 9), SWAR_HI);
    assert_eq!(
        swar_eq_mask(word([0, 0, 0, 9, 0, 0, 0, 0]), 9),
        0x80u64 << (8 * 3)
    );
}
