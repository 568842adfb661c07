//! Control bytes: one per slot, either a sentinel or a fingerprint.

use vstd::prelude::*;

verus! {

/// Empty-slot sentinel control byte.
pub const CTRL_EMPTY: u8 = 0;

/// Tombstone sentinel; the high bit tells a deleted slot from an empty one.
pub const CTRL_TOMBSTONE: u8 = 0x80;

/// The low seven bits of an occupied control byte hold the fingerprint.
pub const FINGERPRINT_MASK: u8 = 0x7F;

/// Shift that brings the seven high bits of a hash down to bits `[6:0]`.
pub const FINGERPRINT_SHIFT: u32 = 57;

/// Whether a control byte marks a live slot: it is neither sentinel.
pub open spec fn occupied(control: u8) -> bool {
    control != CTRL_EMPTY && control != CTRL_TOMBSTONE
}

/// The fingerprint of a hash: its top seven bits, with zero replaced by one.
pub open spec fn fingerprint(hash: u64) -> u8 {
    let top = hash / 0x0200_0000_0000_0000;
    if top == 0 {
        1
    } else {
        top as u8
    }
}

/// Tests on a control byte.
pub trait ControlByte {
    /// The byte that the tests read.
    spec fn byte(&self) -> u8;

    /// Whether the slot holds a live entry.
    fn is_occupied(&self) -> (result: bool)
        ensures
            result == occupied(self.byte()),
    ;

    /// Whether the slot is empty or a tombstone.
    fn is_free(&self) -> (result: bool)
        ensures
            result == !occupied(self.byte()),
    ;
}

impl ControlByte for u8 {
    open spec fn byte(&self) -> u8 {
        *self
    }

    #[inline]
    fn is_occupied(&self) -> (result: bool) {
        let control: u8 = *self;
        assert((control & FINGERPRINT_MASK) == 0 <==> (control == 0 || control == 0x80))
            by (bit_vector);
        assert(self.byte() == control);
        (control & FINGERPRINT_MASK) != 0
    }

    #[inline]
    fn is_free(&self) -> (result: bool) {
        !self.is_occupied()
    }
}

/// The fingerprint stored for `hash`: seven hash bits, never zero.
#[inline]
#[must_use]
pub fn control_fingerprint(hash: u64) -> (result: u8)
    ensures
        result == fingerprint(hash),
        1 <= result <= FINGERPRINT_MASK,
        occupied(result),
{
    let masked: u64 = (hash >> FINGERPRINT_SHIFT) & (FINGERPRINT_MASK as u64);
    assert((hash >> 57u32) & 0x7F == hash / 0x0200_0000_0000_0000 && (hash >> 57u32) & 0x7F <= 0x7F)
        by (bit_vector);
    let top: u8 = masked as u8;
    if top == 0 {
        1
    } else {
        top
    }
}

/// Empty and tombstone bytes are told apart from every fingerprint, and from
/// each other.
pub proof fn law_sentinels_are_not_fingerprints(hash: u64)
    ensures
        occupied(fingerprint(hash)),
        fingerprint(hash) <= FINGERPRINT_MASK,
        !occupied(CTRL_EMPTY),
        !occupied(CTRL_TOMBSTONE),
        CTRL_EMPTY != CTRL_TOMBSTONE,
{
    assert(hash / 0x0200_0000_0000_0000 <= 0x7F);
}

/// Fingerprints tell hashes apart by their top seven bits, as far as these are not zero.
pub proof fn law_fingerprints_are_the_top_bits(left: u64, right: u64)
    requires
        left >= 0x0200_0000_0000_0000,
        right >= 0x0200_0000_0000_0000,
    ensures
        fingerprint(left) == fingerprint(right) <==> left / 0x0200_0000_0000_0000 == right
            / 0x0200_0000_0000_0000,
        fingerprint(left) * 0x0200_0000_0000_0000 <= left < (fingerprint(left) + 1)
            * 0x0200_0000_0000_0000,
{
    assert(left / 0x0200_0000_0000_0000 <= 0x7F);
    assert(right / 0x0200_0000_0000_0000 <= 0x7F);
}

} // verus!
