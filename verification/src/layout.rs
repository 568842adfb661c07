//! Sizes and offsets of the single block that a table's storage stands for:
//! control bytes, then entries, then a tail of filter words.

use vstd::arithmetic::div_mod::*;
use vstd::prelude::*;

use crate::arith;
use crate::config::CACHE_LINE;
use crate::error::TryReserveError;
use crate::slots::SlotEntry;

verus! {

/// The size and alignment of a block of memory.
#[derive(Debug, Clone, Copy, PartialEq, Eq, Structural)]
pub struct BlockLayout {
    /// The size in bytes.
    pub size: usize,
    /// The alignment in bytes.
    pub align: usize,
}

/// The first multiple of `align` from `size` on.
pub open spec fn rounded_up(size: nat, align: nat) -> nat {
    arith::ceil_div(size, align) * align
}

/// Whether a block of so many bytes can be addressed when its size is rounded
/// up to its alignment.
pub open spec fn addressable(size: nat, align: nat) -> bool {
    size + align <= isize::MAX + 1
}

/// The larger of two alignments.
pub open spec fn wider(left: nat, right: nat) -> nat {
    if left >= right {
        left
    } else {
        right
    }
}

impl BlockLayout {
    /// A block of nonzero alignment that can be addressed.
    pub open spec fn wf(self) -> bool {
        0 < self.align <= isize::MAX + 1 && self.size <= isize::MAX
    }

    /// Where an array of `count` items follows this block.
    pub open spec fn offset_of_next(self, item_align: nat) -> nat {
        rounded_up(self.size as nat, item_align)
    }

    /// Whether this block can be extended by an array.
    pub open spec fn extensible(self, count: nat, item_size: nat, item_align: nat) -> bool {
        &&& addressable(count * item_size, item_align)
        &&& addressable(
            self.offset_of_next(item_align) + count * item_size,
            wider(self.align as nat, item_align),
        )
    }

    /// Whether a block is this one extended by an array and padded.
    pub open spec fn extends_to(
        self,
        count: nat,
        item_size: nat,
        item_align: nat,
        longer: BlockLayout,
    ) -> bool {
        &&& longer.align as nat == wider(self.align as nat, item_align)
        &&& longer.size as nat == rounded_up(
            self.offset_of_next(item_align) + count * item_size,
            longer.align as nat,
        )
    }
}

/// Rounding up stays below the next multiple.
pub proof fn lemma_rounded_up(size: nat, align: nat)
    requires
        align > 0,
    ensures
        size <= rounded_up(size, align) < size + align,
{
    lemma_fundamental_div_mod(size as int, align as int);
    lemma_mod_bound(size as int, align as int);
    let quotient = size / align;
    assert(quotient * align == align * quotient) by (nonlinear_arith);
    assert((quotient + 1) * align == align * quotient + align) by (nonlinear_arith);
}

/// Rounds a size up to an alignment.
fn round_up(size: usize, align: usize) -> (result: usize)
    requires
        align > 0,
        size + align <= usize::MAX,
    ensures
        result as nat == rounded_up(size as nat, align as nat),
{
    proof {
        lemma_rounded_up(size as nat, align as nat);
    }
    let groups: usize = if size % align == 0 {
        size / align
    } else {
        proof {
            lemma_div_nonincreasing(size as int, align as int);
        }
        size / align + 1
    };
    assert(groups == arith::ceil_div(size as nat, align as nat));
    groups * align
}

/// Appends an array of `count` items to a block: the padded block and the
/// array's offset.
pub fn extend_by_array(base: BlockLayout, count: usize, item_size: usize, item_align: usize) -> (result:
    Result<(BlockLayout, usize), TryReserveError>)
    requires
        base.wf(),
        item_align > 0,
    ensures
        match result {
            Ok((longer, offset)) => {
                &&& base.extensible(count as nat, item_size as nat, item_align as nat)
                &&& base.extends_to(count as nat, item_size as nat, item_align as nat, longer)
                &&& offset as nat == base.offset_of_next(item_align as nat)
                &&& longer.wf()
            },
            Err(error) => error == TryReserveError::AllocError && !base.extensible(
                count as nat,
                item_size as nat,
                item_align as nat,
            ),
        },
{
    let most: usize = isize::MAX as usize;
    assert(0 <= count * item_size) by (nonlinear_arith);
    let bytes: usize = match count.checked_mul(item_size) {
        Some(bytes) => bytes,
        None => {
            return Err(TryReserveError::AllocError);
        },
    };
    if item_align - 1 > most || bytes > most - (item_align - 1) {
        return Err(TryReserveError::AllocError);
    }
    let align: usize = if base.align >= item_align {
        base.align
    } else {
        item_align
    };
    proof {
        lemma_rounded_up(base.size as nat, item_align as nat);
    }
    let offset: usize = round_up(base.size, item_align);
    let limit: usize = most - (align - 1);
    if offset > limit || bytes > limit - offset {
        return Err(TryReserveError::AllocError);
    }
    let total: usize = offset + bytes;
    proof {
        lemma_rounded_up(total as nat, align as nat);
    }
    Ok((BlockLayout { size: round_up(total, align), align }, offset))
}

/// The block of the control bytes alone.
pub open spec fn control_block(control_bytes: nat) -> BlockLayout {
    BlockLayout { size: control_bytes as usize, align: CACHE_LINE }
}

/// Whether control bytes and entries fit one block.
pub open spec fn has_block(control_bytes: nat, slots: nat, entry_size: nat, entry_align: nat) -> bool {
    control_bytes == 0 && slots == 0 || addressable(control_bytes, CACHE_LINE as nat)
        && control_block(control_bytes).extensible(slots, entry_size, entry_align)
}

/// The block of `total_ctrl` control bytes and as many entries, and the offset
/// of the entries in it.
pub fn layout_for<K, V>(total_ctrl: usize) -> (result: Result<
    (BlockLayout, usize),
    TryReserveError,
>)
    ensures
        is_layout_of::<K, V>(total_ctrl as nat, total_ctrl as nat, result),
{
    layout_for_extents::<K, V>(total_ctrl, total_ctrl)
}

/// What a layout computation returns for control bytes and entries.
pub open spec fn is_layout_of<K, V>(
    control_bytes: nat,
    slots: nat,
    result: Result<(BlockLayout, usize), TryReserveError>,
) -> bool {
    let entry_size = vstd::layout::size_of::<SlotEntry<K, V>>();
    let entry_align = vstd::layout::align_of::<SlotEntry<K, V>>();
    match result {
        Ok((block, offset)) => {
            &&& has_block(control_bytes, slots, entry_size, entry_align)
            &&& block.wf()
            &&& if control_bytes == 0 && slots == 0 {
                block == (BlockLayout { size: 0, align: CACHE_LINE }) && offset == 0
            } else {
                &&& control_block(control_bytes).extends_to(slots, entry_size, entry_align, block)
                &&& offset as nat == rounded_up(control_bytes, entry_align)
            }
        },
        Err(error) => error == TryReserveError::AllocError && !has_block(
            control_bytes,
            slots,
            entry_size,
            entry_align,
        ),
    }
}

/// The block of `ctrl_bytes` control bytes and `data_slots` entries, and the
/// offset of the entries in it.
pub fn layout_for_extents<K, V>(ctrl_bytes: usize, data_slots: usize) -> (result: Result<
    (BlockLayout, usize),
    TryReserveError,
>)
    ensures
        is_layout_of::<K, V>(ctrl_bytes as nat, data_slots as nat, result),
{
    if ctrl_bytes == 0 && data_slots == 0 {
        return Ok((BlockLayout { size: 0, align: CACHE_LINE }, 0));
    }
    vstd::layout::layout_for_type_is_valid::<SlotEntry<K, V>>();
    if ctrl_bytes > isize::MAX as usize - (CACHE_LINE - 1) {
        return Err(TryReserveError::AllocError);
    }
    let controls: BlockLayout = BlockLayout { size: ctrl_bytes, align: CACHE_LINE };
    extend_by_array(
        controls,
        data_slots,
        core::mem::size_of::<SlotEntry<K, V>>(),
        core::mem::align_of::<SlotEntry<K, V>>(),
    )
}

/// Hands out the offsets of consecutive regions of a block, in layout order.
/// Offsets are 32 bits wide, and one that does not fit is refused.
#[derive(Debug, Clone, Copy, PartialEq, Eq, Structural)]
pub struct LayoutCursor {
    /// The next region's control offset.
    pub ctrl_off: u32,
    /// The next region's entry offset.
    pub data_off: u32,
    /// The size of an entry.
    pub slot_size: u32,
}

impl LayoutCursor {
    /// Whether a region of `cap` slots fits from here.
    pub open spec fn takes(self, cap: nat) -> bool {
        self.ctrl_off + cap <= u32::MAX && self.data_off + cap * self.slot_size <= u32::MAX
    }

    /// The cursor past a region of `cap` slots.
    pub open spec fn past(self, cap: nat) -> LayoutCursor {
        LayoutCursor {
            ctrl_off: (self.ctrl_off + cap) as u32,
            data_off: (self.data_off + cap * self.slot_size) as u32,
            slot_size: self.slot_size,
        }
    }

    /// A cursor before the first region of a block whose entries start at
    /// `data_base_off`.
    pub fn new(data_base_off: usize, slot_size: usize) -> (result: Result<Self, TryReserveError>)
        ensures
            match result {
                Ok(cursor) => cursor.ctrl_off == 0 && cursor.data_off == data_base_off
                    && cursor.slot_size == slot_size,
                Err(error) => error == TryReserveError::CapacityOverflow && (data_base_off
                    > u32::MAX || slot_size > u32::MAX),
            },
    {
        if data_base_off as u64 > u32::MAX as u64 || slot_size as u64 > u32::MAX as u64 {
            return Err(TryReserveError::CapacityOverflow);
        }
        Ok(
            LayoutCursor {
                ctrl_off: 0,
                data_off: data_base_off as u32,
                slot_size: slot_size as u32,
            },
        )
    }

    /// The current region's control and entry offsets; moves past the region.
    pub fn reserve(&mut self, cap: u32) -> (result: Result<(u32, u32), TryReserveError>)
        ensures
            match result {
                Ok(offsets) => {
                    &&& old(self).takes(cap as nat)
                    &&& offsets == (old(self).ctrl_off, old(self).data_off)
                    &&& *final(self) == old(self).past(cap as nat)
                },
                Err(error) => {
                    &&& error == TryReserveError::CapacityOverflow
                    &&& !old(self).takes(cap as nat)
                    &&& *final(self) == *old(self)
                },
            },
    {
        assert(0 <= cap * self.slot_size) by (nonlinear_arith);
        let next_ctrl_off: u32 = match self.ctrl_off.checked_add(cap) {
            Some(next) => next,
            None => {
                return Err(TryReserveError::CapacityOverflow);
            },
        };
        let data_bytes: u32 = match cap.checked_mul(self.slot_size) {
            Some(bytes) => bytes,
            None => {
                return Err(TryReserveError::CapacityOverflow);
            },
        };
        let next_data_off: u32 = match self.data_off.checked_add(data_bytes) {
            Some(next) => next,
            None => {
                return Err(TryReserveError::CapacityOverflow);
            },
        };
        let offsets: (u32, u32) = (self.ctrl_off, self.data_off);
        self.ctrl_off = next_ctrl_off;
        self.data_off = next_data_off;
        Ok(offsets)
    }
}

/// A size is rounded up to the next multiple of the alignment, and no further.
pub proof fn law_rounding_reaches_the_next_multiple(size: nat, align: nat)
    requires
        align > 0,
    ensures
        size <= rounded_up(size, align) < size + align,
        rounded_up(size, align) % align == 0,
{
    lemma_rounded_up(size, align);
    lemma_mod_multiples_basic(arith::ceil_div(size, align) as int, align as int);
}

/// Control bytes and entries fit one block if they and the padding between them can be
/// addressed.
pub proof fn law_small_blocks_fit(control_bytes: nat, slots: nat, entry_size: nat, entry_align: nat)
    requires
        entry_align > 0,
        control_bytes + slots * entry_size + 2 * (64 + entry_align) <= isize::MAX,
    ensures
        has_block(control_bytes, slots, entry_size, entry_align),
{
    lemma_rounded_up(control_bytes, entry_align);
    assert(slots * entry_size >= 0) by (nonlinear_arith);
}

} // verus!
