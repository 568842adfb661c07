//! Group-at-a-time scans for occupied slots.

use vstd::prelude::*;

use crate::bitmask::BitMask;
use crate::config::GROUP_SIZE;
use crate::control::{self, ControlByte};
use crate::simd::occupied_mask_group;

verus! {

/// Iterator over the occupied slot indices of one region, in ascending order.
///
/// The region may lose slots that were already yielded or whose group was
/// already loaded; a loaded slot is yielded all the same.
#[derive(Clone, Copy, Debug)]
pub struct OccupiedSlots {
    /// First slot whose group is not loaded yet.
    next: usize,
    /// One past the region's last slot.
    end: usize,
    /// First slot of the loaded group.
    group_start: usize,
    /// Slots of the loaded group that are still to be yielded.
    mask: BitMask,
}

impl OccupiedSlots {
    /// Loaded slots lie before the ones still to be loaded.
    pub closed spec fn wf(self) -> bool {
        &&& self.group_start <= self.next <= self.end
        &&& forall|slot: nat|
            #[trigger] self.mask.has(slot) ==> self.group_start + slot < self.next
    }

    /// One past the region's last slot.
    pub closed spec fn limit(self) -> nat {
        self.end as nat
    }

    /// Slots before this one are loaded.
    pub closed spec fn loaded(self) -> nat {
        self.next as nat
    }

    /// Whether a slot is still to be yielded.
    pub closed spec fn pending(self, controls: Seq<u8>, slot: int) -> bool {
        ||| self.group_start <= slot && self.mask.has((slot - self.group_start) as nat)
        ||| self.next <= slot < self.end && control::occupied(controls[slot])
    }

    /// Measure of the work left.
    pub closed spec fn left(self) -> (nat, nat) {
        ((self.end - self.next) as nat, self.mask.0 as nat)
    }

    /// What is pending among the loaded slots no longer depends on the region.
    pub proof fn lemma_pending_ignores_loaded(self, controls: Seq<u8>, changed: Seq<u8>, slot: int)
        requires
            forall|other: int|
                self.loaded() <= other < self.limit() ==> #[trigger] controls[other]
                    == changed[other],
        ensures
            self.pending(controls, slot) <==> self.pending(changed, slot),
    {
        if self.next <= slot < self.end {
            assert(controls[slot] == changed[slot]);
        }
    }

    /// A live slot of the region is still to be yielded, unless it was loaded.
    pub proof fn lemma_live_is_pending(self, controls: Seq<u8>, slot: int)
        requires
            0 <= slot < self.limit(),
            control::occupied(controls[slot]),
            !self.pending(controls, slot),
        ensures
            slot < self.loaded(),
    {
    }

    /// A scan of the first `end` slots.
    pub fn over(end: usize) -> (result: Self)
        ensures
            result.wf(),
            result.limit() == end,
            result.loaded() == 0,
            forall|controls: Seq<u8>, slot: int|
                #[trigger] result.pending(controls, slot) <==> 0 <= slot < end && control::occupied(
                    controls[slot],
                ),
    {
        OccupiedSlots { next: 0, end, group_start: 0, mask: BitMask::none() }
    }

    /// The next occupied slot, or `None` when the region is exhausted.
    #[inline]
    pub fn step(&mut self, controls: &[u8]) -> (result: Option<usize>)
        requires
            old(self).wf(),
            old(self).limit() <= controls@.len(),
        ensures
            final(self).wf(),
            final(self).limit() == old(self).limit(),
            final(self).loaded() >= old(self).loaded(),
            match result {
                Some(slot) => {
                    &&& old(self).pending(controls@, slot as int)
                    &&& slot < final(self).loaded() <= final(self).limit()
                    &&& forall|other: int|
                        #[trigger] old(self).pending(controls@, other) ==> other >= slot
                    &&& forall|other: int|
                        #[trigger] final(self).pending(controls@, other) <==> old(self).pending(
                            controls@,
                            other,
                        ) && other != slot
                },
                None => {
                    &&& forall|other: int| !#[trigger] old(self).pending(controls@, other)
                    &&& forall|other: int| !#[trigger] final(self).pending(controls@, other)
                },
            },
    {
        loop
            invariant
                self.wf(),
                self.limit() == old(self).limit(),
                self.loaded() >= old(self).loaded(),
                self.limit() <= controls@.len(),
                forall|other: int|
                    #[trigger] self.pending(controls@, other) <==> old(self).pending(
                        controls@,
                        other,
                    ),
            decreases self.left().0, self.left().1,
        {
            let ghost before = *self;
            match self.mask.next() {
                Some(bit) => {
                    let slot: usize = self.group_start + bit;
                    proof {
                        assert(before.mask.has(bit as nat));
                        assert(before.pending(controls@, slot as int));
                        assert forall|other: int|
                            #[trigger] before.pending(controls@, other) implies other >= slot by {
                            if before.group_start <= other && before.mask.has(
                                (other - before.group_start) as nat,
                            ) {
                                assert(!(((other - before.group_start) as nat) < bit as nat));
                            }
                        }
                        assert forall|other: int|
                            #[trigger] old(self).pending(controls@, other) implies other >= slot by {
                            assert(before.pending(controls@, other));
                        }
                        assert forall|other: int|
                            #[trigger] self.pending(controls@, other) <==> before.pending(
                                controls@,
                                other,
                            ) && other != slot by {
                            if before.group_start <= other {
                                let lane = (other - before.group_start) as nat;
                                assert(self.mask.has(lane) <==> before.mask.has(lane) && lane
                                    != bit);
                            }
                        }
                    }
                    return Some(slot);
                },
                None => {},
            }
            if self.next >= self.end {
                proof {
                    assert forall|other: int| !#[trigger] self.pending(controls@, other) by {
                        if self.group_start <= other {
                            assert(!self.mask.has((other - self.group_start) as nat));
                        }
                    }
                    assert forall|other: int| !#[trigger] old(self).pending(controls@, other) by {
                        assert(!self.pending(controls@, other));
                    }
                }
                return None;
            }
            self.group_start = self.next;
            let remaining: usize = self.end - self.next;
            if remaining >= GROUP_SIZE {
                self.mask = occupied_mask_group(controls, self.next);
                self.next = self.next + GROUP_SIZE;
            } else {
                self.mask = occupied_tail(controls, self.group_start, self.end);
                self.next = self.end;
            }
            proof {
                assert forall|other: int|
                    #[trigger] self.pending(controls@, other) <==> before.pending(
                        controls@,
                        other,
                    ) by {
                    if self.group_start <= other {
                        let lane = (other - self.group_start) as nat;
                        assert(self.group_start + lane == other);
                        if self.mask.has(lane) {
                            assert(control::occupied(controls@[other]));
                        }
                    }
                    if before.group_start <= other {
                        assert(!before.mask.has((other - before.group_start) as nat));
                    }
                }
            }
        }
    }
}

/// The occupied slots of the last, incomplete group.
fn occupied_tail(controls: &[u8], start: usize, end: usize) -> (result: BitMask)
    requires
        start <= end <= controls@.len(),
        end - start < GROUP_SIZE,
    ensures
        forall|slot: nat|
            #[trigger] result.has(slot) <==> start + slot < end && control::occupied(
                controls@[start + slot],
            ),
{
    let mut mask: BitMask = BitMask::none();
    let mut lane: usize = 0;
    while lane < end - start
        invariant
            start <= end <= controls@.len(),
            end - start < GROUP_SIZE,
            lane <= end - start,
            forall|slot: nat|
                #[trigger] mask.has(slot) <==> slot < lane && control::occupied(
                    controls@[start + slot],
                ),
        decreases end - start - lane,
    {
        if controls[start + lane].is_occupied() {
            mask = mask.with(lane);
        }
        lane = lane + 1;
    }
    mask
}

} // verus!
