//! One region of slots: a control byte and an optional value per slot.

use vstd::prelude::*;

use crate::control::{self, ControlByte, CTRL_EMPTY, CTRL_TOMBSTONE};
use crate::cursor::OccupiedSlots;
use crate::disjoint;
use crate::error::TryReserveError;

verus! {

/// One slot's key and value.
#[derive(Debug)]
pub struct SlotEntry<K, V> {
    /// The key.
    pub key: K,
    /// The value.
    pub value: V,
}

impl<K: Clone, V: Clone> Clone for SlotEntry<K, V> {
    fn clone(&self) -> (result: Self)
        ensures
            cloned::<K>(self.key, result.key),
            cloned::<V>(self.value, result.value),
    {
        SlotEntry { key: self.key.clone(), value: self.value.clone() }
    }
}

/// The occupied control bytes of a region.
pub open spec fn occupied_count(controls: Seq<u8>) -> nat
    decreases controls.len(),
{
    if controls.len() == 0 {
        0
    } else {
        occupied_count(controls.drop_last()) + if control::occupied(controls.last()) {
            1nat
        } else {
            0nat
        }
    }
}

/// The tombstones of a region.
pub open spec fn tombstone_count(controls: Seq<u8>) -> nat
    decreases controls.len(),
{
    if controls.len() == 0 {
        0
    } else {
        tombstone_count(controls.drop_last()) + if controls.last() == CTRL_TOMBSTONE {
            1nat
        } else {
            0nat
        }
    }
}

/// One as a number for a true statement.
pub open spec fn unit(condition: bool) -> int {
    if condition {
        1
    } else {
        0
    }
}

/// Changing one control byte changes the counts by that byte alone.
pub proof fn lemma_counts_after_update(controls: Seq<u8>, slot: int, control: u8)
    requires
        0 <= slot < controls.len(),
    ensures
        occupied_count(controls.update(slot, control)) == occupied_count(controls) - unit(
            control::occupied(controls[slot]),
        ) + unit(control::occupied(control)),
        tombstone_count(controls.update(slot, control)) == tombstone_count(controls) - unit(
            controls[slot] == CTRL_TOMBSTONE,
        ) + unit(control == CTRL_TOMBSTONE),
    decreases controls.len(),
{
    let updated = controls.update(slot, control);
    if slot == controls.len() - 1 {
        assert(updated.drop_last() =~= controls.drop_last());
    } else {
        lemma_counts_after_update(controls.drop_last(), slot, control);
        assert(updated.drop_last() =~= controls.drop_last().update(slot, control));
    }
}

/// A region without live slots or tombstones counts none.
pub proof fn lemma_counts_of_empty(controls: Seq<u8>)
    requires
        forall|slot: int| 0 <= slot < controls.len() ==> #[trigger] controls[slot] == CTRL_EMPTY,
    ensures
        occupied_count(controls) == 0,
        tombstone_count(controls) == 0,
    decreases controls.len(),
{
    if controls.len() > 0 {
        assert(controls.last() == controls[controls.len() - 1]);
        lemma_counts_of_empty(controls.drop_last());
    }
}

/// The counts are at most the number of slots, and a region whose first slots
/// are all occupied counts at least those.
pub proof fn lemma_counts_bounds(controls: Seq<u8>, prefix: nat)
    requires
        prefix <= controls.len(),
    ensures
        occupied_count(controls) + tombstone_count(controls) <= controls.len(),
        (forall|slot: int| 0 <= slot < prefix ==> control::occupied(#[trigger] controls[slot]))
            ==> occupied_count(controls) >= prefix,
    decreases controls.len(),
{
    if controls.len() > 0 {
        let fewer = if prefix == controls.len() {
            (prefix - 1) as nat
        } else {
            prefix
        };
        lemma_counts_bounds(controls.drop_last(), fewer);
        if forall|slot: int| 0 <= slot < prefix ==> control::occupied(#[trigger] controls[slot]) {
            assert forall|slot: int| 0 <= slot < fewer implies control::occupied(
                #[trigger] controls.drop_last()[slot],
            ) by {
                assert(controls.drop_last()[slot] == controls[slot]);
            }
            if prefix == controls.len() {
                assert(control::occupied(controls[prefix - 1]));
            }
        }
    }
}

/// An occupied control byte makes the count positive.
pub proof fn lemma_occupied_counts(controls: Seq<u8>, slot: int)
    requires
        0 <= slot < controls.len(),
    ensures
        control::occupied(controls[slot]) ==> occupied_count(controls) > 0,
        controls[slot] == CTRL_TOMBSTONE ==> tombstone_count(controls) > 0,
    decreases controls.len(),
{
    if slot < controls.len() - 1 {
        lemma_occupied_counts(controls.drop_last(), slot);
    }
}

/// No tombstones are counted only where none stands.
pub proof fn lemma_no_tombstones(controls: Seq<u8>)
    requires
        tombstone_count(controls) == 0,
    ensures
        forall|slot: int|
            0 <= slot < controls.len() ==> #[trigger] controls[slot] != CTRL_TOMBSTONE,
{
    assert forall|slot: int| 0 <= slot < controls.len() implies #[trigger] controls[slot]
        != CTRL_TOMBSTONE by {
        lemma_occupied_counts(controls, slot);
    }
}

/// A region of slots. Control bytes past the last slot are padding, so that a
/// group can be read from every slot.
pub struct Slots<T> {
    controls: Vec<u8>,
    values: Vec<Option<T>>,
}

impl<T> Slots<T> {
    /// The control bytes.
    pub closed spec fn controls(self) -> Seq<u8> {
        self.controls@
    }

    /// The slot values.
    pub closed spec fn values(self) -> Seq<Option<T>> {
        self.values@
    }

    /// A slot has a value exactly where its control byte says so, and padding
    /// is empty.
    pub open spec fn wf(self) -> bool {
        &&& self.values().len() <= self.controls().len() <= usize::MAX
        &&& forall|slot: int|
            0 <= slot < self.values().len() ==> (control::occupied(#[trigger] self.controls()[slot])
                <==> self.values()[slot] is Some)
        &&& forall|slot: int|
            self.values().len() <= slot < self.controls().len()
                ==> #[trigger] self.controls()[slot] == CTRL_EMPTY
    }

    /// The values of the live slots from `from` on, in slot order.
    pub open spec fn live_from(self, from: nat) -> Seq<T>
        decreases self.values().len() - from,
    {
        if from >= self.values().len() {
            Seq::empty()
        } else {
            match self.values()[from as int] {
                Some(value) => seq![value] + self.live_from(from + 1),
                None => self.live_from(from + 1),
            }
        }
    }

    /// A region of no slots.
    pub fn empty() -> (result: Self)
        ensures
            result.wf(),
            result.values().len() == 0,
            result.controls().len() == 0,
    {
        Slots { controls: Vec::new(), values: Vec::new() }
    }

    /// An empty region of `capacity` slots and `padding` more control bytes;
    /// refused when the memory cannot be had.
    pub fn try_new(capacity: usize, padding: usize) -> (result: Result<Self, TryReserveError>)
        requires
            capacity + padding <= usize::MAX,
        ensures
            match result {
                Ok(region) => region.is_blank(capacity as nat, padding as nat),
                Err(error) => error == TryReserveError::AllocError && capacity + padding > 0,
            },
    {
        let mut controls: Vec<u8> = Vec::new();
        let mut values: Vec<Option<T>> = Vec::new();
        let total: usize = capacity + padding;
        if total > 0 {
            if controls.try_reserve(total).is_err() {
                return Err(TryReserveError::AllocError);
            }
            if values.try_reserve(capacity).is_err() {
                return Err(TryReserveError::AllocError);
            }
        }
        Ok(Slots::fill(capacity, padding, controls, values))
    }

    /// Fills two empty vectors with a blank region.
    fn fill(capacity: usize, padding: usize, start: Vec<u8>, blank: Vec<Option<T>>) -> (result: Self)
        requires
            capacity + padding <= usize::MAX,
            start@.len() == 0,
            blank@.len() == 0,
        ensures
            result.is_blank(capacity as nat, padding as nat),
    {
        let mut controls: Vec<u8> = start;
        let mut values: Vec<Option<T>> = blank;
        let total: usize = capacity + padding;
        let mut slot: usize = 0;
        while slot < total
            invariant
                slot <= total,
                controls@.len() == slot,
                forall|other: int|
                    0 <= other < slot ==> #[trigger] controls@[other] == CTRL_EMPTY,
            decreases total - slot,
        {
            controls.push(CTRL_EMPTY);
            slot = slot + 1;
        }
        slot = 0;
        while slot < capacity
            invariant
                slot <= capacity,
                values@.len() == slot,
                forall|other: int| 0 <= other < slot ==> #[trigger] values@[other] is None,
            decreases capacity - slot,
        {
            values.push(None);
            slot = slot + 1;
        }
        Slots { controls, values }
    }

    /// An empty region of `capacity` slots and `padding` more control bytes.
    pub fn new(capacity: usize, padding: usize) -> (result: Self)
        requires
            capacity + padding <= usize::MAX,
        ensures
            result.is_blank(capacity as nat, padding as nat),
    {
        Slots::fill(capacity, padding, Vec::new(), Vec::new())
    }

    /// Whether this is an empty region of so many slots and padding.
    pub open spec fn is_blank(self, capacity: nat, padding: nat) -> bool {
        &&& self.wf()
        &&& self.values().len() == capacity
        &&& self.controls().len() == capacity + padding
        &&& forall|slot: int|
            0 <= slot < capacity + padding ==> #[trigger] self.controls()[slot] == CTRL_EMPTY
    }

    /// The number of slots.
    #[inline]
    pub fn capacity(&self) -> (result: usize)
        ensures
            result == self.values().len(),
    {
        self.values.len()
    }

    /// All control bytes.
    #[inline]
    pub fn control_bytes(&self) -> (result: &[u8])
        ensures
            result@ == self.controls(),
    {
        self.controls.as_slice()
    }

    /// A slot's control byte.
    #[inline]
    pub fn control_at(&self, slot: usize) -> (result: u8)
        requires
            slot < self.controls().len(),
        ensures
            result == self.controls()[slot as int],
    {
        self.controls[slot]
    }

    /// The value of a live slot.
    #[inline]
    pub fn get_ref(&self, slot: usize) -> (result: &T)
        requires
            self.wf(),
            slot < self.values().len(),
            control::occupied(self.controls()[slot as int]),
        ensures
            self.values()[slot as int] == Some(*result),
    {
        self.values[slot].as_ref().unwrap()
    }

    /// The value of a live slot, for change in place.
    #[inline]
    pub fn get_mut(&mut self, slot: usize) -> (result: &mut T)
        requires
            old(self).wf(),
            slot < old(self).values().len(),
            control::occupied(old(self).controls()[slot as int]),
        ensures
            old(self).values()[slot as int] == Some(*result),
            final(self).controls() == old(self).controls(),
            final(self).values() == old(self).values().update(slot as int, Some(*final(result))),
    {
        self.values[slot].as_mut().unwrap()
    }

    /// Fills a free slot.
    #[inline]
    pub fn write_with_control(&mut self, slot: usize, value: T, control: u8)
        requires
            old(self).wf(),
            slot < old(self).values().len(),
            control::occupied(control),
        ensures
            final(self).wf(),
            final(self).controls() == old(self).controls().update(slot as int, control),
            final(self).values() == old(self).values().update(slot as int, Some(value)),
    {
        self.values[slot] = Some(value);
        self.controls[slot] = control;
    }

    /// Moves the value out of a live slot and leaves the given free control byte.
    #[inline]
    fn take_leaving(&mut self, slot: usize, control: u8) -> (result: T)
        requires
            old(self).wf(),
            slot < old(self).values().len(),
            control::occupied(old(self).controls()[slot as int]),
            !control::occupied(control),
        ensures
            final(self).wf(),
            old(self).values()[slot as int] == Some(result),
            final(self).controls() == old(self).controls().update(slot as int, control),
            final(self).values() == old(self).values().update(slot as int, None),
    {
        let value: T = self.values[slot].take().unwrap();
        self.controls[slot] = control;
        value
    }

    /// Moves the value out of a live slot and leaves a tombstone.
    #[inline]
    pub fn take(&mut self, slot: usize) -> (result: T)
        requires
            old(self).wf(),
            slot < old(self).values().len(),
            control::occupied(old(self).controls()[slot as int]),
        ensures
            final(self).wf(),
            old(self).values()[slot as int] == Some(result),
            final(self).controls() == old(self).controls().update(slot as int, CTRL_TOMBSTONE),
            final(self).values() == old(self).values().update(slot as int, None),
    {
        self.take_leaving(slot, CTRL_TOMBSTONE)
    }

    /// Empties every slot.
    pub fn clear_all_controls(&mut self)
        requires
            old(self).wf(),
        ensures
            final(self).wf(),
            final(self).values().len() == old(self).values().len(),
            final(self).controls().len() == old(self).controls().len(),
            forall|slot: int|
                0 <= slot < final(self).controls().len() ==> #[trigger] final(self).controls()[slot]
                    == CTRL_EMPTY,
    {
        let total: usize = self.values.len();
        let mut slot: usize = 0;
        while slot < total
            invariant
                slot <= total,
                total == self.values@.len(),
                self.values@.len() == old(self).values().len(),
                self.controls@.len() == old(self).controls().len(),
                total <= self.controls@.len(),
                forall|other: int|
                    0 <= other < slot ==> #[trigger] self.controls@[other] == CTRL_EMPTY
                        && self.values@[other] is None,
                forall|other: int|
                    total <= other < self.controls@.len() ==> #[trigger] self.controls@[other]
                        == CTRL_EMPTY,
            decreases total - slot,
        {
            self.controls[slot] = CTRL_EMPTY;
            self.values[slot] = None;
            slot = slot + 1;
        }
    }

    /// Moves every live value out, in slot order, and empties every slot.
    pub fn drain_values_and_clear(&mut self) -> (result: Vec<T>)
        requires
            old(self).wf(),
        ensures
            final(self).wf(),
            final(self).values().len() == old(self).values().len(),
            final(self).controls().len() == old(self).controls().len(),
            forall|slot: int|
                0 <= slot < final(self).controls().len() ==> #[trigger] final(self).controls()[slot]
                    == CTRL_EMPTY,
            result@ == old(self).live_from(0),
    {
        let ghost region = *self;
        let mut drained: Vec<T> = Vec::new();
        let mut cursor: OccupiedSlots = OccupiedSlots::over(self.values.len());
        let ghost mut position: nat = 0;
        loop
            invariant
                self.wf(),
                region == *old(self),
                region.wf(),
                self.values().len() == region.values().len(),
                self.controls().len() == region.controls().len(),
                cursor.wf(),
                cursor.limit() == region.values().len(),
                position <= cursor.loaded(),
                position <= region.values().len(),
                drained@ + region.live_from(position) == region.live_from(0),
                forall|slot: int|
                    position <= slot < region.values().len() ==> #[trigger] self.values()[slot]
                        == region.values()[slot] && self.controls()[slot]
                        == region.controls()[slot],
                forall|slot: int|
                    #[trigger] cursor.pending(self.controls(), slot) <==> position <= slot
                        < region.values().len() && control::occupied(region.controls()[slot]),
            ensures
                self.wf(),
                self.values().len() == region.values().len(),
                self.controls().len() == region.controls().len(),
                drained@ == region.live_from(0),
            decreases region.values().len() - position,
        {
            let ghost before = cursor;
            match cursor.step(self.controls.as_slice()) {
                None => {
                    proof {
                        assert forall|slot: int|
                            position <= slot < region.values().len() implies !control::occupied(
                            #[trigger] region.controls()[slot],
                        ) by {
                            assert(!before.pending(self.controls(), slot));
                        }
                        lemma_live_skip(region, position, region.values().len());
                        assert(drained@ + region.live_from(position) =~= drained@);
                    }
                    break;
                },
                Some(slot) => {
                    proof {
                        assert(before.pending(self.controls(), slot as int));
                        assert forall|other: int|
                            position <= other < slot implies !control::occupied(
                            #[trigger] region.controls()[other],
                        ) by {
                            if control::occupied(region.controls()[other]) {
                                assert(before.pending(self.controls(), other));
                            }
                        }
                        lemma_live_skip(region, position, slot as nat);
                        assert(self.values()[slot as int] == region.values()[slot as int]);
                    }
                    let ghost held = self.controls();
                    let value: T = self.take_leaving(slot, CTRL_EMPTY);
                    let ghost taken = drained@;
                    drained.push(value);
                    proof {
                        assert(region.live_from(slot as nat) == seq![value] + region.live_from(
                            slot as nat + 1,
                        ));
                        assert(taken + (seq![value] + region.live_from(slot as nat + 1))
                            =~= taken.push(value) + region.live_from(slot as nat + 1));
                        assert forall|other: int|
                            #[trigger] cursor.pending(self.controls(), other) <==> slot + 1 <= other
                                < region.values().len() && control::occupied(
                                region.controls()[other],
                            ) by {
                            cursor.lemma_pending_ignores_loaded(held, self.controls(), other);
                            assert(cursor.pending(held, other) <==> before.pending(held, other)
                                && other != slot);
                            if before.pending(held, other) {
                                assert(other >= slot);
                            }
                        }
                        position = slot as nat + 1;
                    }
                },
            }
        }
        self.clear_all_controls();
        drained
    }
}

impl<T: Clone> Slots<T> {
    /// A region with the same control bytes and clones of the live values.
    pub fn clone_region(&self) -> (result: Self)
        requires
            self.wf(),
        ensures
            result.wf(),
            result.controls() == self.controls(),
            result.values().len() == self.values().len(),
            forall|slot: int|
                0 <= slot < self.values().len() ==> match (
                    self.values()[slot],
                    #[trigger] result.values()[slot],
                ) {
                    (Some(value), Some(copy)) => cloned::<T>(value, copy),
                    (None, None) => true,
                    _ => false,
                },
    {
        let mut controls: Vec<u8> = Vec::new();
        let mut values: Vec<Option<T>> = Vec::new();
        let mut slot: usize = 0;
        while slot < self.controls.len()
            invariant
                self.wf(),
                slot <= self.controls@.len(),
                controls@ == self.controls@.take(slot as int),
                values@.len() == if slot <= self.values@.len() {
                    slot as nat
                } else {
                    self.values@.len()
                },
                forall|other: int|
                    0 <= other < values@.len() ==> match (
                        self.values@[other],
                        #[trigger] values@[other],
                    ) {
                        (Some(value), Some(copy)) => cloned::<T>(value, copy),
                        (None, None) => true,
                        _ => false,
                    },
            decreases self.controls@.len() - slot,
        {
            proof {
                assert(self.controls@.take(slot + 1) =~= self.controls@.take(slot as int).push(
                    self.controls@[slot as int],
                ));
            }
            controls.push(self.controls[slot]);
            if slot < self.values.len() {
                match &self.values[slot] {
                    Some(value) => {
                        values.push(Some(value.clone()));
                    },
                    None => {
                        values.push(None);
                    },
                }
            }
            slot = slot + 1;
        }
        assert(self.controls@.take(self.controls@.len() as int) =~= self.controls@);
        let region: Self = Slots { controls, values };
        assert(region.wf()) by {
            assert forall|other: int| 0 <= other < region.values().len() implies (control::occupied(
                #[trigger] region.controls()[other],
            ) <==> region.values()[other] is Some) by {
                assert(self.controls()[other] == region.controls()[other]);
                assert(values@[other] is Some <==> self.values@[other] is Some);
            }
        }
        region
    }
}

/// Free slots add nothing to the live values.
pub proof fn lemma_live_skip<T>(region: Slots<T>, from: nat, to: nat)
    requires
        region.wf(),
        from <= to <= region.values().len(),
        forall|slot: int|
            from <= slot < to ==> !control::occupied(#[trigger] region.controls()[slot]),
    ensures
        region.live_from(from) == region.live_from(to),
    decreases to - from,
{
    if from < to {
        assert(!control::occupied(region.controls()[from as int]));
        lemma_live_skip(region, from + 1, to);
    }
}

impl<K, V> Slots<SlotEntry<K, V>> {
    /// Borrows several live slots at once: the key and, for change in place, the
    /// value of each.
    pub fn pairs_mut<'a>(&'a mut self, wants: &[Option<usize>]) -> (result: Vec<
        Option<(&'a K, &'a mut V)>,
    >)
        requires
            old(self).wf(),
            disjoint::all_distinct(wants@),
            disjoint::all_live(old(self).values(), 0, wants@),
        ensures
            result@.len() == wants@.len(),
            final(self).wf(),
            final(self).controls() == old(self).controls(),
            final(self).values().len() == old(self).values().len(),
            forall|i: int|
                0 <= i < wants@.len() ==> match #[trigger] wants@[i] {
                    Some(slot) => {
                        &&& result@[i] is Some
                        &&& *(result@[i]->0).0 == old(self).values()[slot as int]->0.key
                        &&& *(result@[i]->0).1 == old(self).values()[slot as int]->0.value
                        &&& final(self).values()[slot as int] == Some(
                            SlotEntry {
                                key: old(self).values()[slot as int]->0.key,
                                value: *final((result@[i]->0).1),
                            },
                        )
                    },
                    None => result@[i] is None,
                },
            forall|q: int|
                0 <= q < old(self).values().len() && !disjoint::wanted(wants@, q as nat)
                    ==> #[trigger] final(self).values()[q] == old(self).values()[q],
    {
        disjoint::pairs_mut(self.values.as_mut_slice(), 0, wants)
    }
}

/// Regions with the same slots from one on have the same entries from there on.
pub proof fn lemma_same_live<T>(left: Slots<T>, right: Slots<T>, from: nat)
    requires
        left.values().len() == right.values().len(),
        forall|slot: int|
            from <= slot < left.values().len() ==> #[trigger] left.values()[slot]
                == right.values()[slot],
    ensures
        left.live_from(from) == right.live_from(from),
    decreases left.values().len() - from,
{
    if from < left.values().len() {
        lemma_same_live(left, right, from + 1);
        assert(left.values()[from as int] == right.values()[from as int]);
    }
}

/// The counts are those of the slots whose control bytes are occupied or tombstones.
pub proof fn law_counts_count_the_slots(controls: Seq<u8>)
    ensures
        Set::new(|slot: int| 0 <= slot < controls.len() && control::occupied(controls[slot])).finite(),
        Set::new(|slot: int| 0 <= slot < controls.len() && control::occupied(controls[slot])).len()
            == occupied_count(controls),
        Set::new(|slot: int| 0 <= slot < controls.len() && controls[slot] == CTRL_TOMBSTONE).finite(),
        Set::new(|slot: int| 0 <= slot < controls.len() && controls[slot] == CTRL_TOMBSTONE).len()
            == tombstone_count(controls),
    decreases controls.len(),
{
    let live = Set::new(|slot: int| 0 <= slot < controls.len() && control::occupied(controls[slot]));
    let dead = Set::new(
        |slot: int| 0 <= slot < controls.len() && controls[slot] == CTRL_TOMBSTONE,
    );
    if controls.len() == 0 {
        assert(live =~= Set::empty());
        assert(dead =~= Set::empty());
    } else {
        let fewer = controls.drop_last();
        let last = controls.len() - 1;
        law_counts_count_the_slots(fewer);
        let live_before = Set::new(
            |slot: int| 0 <= slot < fewer.len() && control::occupied(fewer[slot]),
        );
        let dead_before = Set::new(
            |slot: int| 0 <= slot < fewer.len() && fewer[slot] == CTRL_TOMBSTONE,
        );
        if control::occupied(controls[last]) {
            assert(live =~= live_before.insert(last));
        } else {
            assert(live =~= live_before);
        }
        if controls[last] == CTRL_TOMBSTONE {
            assert(dead =~= dead_before.insert(last));
        } else {
            assert(dead =~= dead_before);
        }
    }
}

} // verus!
