//! The contract between a map and the table that stores its entries.

use vstd::prelude::*;

use crate::capacity;
use crate::control;
use crate::epoch::{EpochModel, EpochSnapshot, EpochTransition};
use crate::error::{TryBuildError, TryReserveError};
use crate::hashing::{self, Equivalent, HashBuilder};
use crate::reserve::ReserveFraction;
use crate::slots::SlotEntry;

verus! {

/// The stored key that a lookup value stands for.
pub open spec fn stored<K: Eq, V, Q: Equivalent<K>>(entries: Map<K, V>, query: Q) -> Option<K> {
    if exists|key: K| entries.contains_key(key) && #[trigger] query.stands_for(key) {
        Some(choose|key: K| entries.contains_key(key) && #[trigger] query.stands_for(key))
    } else {
        None
    }
}

/// The value stored for a lookup value.
pub open spec fn looked_up<K: Eq, V, Q: Equivalent<K>>(entries: Map<K, V>, query: Q) -> Option<V> {
    match stored(entries, query) {
        Some(key) => Some(entries[key]),
        None => None,
    }
}

/// The entries after inserting: an equal stored key stays and takes the new
/// value, else the new key is stored.
pub open spec fn put<K: Eq, V>(entries: Map<K, V>, key: K, value: V) -> Map<K, V> {
    match stored(entries, key) {
        Some(present) => entries.insert(present, value),
        None => entries.insert(key, value),
    }
}

/// No two stored keys are equal.
pub open spec fn distinct<K: Eq, V>(entries: Map<K, V>) -> bool {
    forall|left: K, right: K|
        entries.contains_key(left) && entries.contains_key(right) && #[trigger] hashing::same_key(
            left,
            right,
        ) ==> left == right
}

/// Whether a hash and a fingerprint belong to a lookup value: every key that it
/// stands for has that hash, and they are all equal.
pub open spec fn hashes_to<K: Eq, Q: Equivalent<K>, S: HashBuilder<K>>(
    builder: S,
    query: Q,
    hash: u64,
) -> bool {
    &&& Q::obeys()
    &&& forall|key: K| #[trigger] query.stands_for(key) ==> builder.hash_of(key) == hash
    &&& forall|left: K, right: K|
        (#[trigger] query.stands_for(left) && #[trigger] query.stands_for(right))
            ==> hashing::same_key(left, right)
}

/// The lifecycle after a rebuild, which counts as a placement recovery if it
/// left an entry off its probe order.
pub open spec fn rebuilt(
    before: EpochModel,
    cause: EpochTransition,
    exceptional: bool,
) -> EpochModel {
    if exceptional {
        before.recovered(cause)
    } else {
        before.started(cause)
    }
}

/// Whether one map holds clones of the entries of another, one for one.
pub open spec fn all_cloned<K: Clone, V: Clone>(before: Map<K, V>, after: Map<K, V>) -> bool {
    &&& before.len() == after.len()
    &&& forall|key: K|
        #[trigger] before.contains_key(key) ==> exists|copy: K|
            after.contains_key(copy) && #[trigger] cloned::<K>(key, copy) && cloned::<V>(
                before[key],
                after[copy],
            )
    &&& forall|copy: K|
        #[trigger] after.contains_key(copy) ==> exists|key: K|
            before.contains_key(key) && #[trigger] cloned::<K>(key, copy) && cloned::<V>(
                before[key],
                after[copy],
            )
}

/// A clone of a key is equal to it.
pub open spec fn clones_are_equal<K: Eq + Clone>() -> bool {
    forall|key: K, copy: K| #[trigger] cloned::<K>(key, copy) ==> hashing::same_key(key, copy)
}

/// Clones of a hash builder hash keys as it does.
pub open spec fn clones_hash_alike<K, S: HashBuilder<K> + Clone>(builder: S) -> bool {
    forall|copy: S, key: K|
        cloned::<S>(builder, copy) ==> #[trigger] copy.hash_of(key) == builder.hash_of(key)
}

/// What a table's contracts speak of.
pub trait TableModel<K: Eq, V>: Sized {
    /// Identifies an occupied slot of this table, until the table next changes
    /// its structure.
    type Location: Copy;

    /// Builds the hashes of the stored keys.
    type Hasher: HashBuilder<K>;

    /// Progress of a scan over the occupied slots.
    type Scan: Copy;

    /// The table's invariant.
    spec fn wf(&self) -> bool;

    /// The stored entries.
    spec fn entries(&self) -> Map<K, V>;

    /// The key at a live location.
    spec fn key_at(&self, loc: Self::Location) -> Option<K>;

    /// Whether a location holds a tombstone.
    spec fn buried_at(&self, loc: Self::Location) -> bool;

    /// The hash builder.
    spec fn builder(&self) -> Self::Hasher;

    /// The backing slots, including reserved ones.
    spec fn slot_count(&self) -> nat;

    /// The reserve fraction.
    spec fn fraction(&self) -> ReserveFraction;

    /// The allocation epoch.
    spec fn lifecycle(&self) -> EpochModel;

    /// Why a table of so many slots cannot be laid out, if it cannot.
    spec fn refusal(slots: nat, reserve: ReserveFraction) -> Option<TryReserveError>;

    /// The slots of a table built for `capacity` entries, or why there is none.
    spec fn build_slots(capacity: nat, reserve: ReserveFraction) -> Result<nat, TryBuildError>;

    /// The slots that a table of `slots` slots grows to for `needed` entries.
    spec fn growth(slots: nat, needed: nat, reserve: ReserveFraction) -> Option<nat>;

    /// The slots that a full table of `slots` slots grows to for one more entry.
    spec fn enlarged(slots: nat, reserve: ReserveFraction) -> Option<nat>;

    /// The slots that a table shrinks to for `requested` entries, if it had more.
    spec fn shrunk(requested: nat, reserve: ReserveFraction) -> Option<nat>;

    /// The stored entries, in slot order.
    spec fn listed(&self) -> Seq<SlotEntry<K, V>>;

    /// Where the construction places a new key, if it has a place for it.
    spec fn place_of_new(&self, key: K) -> Option<Self::Location>;

    /// Whether a location is the first free slot, in slot order.
    spec fn is_first_free(&self, loc: Self::Location) -> bool;

    /// Whether a table with no place for a new key is rebuilt before it stores it.
    spec fn rebuilds_to_recover() -> bool;

    /// Whether some entry stands off its probe order.
    spec fn exceptional(&self) -> bool;

    /// Whether removing the entry at a location leaves too many tombstones.
    spec fn cleanup_after(&self, loc: Self::Location) -> bool;

    /// Whether the table holds too many tombstones.
    spec fn cleanup_due(&self) -> bool;

    /// Whether the table would hold too many tombstones with the entries of some keys
    /// removed.
    spec fn cleanup_due_without(&self, gone: Set<K>) -> bool;

    /// Whether a scan belongs to this table.
    spec fn scanning(&self, scan: Self::Scan) -> bool;

    /// Whether a scan is still to yield a key.
    spec fn pending(&self, scan: Self::Scan, key: K) -> bool;
}

/// What follows from a table's model.
pub trait TableFacts<K: Eq, V>: TableModel<K, V> {
    /// The live entries that fit before the table must grow.
    spec fn limit(&self) -> int;

    /// Whether one more entry can be stored, with growth where it is needed.
    spec fn has_room(&self) -> bool;

    /// The slots after storing one more entry.
    spec fn slots_for_one_more(&self) -> nat;

    /// Whether this table has the entries, the places and the settings of another.
    spec fn same_storage(&self, other: &Self) -> bool;

    /// Whether this table places keys, lists entries and calls for cleanups as another.
    spec fn acts_like(&self, other: &Self) -> bool;

    /// Whether the keys stand as in another table, and a new one at a location that
    /// was free.
    spec fn gained_at(&self, before: &Self, key: K, loc: Self::Location) -> bool;

    /// Whether this table is another with a new entry: its key stands where the
    /// construction places it, or in the first free slot if there is no such place,
    /// and no other key has moved.
    spec fn gained(&self, before: &Self, key: K, value: V) -> bool;

    /// Whether this table has the settings of another, so many slots and no entries.
    spec fn blank_like(&self, before: &Self, slots: nat) -> bool;

    /// Whether a table is the one before it with the next entry of a list.
    spec fn fills_at(stages: Seq<Self>, listed: Seq<SlotEntry<K, V>>, i: int) -> bool;

    /// Whether tables show how a list of entries fills the first of them, one entry
    /// after another.
    spec fn fills(stages: Seq<Self>, listed: Seq<SlotEntry<K, V>>) -> bool;

    /// Whether this table is a blank one of so many slots into which the entries of
    /// another were stored in slot order.
    spec fn refilled(&self, before: &Self, slots: nat) -> bool;

    /// Whether this table is another rebuilt with so many slots, in a new epoch.
    spec fn rebuilt_from(&self, before: &Self, slots: nat, cause: EpochTransition) -> bool;

    /// Whether this table is another, which had room, after storing a new key. Where
    /// the construction has no place for it, a placement recovery is counted.
    spec fn settled_from(&self, before: &Self, key: K, value: V) -> bool;

    /// Whether this table is another after storing a new key: a full table is rebuilt
    /// with more slots first.
    spec fn placed_from(&self, before: &Self, key: K, value: V) -> bool;

    /// Whether every key that is still stored stands as in another table, and the others
    /// have left tombstones.
    spec fn kept_places(&self, before: &Self) -> bool;

    /// Whether this table has the settings of another and some of its keys, none of
    /// which has moved.
    spec fn thinned(&self, before: &Self) -> bool;

    /// Whether this table is another without the entry at a location, where the
    /// others have not moved.
    spec fn lost(&self, before: &Self, loc: Self::Location) -> bool;

    /// Whether this table is another after removing the entry at a location: it is
    /// rebuilt if that leaves too many tombstones, and no other key moves else.
    spec fn removed_from(&self, before: &Self, loc: Self::Location) -> bool;

    /// Whether this table is another after the cleanup that is due in it, if one is.
    spec fn cleaned_from(&self, before: &Self) -> bool;

    /// The slots after shrinking toward `min_capacity` entries; `None` where no
    /// table for them can be laid out.
    spec fn slots_after_shrinking(&self, min_capacity: nat) -> Option<nat>;

    /// Whether everything but the values is as in another table.
    spec fn same_frame(&self, other: &Self) -> bool;

    /// The slots of this table with room made for `additional` more entries.
    spec fn room_for(&self, additional: nat) -> Option<nat>;

    /// Whether this is another table with room made for `additional` more entries.
    spec fn reserved_from(&self, before: &Self, additional: nat) -> bool;

    /// Whether room can be made for `additional` more entries, memory permitting.
    spec fn can_reserve(&self, additional: nat) -> bool;

    /// Whether this table is newly built for `capacity` entries.
    spec fn built(&self, capacity: nat, reserve: ReserveFraction, builder: Self::Hasher) -> bool;
}

impl<K: Eq, V, P: TableModel<K, V>> TableFacts<K, V> for P {
    open spec fn limit(&self) -> int {
        capacity::insertion_limit(self.slot_count(), self.fraction())
    }

    open spec fn has_room(&self) -> bool {
        self.entries().len() < self.limit() || {
            &&& Self::enlarged(self.slot_count(), self.fraction()) matches Some(grown)
            &&& Self::refusal(grown, self.fraction()) is None
        }
    }

    open spec fn slots_for_one_more(&self) -> nat {
        if self.entries().len() < self.limit() {
            self.slot_count()
        } else {
            Self::enlarged(self.slot_count(), self.fraction())->0
        }
    }

    open spec fn same_storage(&self, other: &Self) -> bool {
        &&& self.wf()
        &&& self.entries() == other.entries()
        &&& self.builder() == other.builder()
        &&& self.fraction() == other.fraction()
        &&& self.slot_count() == other.slot_count()
        &&& self.exceptional() == other.exceptional()
        &&& forall|loc: Self::Location| #[trigger] self.key_at(loc) == other.key_at(loc)
        &&& forall|loc: Self::Location| #[trigger] self.buried_at(loc) == other.buried_at(loc)
    }

    open spec fn acts_like(&self, other: &Self) -> bool {
        &&& self.listed() == other.listed()
        &&& self.cleanup_due() == other.cleanup_due()
        &&& forall|key: K| #[trigger] self.place_of_new(key) == other.place_of_new(key)
        &&& forall|loc: Self::Location|
            #[trigger] self.is_first_free(loc) == other.is_first_free(loc)
        &&& forall|loc: Self::Location|
            #![trigger self.cleanup_after(loc)]
            self.key_at(loc) is Some ==> self.cleanup_after(loc) == other.cleanup_after(loc)
    }

    open spec fn gained_at(&self, before: &Self, key: K, loc: Self::Location) -> bool {
        &&& before.key_at(loc) is None
        &&& forall|other: Self::Location| #[trigger]
            self.key_at(other) == if other == loc {
                Some(key)
            } else {
                before.key_at(other)
            }
        &&& forall|other: Self::Location| #[trigger]
            self.buried_at(other) == (other != loc && before.buried_at(other))
    }

    open spec fn gained(&self, before: &Self, key: K, value: V) -> bool {
        &&& self.wf()
        &&& self.entries() == before.entries().insert(key, value)
        &&& self.builder() == before.builder()
        &&& self.fraction() == before.fraction()
        &&& self.slot_count() == before.slot_count()
        &&& self.exceptional() == (before.exceptional() || before.place_of_new(key) is None)
        &&& match before.place_of_new(key) {
            Some(loc) => self.gained_at(before, key, loc),
            None => exists|loc: Self::Location| #[trigger]
                before.is_first_free(loc) && self.gained_at(before, key, loc),
        }
    }

    open spec fn blank_like(&self, before: &Self, slots: nat) -> bool {
        &&& self.wf()
        &&& self.entries() == Map::<K, V>::empty()
        &&& self.builder() == before.builder()
        &&& self.fraction() == before.fraction()
        &&& self.slot_count() == slots
        &&& !self.exceptional()
        &&& forall|loc: Self::Location| !#[trigger] self.buried_at(loc)
    }

    open spec fn fills_at(stages: Seq<Self>, listed: Seq<SlotEntry<K, V>>, i: int) -> bool {
        stages[i + 1].gained(&stages[i], listed[i].key, listed[i].value)
    }

    open spec fn fills(stages: Seq<Self>, listed: Seq<SlotEntry<K, V>>) -> bool {
        &&& stages.len() == listed.len() + 1
        &&& forall|i: int| 0 <= i < listed.len() ==> #[trigger] Self::fills_at(stages, listed, i)
    }

    open spec fn refilled(&self, before: &Self, slots: nat) -> bool {
        &&& self.entries() == before.entries()
        &&& exists|stages: Seq<Self>| #[trigger]
            Self::fills(stages, before.listed()) && stages[0].blank_like(before, slots)
                && self.same_storage(&stages.last())
    }

    open spec fn rebuilt_from(&self, before: &Self, slots: nat, cause: EpochTransition) -> bool {
        &&& self.wf()
        &&& self.entries() == before.entries()
        &&& self.builder() == before.builder()
        &&& self.fraction() == before.fraction()
        &&& self.slot_count() == slots
        &&& self.refilled(before, slots)
        &&& self.lifecycle() == rebuilt(before.lifecycle(), cause, self.exceptional())
    }

    open spec fn settled_from(&self, before: &Self, key: K, value: V) -> bool {
        match before.place_of_new(key) {
            Some(_) => self.gained(before, key, value) && self.lifecycle() == before.lifecycle(),
            None => {
                &&& self.lifecycle() == before.lifecycle().recovered(
                    EpochTransition::PlacementRecovery,
                )
                &&& if Self::rebuilds_to_recover() {
                    exists|again: Self| #[trigger]
                        again.refilled(before, before.slot_count()) && self.gained(
                            &again,
                            key,
                            value,
                        )
                } else {
                    self.gained(before, key, value)
                }
            },
        }
    }

    open spec fn placed_from(&self, before: &Self, key: K, value: V) -> bool {
        if before.entries().len() < before.limit() {
            self.settled_from(before, key, value)
        } else {
            exists|grown: Self| #[trigger]
                grown.rebuilt_from(before, before.slots_for_one_more(), EpochTransition::Growth)
                    && self.settled_from(&grown, key, value)
        }
    }

    open spec fn kept_places(&self, before: &Self) -> bool {
        &&& forall|loc: Self::Location| #[trigger]
            self.key_at(loc) == match before.key_at(loc) {
                Some(key) => if self.entries().contains_key(key) {
                    Some(key)
                } else {
                    None
                },
                None => None,
            }
        &&& forall|loc: Self::Location| #[trigger]
            self.buried_at(loc) == (before.buried_at(loc) || before.key_at(loc) is Some
                && self.key_at(loc) is None)
    }

    open spec fn thinned(&self, before: &Self) -> bool {
        &&& self.wf()
        &&& self.entries().dom().subset_of(before.entries().dom())
        &&& self.builder() == before.builder()
        &&& self.fraction() == before.fraction()
        &&& self.slot_count() == before.slot_count()
        &&& self.exceptional() == before.exceptional()
        &&& self.kept_places(before)
    }

    open spec fn lost(&self, before: &Self, loc: Self::Location) -> bool {
        &&& self.wf()
        &&& self.entries() == before.entries().remove(before.key_at(loc)->0)
        &&& self.builder() == before.builder()
        &&& self.fraction() == before.fraction()
        &&& self.slot_count() == before.slot_count()
        &&& self.exceptional() == before.exceptional()
        &&& self.lifecycle() == before.lifecycle().deleted()
        &&& self.kept_places(before)
    }

    open spec fn removed_from(&self, before: &Self, loc: Self::Location) -> bool {
        if before.cleanup_after(loc) {
            exists|left: Self| #[trigger]
                left.lost(before, loc) && self.rebuilt_from(
                    &left,
                    before.slot_count(),
                    EpochTransition::TombstoneCleanup,
                )
        } else {
            self.lost(before, loc)
        }
    }

    open spec fn cleaned_from(&self, before: &Self) -> bool {
        if before.cleanup_due() {
            self.rebuilt_from(before, before.slot_count(), EpochTransition::TombstoneCleanup)
        } else {
            self.same_storage(before) && self.lifecycle() == before.lifecycle()
        }
    }

    open spec fn slots_after_shrinking(&self, min_capacity: nat) -> Option<nat> {
        let live = self.entries().len();
        if live == 0 && min_capacity == 0 {
            Some(0)
        } else {
            match Self::shrunk(if live >= min_capacity { live } else { min_capacity }, self.fraction()) {
                Some(slots) => Some(
                    if slots < self.slot_count() {
                        slots
                    } else {
                        self.slot_count()
                    },
                ),
                None => None,
            }
        }
    }

    open spec fn same_frame(&self, other: &Self) -> bool {
        &&& self.builder() == other.builder()
        &&& self.slot_count() == other.slot_count()
        &&& self.fraction() == other.fraction()
        &&& self.lifecycle() == other.lifecycle()
        &&& self.exceptional() == other.exceptional()
        &&& forall|loc: Self::Location| #[trigger] self.key_at(loc) == other.key_at(loc)
        &&& forall|loc: Self::Location| #[trigger] self.buried_at(loc) == other.buried_at(loc)
    }

    open spec fn room_for(&self, additional: nat) -> Option<nat> {
        let needed = saturated(self.entries().len() + additional);
        if needed <= self.limit() {
            Some(self.slot_count())
        } else {
            Self::growth(self.slot_count(), needed, self.fraction())
        }
    }

    open spec fn reserved_from(&self, before: &Self, additional: nat) -> bool {
        let needed = saturated(before.entries().len() + additional);
        &&& self.entries() == before.entries()
        &&& self.builder() == before.builder()
        &&& self.fraction() == before.fraction()
        &&& self.limit() >= needed
        &&& before.room_for(additional) == Some(self.slot_count())
        &&& if needed <= before.limit() {
            self == before
        } else {
            self.rebuilt_from(before, self.slot_count(), EpochTransition::ExplicitResize)
        }
    }

    open spec fn can_reserve(&self, additional: nat) -> bool {
        &&& self.room_for(additional) matches Some(slots)
        &&& slots == self.slot_count() || Self::refusal(slots, self.fraction()) is None
    }

    open spec fn built(&self, capacity: nat, reserve: ReserveFraction, builder: Self::Hasher) -> bool {
        &&& self.wf()
        &&& self.entries() == Map::<K, V>::empty()
        &&& Self::build_slots(capacity, reserve) == Ok::<nat, TryBuildError>(self.slot_count())
        &&& self.limit() >= capacity
        &&& self.fraction() == reserve
        &&& self.builder() == builder
        &&& self.lifecycle() == EpochModel::fresh()
        &&& !self.exceptional()
        &&& forall|loc: Self::Location| !#[trigger] self.buried_at(loc)
    }
}

/// Storage behind a map: lookup, insertion, removal, iteration and lifecycle.
pub trait TableBackend<K: Eq, V>: TableModel<K, V> {
    /// What the invariant says in terms of the model.
    proof fn lemma_wf(&self)
        requires
            self.wf(),
        ensures
            self.entries().dom().finite(),
            self.entries().len() <= self.limit(),
            self.fraction().wf(),
            self.slot_count() <= usize::MAX,
            hashing::lawful_keys::<K>(),
            hashing::lawful_hashing::<K, Self::Hasher>(self.builder()),
            distinct(self.entries()),
            forall|loc: Self::Location|
                (#[trigger] self.key_at(loc)) matches Some(key) ==> self.entries().contains_key(key),
    ;

    /// When tombstones are too many.
    proof fn lemma_cleanup(&self)
        requires
            self.wf(),
        ensures
            self.cleanup_due_without(Set::empty()) == self.cleanup_due(),
            forall|loc: Self::Location|
                #![trigger self.cleanup_after(loc)]
                self.key_at(loc) is Some ==> self.cleanup_due_without(
                    set![self.key_at(loc)->0],
                ) == (self.cleanup_due() || self.cleanup_after(loc)),
    ;

    /// One tombstone more makes a cleanup due only where the removal that left it calls
    /// for one.
    proof fn lemma_lost(&self, before: &Self, loc: Self::Location)
        requires
            before.wf(),
            before.key_at(loc) is Some,
            self.lost(before, loc),
        ensures
            self.cleanup_due() ==> before.cleanup_due() || before.cleanup_after(loc),
    ;

    /// Without tombstones no cleanup is due.
    proof fn lemma_clean(&self)
        requires
            self.wf(),
            forall|loc: Self::Location| !#[trigger] self.buried_at(loc),
        ensures
            !self.cleanup_due(),
    ;

    /// The entries and their places, the tombstones and the settings decide how a table
    /// acts, and no two slots are the first free one.
    proof fn lemma_storage_decides(&self, other: &Self)
        requires
            self.same_storage(other),
            other.wf(),
        ensures
            self.acts_like(other),
            forall|left: Self::Location, right: Self::Location| #[trigger]
                self.is_first_free(left) && #[trigger] self.is_first_free(right) ==> left == right,
    ;

    /// What the geometry says of growth.
    proof fn lemma_growth(slots: nat, needed: nat, reserve: ReserveFraction)
        requires
            reserve.wf(),
        ensures
            Self::growth(slots, needed, reserve) matches Some(grown)
                ==> capacity::insertion_limit(grown, reserve) >= needed && grown <= usize::MAX,
    ;

    /// A full table that grows at least doubles its insertion limit, but for a rounding
    /// of one, and gains room.
    proof fn lemma_enlarged(slots: nat, reserve: ReserveFraction)
        requires
            reserve.wf(),
            2 * slots <= usize::MAX,
        ensures
            Self::enlarged(slots, reserve) matches Some(grown) ==> {
                &&& capacity::insertion_limit(grown, reserve) + 1 >= 2 * capacity::insertion_limit(
                    slots,
                    reserve,
                )
                &&& capacity::insertion_limit(grown, reserve) > capacity::insertion_limit(
                    slots,
                    reserve,
                )
                &&& grown <= usize::MAX
            },
    ;

    /// Returns the hash builder.
    fn hasher(&self) -> (result: &Self::Hasher)
        ensures
            *result == self.builder(),
    ;

    /// Returns the number of live entries.
    fn len(&self) -> (result: usize)
        requires
            self.wf(),
        ensures
            result == self.entries().len(),
    ;

    /// Returns the live-entry limit before resizing.
    fn capacity(&self) -> (result: usize)
        requires
            self.wf(),
        ensures
            result == self.limit(),
    ;

    /// Returns the backing slot count, including reserved slots.
    fn total_slots(&self) -> (result: usize)
        requires
            self.wf(),
        ensures
            result == self.slot_count(),
    ;

    /// Returns the exact reserve fraction fixed for this allocation epoch.
    fn reserve_config(&self) -> (result: ReserveFraction)
        requires
            self.wf(),
        ensures
            result == self.fraction(),
    ;

    /// Returns the current allocation epoch.
    fn epoch_snapshot(&self) -> (result: EpochSnapshot)
        requires
            self.wf(),
        ensures
            result == self.lifecycle().snapshot(self.entries().len()),
    ;

    /// Borrows the entry at a live location.
    fn slot_ref(&self, loc: Self::Location) -> (result: &SlotEntry<K, V>)
        requires
            self.wf(),
            self.key_at(loc) is Some,
        ensures
            self.key_at(loc) == Some(result.key),
            self.entries()[result.key] == result.value,
    ;

    /// Borrows the key and, for change in place, the value at a live location.
    fn pair_mut(&mut self, loc: Self::Location) -> (result: (&K, &mut V))
        requires
            old(self).wf(),
            old(self).key_at(loc) is Some,
        ensures
            *result.0 == old(self).key_at(loc)->0,
            *result.1 == old(self).entries()[old(self).key_at(loc)->0],
            final(self).wf(),
            final(self).entries() == old(self).entries().insert(
                old(self).key_at(loc)->0,
                *final(result.1),
            ),
            final(self).builder() == old(self).builder(),
            final(self).slot_count() == old(self).slot_count(),
            final(self).fraction() == old(self).fraction(),
            final(self).lifecycle() == old(self).lifecycle(),
            final(self).exceptional() == old(self).exceptional(),
            final(self).cleanup_due() == old(self).cleanup_due(),
            forall|gone: Set<K>| #[trigger]
                final(self).cleanup_due_without(gone) == old(self).cleanup_due_without(gone),
            forall|other: Self::Location|
                #[trigger] final(self).key_at(other) == old(self).key_at(other),
            forall|other: Self::Location|
                #[trigger] final(self).buried_at(other) == old(self).buried_at(other),
            forall|scan: Self::Scan|
                #[trigger] final(self).scanning(scan) == old(self).scanning(scan),
            forall|scan: Self::Scan, key: K|
                #[trigger] final(self).pending(scan, key) == old(self).pending(scan, key),
    ;

    /// Borrows several live locations at once: the key and, for change in place,
    /// the value of each.
    fn pairs_mut<'a>(&'a mut self, locs: &[Option<Self::Location>]) -> (result: Vec<
        Option<(&'a K, &'a mut V)>,
    >)
        requires
            old(self).wf(),
            forall|i: int|
                0 <= i < locs@.len() ==> ((#[trigger] locs@[i]) matches Some(loc) ==> old(self).key_at(
                    loc,
                ) is Some),
            forall|i: int, j: int|
                0 <= i < j < locs@.len() && (#[trigger] locs@[i]) is Some && (
                #[trigger] locs@[j]) is Some ==> old(self).key_at(locs@[i]->0) != old(self).key_at(
                    locs@[j]->0,
                ),
        ensures
            result@.len() == locs@.len(),
            final(self).wf(),
            final(self).builder() == old(self).builder(),
            final(self).slot_count() == old(self).slot_count(),
            final(self).fraction() == old(self).fraction(),
            final(self).lifecycle() == old(self).lifecycle(),
            final(self).exceptional() == old(self).exceptional(),
            forall|other: Self::Location|
                #[trigger] final(self).key_at(other) == old(self).key_at(other),
            forall|other: Self::Location|
                #[trigger] final(self).buried_at(other) == old(self).buried_at(other),
            final(self).entries().dom() == old(self).entries().dom(),
            forall|i: int|
                0 <= i < locs@.len() ==> match #[trigger] locs@[i] {
                    Some(loc) => {
                        &&& result@[i] is Some
                        &&& *(result@[i]->0).0 == old(self).key_at(loc)->0
                        &&& *(result@[i]->0).1 == old(self).entries()[old(self).key_at(loc)->0]
                        &&& final(self).entries()[old(self).key_at(loc)->0] == *final((result@[i]->0).1)
                    },
                    None => result@[i] is None,
                },
            forall|key: K| #[trigger]
                old(self).entries().contains_key(key) && (forall|i: int|
                    0 <= i < locs@.len() && (#[trigger] locs@[i]) is Some ==> old(self).key_at(
                        locs@[i]->0,
                    ) != Some(key)) ==> final(self).entries()[key] == old(self).entries()[key],
    ;

    /// Replaces the value at a live location and returns the previous one.
    fn replace_value(&mut self, loc: Self::Location, value: V) -> (result: V)
        requires
            old(self).wf(),
            old(self).key_at(loc) is Some,
        ensures
            result == old(self).entries()[old(self).key_at(loc)->0],
            final(self).wf(),
            final(self).entries() == old(self).entries().insert(old(self).key_at(loc)->0, value),
            final(self).same_frame(old(self)),
    {
        let mut previous: V = value;
        core::mem::swap(self.pair_mut(loc).1, &mut previous);
        previous
    }

    /// Finds the slot of a key by its hash and fingerprint.
    fn find<Q: Equivalent<K>>(&self, key: &Q, hash: u64, fingerprint: u8) -> (result: Option<
        Self::Location,
    >)
        requires
            self.wf(),
            hashes_to::<K, Q, Self::Hasher>(self.builder(), *key, hash),
            fingerprint == control::fingerprint(hash),
        ensures
            match result {
                Some(loc) => self.key_at(loc) == stored(self.entries(), *key) && self.key_at(
                    loc,
                ) is Some,
                None => stored(self.entries(), *key) is None,
            },
    ;

    /// Finds and borrows the entry of a key by its hash and fingerprint.
    fn find_entry<Q: Equivalent<K>>(&self, key: &Q, hash: u64, fingerprint: u8) -> (result: Option<
        &SlotEntry<K, V>,
    >)
        requires
            self.wf(),
            hashes_to::<K, Q, Self::Hasher>(self.builder(), *key, hash),
            fingerprint == control::fingerprint(hash),
        ensures
            match result {
                Some(entry) => stored(self.entries(), *key) == Some(entry.key)
                    && self.entries()[entry.key] == entry.value,
                None => stored(self.entries(), *key) is None,
            },
    {
        match self.find(key, hash, fingerprint) {
            Some(loc) => Some(self.slot_ref(loc)),
            None => None,
        }
    }

    /// Whether one more entry can be stored, with growth where it is needed.
    fn takes_one_more(&self) -> (result: bool)
        requires
            self.wf(),
        ensures
            result == self.has_room(),
    ;

    /// Inserts a known-absent key, growing as needed, and returns its location.
    fn insert_for_vacant(&mut self, key: K, value: V, hash: u64) -> (result: Self::Location)
        requires
            old(self).wf(),
            hash == old(self).builder().hash_of(key),
            stored(old(self).entries(), key) is None,
            old(self).has_room(),
        ensures
            final(self).wf(),
            final(self).entries() == old(self).entries().insert(key, value),
            final(self).key_at(result) == Some(key),
            final(self).builder() == old(self).builder(),
            final(self).fraction() == old(self).fraction(),
            final(self).slot_count() == old(self).slots_for_one_more(),
            final(self).placed_from(old(self), key, value),
    ;

    /// Inserts `key` and `value` and returns the previous value.
    fn insert(&mut self, key: K, value: V, hash: u64) -> (result: Option<V>)
        requires
            old(self).wf(),
            hash == old(self).builder().hash_of(key),
            stored(old(self).entries(), key) is Some || old(self).has_room(),
        ensures
            final(self).wf(),
            result == looked_up(old(self).entries(), key),
            final(self).entries() == put(old(self).entries(), key, value),
            stored(old(self).entries(), key) is Some ==> final(self).same_frame(old(self)),
            stored(old(self).entries(), key) is None ==> {
                &&& final(self).builder() == old(self).builder()
                &&& final(self).fraction() == old(self).fraction()
                &&& final(self).slot_count() == old(self).slots_for_one_more()
                &&& final(self).placed_from(old(self), key, value)
            },
    ;

    /// Removes the entry at a live location, and rebuilds the table if it holds
    /// too many tombstones.
    fn remove(&mut self, loc: Self::Location) -> (result: (K, V))
        requires
            old(self).wf(),
            old(self).key_at(loc) is Some,
        ensures
            final(self).wf(),
            old(self).key_at(loc) == Some(result.0),
            result.1 == old(self).entries()[result.0],
            final(self).entries() == old(self).entries().remove(result.0),
            final(self).builder() == old(self).builder(),
            final(self).fraction() == old(self).fraction(),
            final(self).slot_count() == old(self).slot_count(),
            final(self).removed_from(old(self), loc),
    ;

    /// Moves the entry at a live location out and leaves a tombstone, without
    /// rebuilding, so that a scan that has passed the location goes on.
    fn extract_finish(&mut self, loc: Self::Location) -> (result: (K, V))
        requires
            old(self).wf(),
            old(self).key_at(loc) is Some,
        ensures
            final(self).wf(),
            old(self).key_at(loc) == Some(result.0),
            result.1 == old(self).entries()[result.0],
            final(self).entries() == old(self).entries().remove(result.0),
            final(self).builder() == old(self).builder(),
            final(self).fraction() == old(self).fraction(),
            final(self).slot_count() == old(self).slot_count(),
            final(self).lost(old(self), loc),
            forall|gone: Set<K>|
                gone.subset_of(final(self).entries().dom())
                    ==> #[trigger] final(self).cleanup_due_without(gone)
                    == old(self).cleanup_due_without(gone.insert(result.0)),
            forall|scan: Self::Scan|
                old(self).scanning(scan) && !old(self).pending(scan, result.0)
                    ==> #[trigger] final(self).scanning(scan),
            forall|scan: Self::Scan, key: K|
                old(self).scanning(scan) && !old(self).pending(scan, result.0) ==> (
                #[trigger] final(self).pending(scan, key) <==> old(self).pending(scan, key)),
    ;

    /// Completes maintenance deferred while a bulk removal was active.
    fn finish_deferred_removals(&mut self)
        requires
            old(self).wf(),
        ensures
            final(self).wf(),
            final(self).entries() == old(self).entries(),
            final(self).builder() == old(self).builder(),
            final(self).fraction() == old(self).fraction(),
            final(self).slot_count() == old(self).slot_count(),
            final(self).cleaned_from(old(self)),
    ;

    /// Starts a scan before the first occupied slot.
    fn scan(&self) -> (result: Self::Scan)
        requires
            self.wf(),
        ensures
            self.scanning(result),
            forall|key: K| #[trigger]
                self.pending(result, key) <==> self.entries().contains_key(key),
    ;

    /// Advances a scan to the next occupied slot.
    fn scan_next(&self, scan: &mut Self::Scan) -> (result: Option<Self::Location>)
        requires
            self.wf(),
            self.scanning(*old(scan)),
        ensures
            self.scanning(*final(scan)),
            match result {
                Some(loc) => {
                    &&& self.key_at(loc) is Some
                    &&& self.pending(*old(scan), self.key_at(loc)->0)
                    &&& forall|key: K| #[trigger]
                        self.pending(*final(scan), key) <==> self.pending(*old(scan), key) && key
                            != self.key_at(loc)->0
                },
                None => forall|key: K|
                    !self.pending(*old(scan), key) && !#[trigger] self.pending(*final(scan), key),
            },
    ;

    /// Computes the slot count for `needed` live entries, or `None` if none is
    /// representable.
    fn grow_capacity_for(&self, needed: usize) -> (result: Option<usize>)
        requires
            self.wf(),
        ensures
            match result {
                Some(slots) => Self::growth(self.slot_count(), needed as nat, self.fraction())
                    == Some(slots as nat),
                None => Self::growth(self.slot_count(), needed as nat, self.fraction()) is None,
            },
    ;

    /// Reallocates to `new_capacity` slots and reinserts every entry.
    fn resize(&mut self, new_capacity: usize)
        requires
            old(self).wf(),
            Self::refusal(new_capacity as nat, old(self).fraction()) is None,
            old(self).entries().len() <= capacity::insertion_limit(
                new_capacity as nat,
                old(self).fraction(),
            ),
        ensures
            final(self).rebuilt_from(
                old(self),
                new_capacity as nat,
                EpochTransition::ExplicitResize,
            ),
    ;

    /// Attempts to resize while leaving the table as it was on `Err`.
    fn try_resize(&mut self, new_capacity: usize) -> (result: Result<(), TryReserveError>)
        requires
            old(self).wf(),
            old(self).entries().len() <= capacity::insertion_limit(
                new_capacity as nat,
                old(self).fraction(),
            ),
        ensures
            match result {
                Ok(_) => {
                    &&& Self::refusal(new_capacity as nat, old(self).fraction()) is None
                    &&& final(self).rebuilt_from(
                        old(self),
                        new_capacity as nat,
                        EpochTransition::ExplicitResize,
                    )
                },
                Err(error) => *final(self) == *old(self) && match Self::refusal(
                    new_capacity as nat,
                    old(self).fraction(),
                ) {
                    Some(refusal) => error == refusal,
                    None => new_capacity > 0 && error == TryReserveError::AllocError,
                },
            },
    ;

    /// Ensures room for `additional` entries.
    fn reserve(&mut self, additional: usize)
        requires
            old(self).wf(),
            old(self).can_reserve(additional as nat),
        ensures
            final(self).wf(),
            final(self).reserved_from(old(self), additional as nat),
    {
        proof {
            self.lemma_wf();
            Self::lemma_growth(
                self.slot_count(),
                saturated(self.entries().len() + additional as nat),
                self.fraction(),
            );
        }
        let needed: usize = self.len().saturating_add(additional);
        if needed <= self.capacity() {
            return;
        }
        if let Some(new_capacity) = self.grow_capacity_for(needed) {
            self.resize(new_capacity);
        }
    }

    /// Attempts to reserve room for `additional` entries.
    fn try_reserve(&mut self, additional: usize) -> (result: Result<(), TryReserveError>)
        requires
            old(self).wf(),
        ensures
            match result {
                Ok(_) => {
                    &&& old(self).entries().len() + additional <= usize::MAX
                    &&& final(self).wf()
                    &&& old(self).room_for(additional as nat) is Some
                    &&& final(self).reserved_from(old(self), additional as nat)
                },
                Err(error) => *final(self) == *old(self) && old(self).entries().len() + additional
                    > old(self).limit() && (if old(self).entries().len() + additional
                    > usize::MAX {
                    error == TryReserveError::CapacityOverflow
                } else {
                    match old(self).room_for(additional as nat) {
                        None => error == TryReserveError::CapacityOverflow,
                        Some(slots) => match Self::refusal(slots, old(self).fraction()) {
                            Some(refusal) => error == refusal,
                            None => error == TryReserveError::AllocError,
                        },
                    }
                }),
            },
    {
        proof {
            self.lemma_wf();
            Self::lemma_growth(
                self.slot_count(),
                saturated(self.entries().len() + additional as nat),
                self.fraction(),
            );
        }
        let needed: usize = match self.len().checked_add(additional) {
            Some(needed) => needed,
            None => {
                return Err(TryReserveError::CapacityOverflow);
            },
        };
        if needed <= self.capacity() {
            return Ok(());
        }
        match self.grow_capacity_for(needed) {
            Some(new_capacity) => self.try_resize(new_capacity),
            None => Err(TryReserveError::CapacityOverflow),
        }
    }

    /// Shrinks capacity toward `min_capacity` without dropping entries.
    fn shrink_to(&mut self, min_capacity: usize)
        requires
            old(self).wf(),
            old(self).slots_after_shrinking(min_capacity as nat) is Some,
        ensures
            final(self).wf(),
            final(self).entries() == old(self).entries(),
            final(self).builder() == old(self).builder(),
            final(self).fraction() == old(self).fraction(),
            Some(final(self).slot_count()) == old(self).slots_after_shrinking(min_capacity as nat),
            if final(self).slot_count() == old(self).slot_count() {
                *final(self) == *old(self)
            } else {
                final(self).rebuilt_from(
                    old(self),
                    final(self).slot_count(),
                    EpochTransition::ExplicitResize,
                )
            },
    ;

    /// Drops all entries while retaining the allocation.
    fn clear(&mut self)
        requires
            old(self).wf(),
        ensures
            final(self).wf(),
            final(self).entries() == Map::<K, V>::empty(),
            final(self).builder() == old(self).builder(),
            final(self).fraction() == old(self).fraction(),
            final(self).slot_count() == old(self).slot_count(),
            final(self).lifecycle() == old(self).lifecycle().started(EpochTransition::Clear),
            !final(self).exceptional(),
            forall|loc: Self::Location| !#[trigger] final(self).buried_at(loc),
    ;

    /// Empties every slot and resets the counters.
    fn wipe_all(&mut self)
        requires
            old(self).wf(),
        ensures
            final(self).wf(),
            final(self).entries() == Map::<K, V>::empty(),
            final(self).builder() == old(self).builder(),
            final(self).fraction() == old(self).fraction(),
            final(self).slot_count() == old(self).slot_count(),
            final(self).lifecycle() == old(self).lifecycle().started(EpochTransition::Clear),
            !final(self).exceptional(),
            forall|loc: Self::Location| !#[trigger] final(self).buried_at(loc),
    ;

    /// Builds a table for `capacity` entries.
    fn with_capacity_and_reserve_and_hasher(
        capacity: usize,
        reserve: ReserveFraction,
        hash_builder: Self::Hasher,
    ) -> (result: Self)
        requires
            reserve.wf(),
            hashing::lawful_keys::<K>(),
            hashing::lawful_hashing::<K, Self::Hasher>(hash_builder),
            Self::build_slots(capacity as nat, reserve) is Ok,
        ensures
            result.built(capacity as nat, reserve, hash_builder),
    ;

    /// Builds a table for `capacity` entries, or says why not.
    fn try_with_capacity_and_reserve_and_hasher(
        capacity: usize,
        reserve: ReserveFraction,
        hash_builder: Self::Hasher,
    ) -> (result: Result<Self, TryBuildError>)
        requires
            reserve.wf(),
            hashing::lawful_keys::<K>(),
            hashing::lawful_hashing::<K, Self::Hasher>(hash_builder),
        ensures
            match result {
                Ok(table) => table.built(capacity as nat, reserve, hash_builder),
                Err(error) => match Self::build_slots(capacity as nat, reserve) {
                    Ok(slots) => slots > 0 && error == TryBuildError::AllocError,
                    Err(refusal) => error == refusal,
                },
            },
    ;

    /// Clones storage, hash builder and entries.
    fn clone_table(&self) -> (result: Self) where K: Clone, V: Clone, Self::Hasher: Clone
        requires
            self.wf(),
            clones_are_equal::<K>(),
            clones_hash_alike::<K, Self::Hasher>(self.builder()),
        ensures
            result.wf(),
            all_cloned(self.entries(), result.entries()),
            cloned::<Self::Hasher>(self.builder(), result.builder()),
            result.slot_count() == self.slot_count(),
            result.fraction() == self.fraction(),
            result.lifecycle() == self.lifecycle(),
            result.exceptional() == self.exceptional(),
            forall|loc: Self::Location|
                match #[trigger] result.key_at(loc) {
                    Some(copy) => self.key_at(loc) matches Some(key) && cloned::<K>(key, copy),
                    None => self.key_at(loc) is None,
                },
            forall|loc: Self::Location| #[trigger] result.buried_at(loc) == self.buried_at(loc),
    ;
}

/// A table with the storage of one that was refilled was refilled.
pub proof fn lemma_refilled_alike<K: Eq, V, P: TableModel<K, V>>(
    before: P,
    moved: P,
    after: P,
    slots: nat,
)
    requires
        moved.refilled(&before, slots),
        after.same_storage(&moved),
    ensures
        after.refilled(&before, slots),
{
    let stages = choose|stages: Seq<P>| #[trigger]
        P::fills(stages, before.listed()) && stages[0].blank_like(&before, slots)
            && moved.same_storage(&stages.last());
    assert(P::fills(stages, before.listed()));
    assert(after.same_storage(&stages.last()));
}

/// What was refilled from a table was refilled from any with its list and settings.
pub proof fn lemma_refilled_from_alike<K: Eq, V, P: TableModel<K, V>>(
    before: P,
    alike: P,
    after: P,
    slots: nat,
)
    requires
        after.refilled(&before, slots),
        alike.listed() == before.listed(),
        alike.entries() == before.entries(),
        alike.builder() == before.builder(),
        alike.fraction() == before.fraction(),
    ensures
        after.refilled(&alike, slots),
{
    let stages = choose|stages: Seq<P>| #[trigger]
        P::fills(stages, before.listed()) && stages[0].blank_like(&before, slots)
            && after.same_storage(&stages.last());
    assert(P::fills(stages, alike.listed()));
    assert(stages[0].blank_like(&alike, slots));
}

/// Changing the value of a new key leaves it placed.
pub proof fn lemma_placed_revalued<K: Eq, V, P: TableModel<K, V>>(
    before: P,
    stored: P,
    after: P,
    key: K,
    first: V,
    value: V,
)
    requires
        stored.placed_from(&before, key, first),
        after.wf(),
        after.entries() == before.entries().insert(key, value),
        after.same_frame(&stored),
    ensures
        after.placed_from(&before, key, value),
{
    if before.entries().len() < before.limit() {
        lemma_settled_revalued(before, stored, after, key, first, value);
    } else {
        let grown = choose|grown: P| #[trigger]
            grown.rebuilt_from(&before, before.slots_for_one_more(), EpochTransition::Growth)
                && stored.settled_from(&grown, key, first);
        assert(grown.rebuilt_from(&before, before.slots_for_one_more(), EpochTransition::Growth));
        lemma_settled_revalued(grown, stored, after, key, first, value);
    }
}

/// Changing the value of a new key leaves it settled.
proof fn lemma_settled_revalued<K: Eq, V, P: TableModel<K, V>>(
    before: P,
    stored: P,
    after: P,
    key: K,
    first: V,
    value: V,
)
    requires
        stored.settled_from(&before, key, first),
        after.wf(),
        after.entries() == before.entries().insert(key, value),
        after.same_frame(&stored),
    ensures
        after.settled_from(&before, key, value),
{
    if before.place_of_new(key) is None && P::rebuilds_to_recover() {
        let again = choose|again: P| #[trigger]
            again.refilled(&before, before.slot_count()) && stored.gained(&again, key, first);
        assert(again.refilled(&before, before.slot_count()));
        lemma_gained_revalued(again, stored, after, key, first, value);
    } else {
        lemma_gained_revalued(before, stored, after, key, first, value);
    }
}

/// Changing the value of a new key leaves it where it is.
proof fn lemma_gained_revalued<K: Eq, V, P: TableModel<K, V>>(
    before: P,
    stored: P,
    after: P,
    key: K,
    first: V,
    value: V,
)
    requires
        stored.gained(&before, key, first),
        after.wf(),
        after.entries() == before.entries().insert(key, value),
        after.same_frame(&stored),
    ensures
        after.gained(&before, key, value),
{
    match before.place_of_new(key) {
        Some(loc) => {
            assert(after.gained_at(&before, key, loc));
        },
        None => {
            let loc = choose|loc: P::Location| #[trigger]
                before.is_first_free(loc) && stored.gained_at(&before, key, loc);
            assert(before.is_first_free(loc) && after.gained_at(&before, key, loc));
        },
    }
}

/// A count that stops at the largest `usize`.
pub open spec fn saturated(count: nat) -> nat {
    if count <= usize::MAX {
        count
    } else {
        usize::MAX as nat
    }
}

/// A rebuild starts one epoch under its cause, counts a recovery if and only if it left an
/// entry off its probe order, and forgets the deletes before it.
pub proof fn law_rebuilds_start_one_epoch(
    before: EpochModel,
    cause: EpochTransition,
    exceptional: bool,
)
    ensures
        rebuilt(before, cause, exceptional).transition == cause,
        before.generation < u32::MAX ==> rebuilt(before, cause, exceptional).generation
            == before.generation + 1,
        !rebuilt(before, cause, exceptional).had_delete,
        rebuilt(before, cause, exceptional).deletions == 0,
        before.recoveries < 0x0fff_ffff ==> rebuilt(before, cause, exceptional).recoveries
            == before.recoveries + (if exceptional {
            1int
        } else {
            0int
        }),
{
}

} // verus!
