//! What holds of where keys stand: within an epoch no key moves and each new key
//! goes where the construction places it, and a rebuild places every entry anew.

use vstd::prelude::*;

use crate::elastic::{ElasticLocation, ElasticTable};
use crate::epoch::{EpochTransition, RECOVERY_LIMIT};
use crate::funnel::FunnelTable;
use crate::hashing::HashBuilder;
use crate::slots::SlotEntry;
use crate::table::{TableBackend, TableFacts, TableModel};

verus! {

/// Whether every key of a table stands in another where it stood.
pub open spec fn none_moved<K: Eq, V, P: TableModel<K, V>>(before: P, after: P) -> bool {
    forall|loc: P::Location| #[trigger]
        before.key_at(loc) is Some ==> after.key_at(loc) == before.key_at(loc)
}

/// An insertion that starts no epoch puts the new key where the construction places
/// it, and moves no other.
pub proof fn law_insertion_within_an_epoch<K: Eq, V, P: TableModel<K, V>>(
    before: P,
    after: P,
    key: K,
    value: V,
)
    requires
        after.placed_from(&before, key, value),
        after.lifecycle().generation == before.lifecycle().generation,
        before.lifecycle().generation < u32::MAX,
    ensures
        before.place_of_new(key) matches Some(loc) && after.key_at(loc) == Some(key),
        none_moved::<K, V, P>(before, after),
        after.exceptional() == before.exceptional(),
{
    if before.entries().len() >= before.limit() {
        let grown = choose|grown: P| #[trigger]
            grown.rebuilt_from(&before, before.slots_for_one_more(), EpochTransition::Growth)
                && after.settled_from(&grown, key, value);
        assert(grown.lifecycle().generation == before.lifecycle().generation + 1);
    }
}

/// A placement recovery is counted for an insertion into a table with room if and only
/// if the construction has no place for the key.
pub proof fn law_recovery_means_no_place<K: Eq, V, P: TableModel<K, V>>(
    before: P,
    after: P,
    key: K,
    value: V,
)
    requires
        after.placed_from(&before, key, value),
        before.entries().len() < before.limit(),
        before.lifecycle().recoveries < RECOVERY_LIMIT,
    ensures
        after.lifecycle().recoveries == before.lifecycle().recoveries + 1
            <==> before.place_of_new(key) is None,
        before.place_of_new(key) is Some ==> after.lifecycle() == before.lifecycle(),
{
}

/// A removal that starts no epoch moves no other key.
pub proof fn law_removal_within_an_epoch<K: Eq, V, P: TableModel<K, V>>(
    before: P,
    after: P,
    loc: P::Location,
)
    requires
        before.key_at(loc) is Some,
        after.removed_from(&before, loc),
        after.lifecycle().generation == before.lifecycle().generation,
        before.lifecycle().generation < u32::MAX,
    ensures
        after.kept_places(&before),
        after.key_at(loc) is None,
{
    if before.cleanup_after(loc) {
        let left = choose|left: P| #[trigger]
            left.lost(&before, loc) && after.rebuilt_from(
                &left,
                before.slot_count(),
                EpochTransition::TombstoneCleanup,
            );
        assert(after.lifecycle().generation == before.lifecycle().generation + 1);
    }
}

/// A table that is filled entry by entry holds one off its probe order if and only if
/// the construction had no place for some entry when it was stored.
pub proof fn law_fill_is_exceptional_without_a_place<K: Eq, V, P: TableModel<K, V>>(
    stages: Seq<P>,
    listed: Seq<SlotEntry<K, V>>,
)
    requires
        P::fills(stages, listed),
        !stages[0].exceptional(),
    ensures
        stages.last().exceptional() <==> exists|i: int|
            0 <= i < listed.len() && (#[trigger] stages[i]).place_of_new(listed[i].key) is None,
    decreases listed.len(),
{
    if listed.len() > 0 {
        let last = listed.len() - 1;
        let fewer = stages.drop_last();
        let shorter = listed.drop_last();
        assert(P::fills_at(stages, listed, last));
        assert forall|i: int| 0 <= i < shorter.len() implies #[trigger] P::fills_at(
            fewer,
            shorter,
            i,
        ) by {
            assert(P::fills_at(stages, listed, i));
        }
        law_fill_is_exceptional_without_a_place::<K, V, P>(fewer, shorter);
        assert(stages.last().exceptional() == (stages[last].exceptional() || stages[last].place_of_new(
            listed[last].key,
        ) is None));
        if fewer.last().exceptional() {
            let i = choose|i: int|
                0 <= i < shorter.len() && (#[trigger] fewer[i]).place_of_new(shorter[i].key) is None;
            assert(stages[i].place_of_new(listed[i].key) is None);
        }
        if exists|i: int|
            0 <= i < listed.len() && (#[trigger] stages[i]).place_of_new(listed[i].key) is None {
            let i = choose|i: int|
                0 <= i < listed.len() && (#[trigger] stages[i]).place_of_new(listed[i].key) is None;
            if i < last {
                assert(fewer[i].place_of_new(shorter[i].key) is None);
            }
        }
    }
}

/// Filling a table moves no key that was placed before.
pub proof fn law_fill_moves_no_key<K: Eq, V, P: TableModel<K, V>>(
    stages: Seq<P>,
    listed: Seq<SlotEntry<K, V>>,
    from: int,
    to: int,
)
    requires
        P::fills(stages, listed),
        0 <= from <= to <= listed.len(),
    ensures
        none_moved::<K, V, P>(stages[from], stages[to]),
    decreases to - from,
{
    if from < to {
        law_fill_moves_no_key::<K, V, P>(stages, listed, from, to - 1);
        assert(P::fills_at(stages, listed, to - 1));
        let before = stages[to - 1];
        let key = listed[to - 1].key;
        let loc = match before.place_of_new(key) {
            Some(loc) => loc,
            None => choose|loc: P::Location| #[trigger]
                before.is_first_free(loc) && stages[to].gained_at(&before, key, loc),
        };
        assert(stages[to].gained_at(&before, key, loc));
    }
}

/// Storing an entry into tables of the same storage gives tables of the same storage.
pub proof fn law_storing_is_decided<K: Eq, V, P: TableBackend<K, V>>(
    first: P,
    second: P,
    left: P,
    right: P,
    key: K,
    value: V,
)
    requires
        first.same_storage(&second),
        second.wf(),
        left.gained(&first, key, value),
        right.gained(&second, key, value),
    ensures
        left.same_storage(&right),
{
    first.lemma_storage_decides(&second);
    assert(first.place_of_new(key) == second.place_of_new(key));
    let loc = match first.place_of_new(key) {
        Some(loc) => loc,
        None => {
            let here = choose|loc: P::Location| #[trigger]
                first.is_first_free(loc) && left.gained_at(&first, key, loc);
            let there = choose|loc: P::Location| #[trigger]
                second.is_first_free(loc) && right.gained_at(&second, key, loc);
            assert(first.is_first_free(here) && first.is_first_free(there));
            here
        },
    };
    assert(left.gained_at(&first, key, loc) && right.gained_at(&second, key, loc));
}

/// Filling tables of the same storage with the same entries gives tables of the same
/// storage.
pub proof fn law_filling_is_decided<K: Eq, V, P: TableBackend<K, V>>(
    left: Seq<P>,
    right: Seq<P>,
    listed: Seq<SlotEntry<K, V>>,
    count: int,
)
    requires
        P::fills(left, listed),
        P::fills(right, listed),
        left[0].same_storage(&right[0]),
        right[0].wf(),
        0 <= count <= listed.len(),
    ensures
        left[count].same_storage(&right[count]),
        right[count].wf(),
    decreases count,
{
    if count > 0 {
        law_filling_is_decided::<K, V, P>(left, right, listed, count - 1);
        assert(P::fills_at(left, listed, count - 1));
        assert(P::fills_at(right, listed, count - 1));
        law_storing_is_decided::<K, V, P>(
            left[count - 1],
            right[count - 1],
            left[count],
            right[count],
            listed[count - 1].key,
            listed[count - 1].value,
        );
    }
}

/// Blank tables of the same settings and slots have the same storage.
proof fn lemma_blank_alike<K: Eq, V, P: TableBackend<K, V>>(
    left: P,
    right: P,
    first: P,
    second: P,
    slots: nat,
)
    requires
        left.blank_like(&first, slots),
        right.blank_like(&second, slots),
        first.builder() == second.builder(),
        first.fraction() == second.fraction(),
    ensures
        left.same_storage(&right),
{
    left.lemma_wf();
    right.lemma_wf();
    assert forall|loc: P::Location| #[trigger] left.key_at(loc) == right.key_at(loc) by {
        if left.key_at(loc) is Some {
            assert(left.entries().contains_key(left.key_at(loc)->0));
        }
        if right.key_at(loc) is Some {
            assert(right.entries().contains_key(right.key_at(loc)->0));
        }
    }
}

/// What tables of the same storage are refilled to has the same storage: where the
/// entries stand after a rebuild rests on the entries, their order, the slot count and
/// the settings alone.
pub proof fn law_refilling_is_decided<K: Eq, V, P: TableBackend<K, V>>(
    first: P,
    second: P,
    left: P,
    right: P,
    slots: nat,
)
    requires
        first.same_storage(&second),
        second.wf(),
        left.refilled(&first, slots),
        right.refilled(&second, slots),
    ensures
        left.same_storage(&right),
{
    first.lemma_storage_decides(&second);
    let listed = first.listed();
    let here = choose|stages: Seq<P>| #[trigger]
        P::fills(stages, first.listed()) && stages[0].blank_like(&first, slots)
            && left.same_storage(&stages.last());
    let there = choose|stages: Seq<P>| #[trigger]
        P::fills(stages, second.listed()) && stages[0].blank_like(&second, slots)
            && right.same_storage(&stages.last());
    lemma_blank_alike::<K, V, P>(here[0], there[0], first, second, slots);
    law_filling_is_decided::<K, V, P>(here, there, listed, listed.len() as int);
}

/// What an insertion into a table with room leads to is decided.
proof fn lemma_settling_is_decided<K: Eq, V, P: TableBackend<K, V>>(
    first: P,
    second: P,
    left: P,
    right: P,
    key: K,
    value: V,
)
    requires
        first.same_storage(&second),
        second.wf(),
        first.lifecycle() == second.lifecycle(),
        left.settled_from(&first, key, value),
        right.settled_from(&second, key, value),
    ensures
        left.same_storage(&right),
        left.lifecycle() == right.lifecycle(),
{
    first.lemma_storage_decides(&second);
    assert(first.place_of_new(key) == second.place_of_new(key));
    if first.place_of_new(key) is None && P::rebuilds_to_recover() {
        let here = choose|again: P| #[trigger]
            again.refilled(&first, first.slot_count()) && left.gained(&again, key, value);
        let there = choose|again: P| #[trigger]
            again.refilled(&second, second.slot_count()) && right.gained(&again, key, value);
        law_refilling_is_decided::<K, V, P>(first, second, here, there, first.slot_count());
        lemma_refilled_wf::<K, V, P>(second, there, second.slot_count());
        law_storing_is_decided::<K, V, P>(here, there, left, right, key, value);
    } else {
        law_storing_is_decided::<K, V, P>(first, second, left, right, key, value);
    }
}

/// What settles in a table has its settings and slots, and one more entry.
pub proof fn lemma_settled_frame<K: Eq, V, P: TableModel<K, V>>(
    before: P,
    after: P,
    key: K,
    value: V,
)
    requires
        after.settled_from(&before, key, value),
    ensures
        after.wf(),
        after.entries() == before.entries().insert(key, value),
        after.builder() == before.builder(),
        after.fraction() == before.fraction(),
        after.slot_count() == before.slot_count(),
{
    if before.place_of_new(key) is None && P::rebuilds_to_recover() {
        let again = choose|again: P| #[trigger]
            again.refilled(&before, before.slot_count()) && after.gained(&again, key, value);
        let stages = choose|stages: Seq<P>| #[trigger]
            P::fills(stages, before.listed()) && stages[0].blank_like(
                &before,
                before.slot_count(),
            ) && again.same_storage(&stages.last());
        lemma_fill_frame::<K, V, P>(stages, before.listed(), before.listed().len() as int);
    }
}

/// Filling keeps the settings and the slots.
proof fn lemma_fill_frame<K: Eq, V, P: TableModel<K, V>>(
    stages: Seq<P>,
    listed: Seq<SlotEntry<K, V>>,
    count: int,
)
    requires
        P::fills(stages, listed),
        0 <= count <= listed.len(),
    ensures
        stages[count].builder() == stages[0].builder(),
        stages[count].fraction() == stages[0].fraction(),
        stages[count].slot_count() == stages[0].slot_count(),
    decreases count,
{
    if count > 0 {
        lemma_fill_frame::<K, V, P>(stages, listed, count - 1);
        assert(P::fills_at(stages, listed, count - 1));
    }
}

/// A refilled table holds no tombstone.
pub proof fn lemma_refilled_without_tombstones<K: Eq, V, P: TableModel<K, V>>(
    before: P,
    after: P,
    slots: nat,
)
    requires
        after.refilled(&before, slots),
    ensures
        forall|loc: P::Location| !#[trigger] after.buried_at(loc),
{
    let stages = choose|stages: Seq<P>| #[trigger]
        P::fills(stages, before.listed()) && stages[0].blank_like(&before, slots)
            && after.same_storage(&stages.last());
    lemma_fill_buries_nothing::<K, V, P>(
        stages,
        before.listed(),
        before.listed().len() as int,
    );
}

/// Filling leaves no tombstone where there was none.
proof fn lemma_fill_buries_nothing<K: Eq, V, P: TableModel<K, V>>(
    stages: Seq<P>,
    listed: Seq<SlotEntry<K, V>>,
    count: int,
)
    requires
        P::fills(stages, listed),
        0 <= count <= listed.len(),
        forall|loc: P::Location| !#[trigger] stages[0].buried_at(loc),
    ensures
        forall|loc: P::Location| !#[trigger] stages[count].buried_at(loc),
    decreases count,
{
    if count > 0 {
        lemma_fill_buries_nothing::<K, V, P>(stages, listed, count - 1);
        assert(P::fills_at(stages, listed, count - 1));
        let before = stages[count - 1];
        let key = listed[count - 1].key;
        let at = match before.place_of_new(key) {
            Some(loc) => loc,
            None => choose|loc: P::Location| #[trigger]
                before.is_first_free(loc) && stages[count].gained_at(&before, key, loc),
        };
        assert(stages[count].gained_at(&before, key, at));
    }
}

/// A refilled table is well formed.
proof fn lemma_refilled_wf<K: Eq, V, P: TableModel<K, V>>(before: P, after: P, slots: nat)
    requires
        after.refilled(&before, slots),
    ensures
        after.wf(),
{
}

/// Inserting a new key into tables of the same storage and epoch gives tables of the
/// same storage and epoch: where each key stands and what the epoch records after an
/// insertion, with or without growth or recovery, is decided.
pub proof fn law_insertion_is_decided<K: Eq, V, P: TableBackend<K, V>>(
    first: P,
    second: P,
    left: P,
    right: P,
    key: K,
    value: V,
)
    requires
        first.same_storage(&second),
        second.wf(),
        first.lifecycle() == second.lifecycle(),
        left.placed_from(&first, key, value),
        right.placed_from(&second, key, value),
    ensures
        left.same_storage(&right),
        left.lifecycle() == right.lifecycle(),
{
    if first.entries().len() < first.limit() {
        lemma_settling_is_decided::<K, V, P>(first, second, left, right, key, value);
    } else {
        let slots = first.slots_for_one_more();
        let here = choose|grown: P| #[trigger]
            grown.rebuilt_from(&first, first.slots_for_one_more(), EpochTransition::Growth)
                && left.settled_from(&grown, key, value);
        let there = choose|grown: P| #[trigger]
            grown.rebuilt_from(&second, second.slots_for_one_more(), EpochTransition::Growth)
                && right.settled_from(&grown, key, value);
        law_refilling_is_decided::<K, V, P>(first, second, here, there, slots);
        lemma_settling_is_decided::<K, V, P>(here, there, left, right, key, value);
    }
}

/// Removing the entry at a location of tables of the same storage and epoch gives
/// tables of the same storage and epoch.
pub proof fn law_removal_is_decided<K: Eq, V, P: TableBackend<K, V>>(
    first: P,
    second: P,
    left: P,
    right: P,
    loc: P::Location,
)
    requires
        first.same_storage(&second),
        second.wf(),
        first.lifecycle() == second.lifecycle(),
        first.key_at(loc) is Some,
        left.removed_from(&first, loc),
        right.removed_from(&second, loc),
    ensures
        left.same_storage(&right),
        left.lifecycle() == right.lifecycle(),
{
    first.lemma_storage_decides(&second);
    assert(first.cleanup_after(loc) == second.cleanup_after(loc));
    if first.cleanup_after(loc) {
        let here = choose|rest: P| #[trigger]
            rest.lost(&first, loc) && left.rebuilt_from(
                &rest,
                first.slot_count(),
                EpochTransition::TombstoneCleanup,
            );
        let there = choose|rest: P| #[trigger]
            rest.lost(&second, loc) && right.rebuilt_from(
                &rest,
                second.slot_count(),
                EpochTransition::TombstoneCleanup,
            );
        assert(here.same_storage(&there));
        law_refilling_is_decided::<K, V, P>(here, there, left, right, first.slot_count());
    }
}

/// A rebuilt table holds no tombstone, and no cleanup is due in it.
pub proof fn law_rebuilds_leave_no_tombstone<K: Eq, V, P: TableBackend<K, V>>(
    before: P,
    after: P,
    slots: nat,
    cause: EpochTransition,
)
    requires
        after.rebuilt_from(&before, slots, cause),
    ensures
        forall|loc: P::Location| !#[trigger] after.buried_at(loc),
        !after.cleanup_due(),
{
    lemma_refilled_without_tombstones::<K, V, P>(before, after, slots);
    after.lemma_clean();
}

/// After the maintenance that removals deferred, no cleanup is due.
pub proof fn law_deferred_cleanups_are_done<K: Eq, V, P: TableBackend<K, V>>(before: P, after: P)
    requires
        before.wf(),
        after.cleaned_from(&before),
    ensures
        !after.cleanup_due(),
        after.entries() == before.entries(),
{
    if before.cleanup_due() {
        law_rebuilds_leave_no_tombstone::<K, V, P>(
            before,
            after,
            before.slot_count(),
            EpochTransition::TombstoneCleanup,
        );
    } else {
        after.lemma_storage_decides(&before);
    }
}

/// An insertion into a Funnel table with room moves no other key, even if the construction
/// has no place for the new one.
pub proof fn law_funnel_insertion_moves_no_key<K: Eq, V, S: HashBuilder<K>>(
    before: FunnelTable<K, V, S>,
    after: FunnelTable<K, V, S>,
    key: K,
    value: V,
)
    requires
        before.entries().len() < before.limit(),
        after.placed_from(&before, key, value),
    ensures
        none_moved::<K, V, FunnelTable<K, V, S>>(before, after),
        after.slot_count() == before.slot_count(),
        before.place_of_new(key) is None ==> exists|loc: usize| #[trigger]
            before.is_first_free(loc) && after.key_at(loc) == Some(key),
{
    if before.place_of_new(key) is None {
        let loc = choose|loc: usize| #[trigger]
            before.is_first_free(loc) && after.gained_at(&before, key, loc);
        assert(before.is_first_free(loc) && after.key_at(loc) == Some(key));
    }
}

/// An Elastic table in which the construction has no place for a key is rebuilt at its size
/// before it stores the key: no tombstone is left.
pub proof fn law_elastic_recovery_rebuilds<K: Eq, V, S: HashBuilder<K>>(
    before: ElasticTable<K, V, S>,
    after: ElasticTable<K, V, S>,
    key: K,
    value: V,
)
    requires
        before.entries().len() < before.limit(),
        before.place_of_new(key) is None,
        after.placed_from(&before, key, value),
    ensures
        forall|loc: ElasticLocation| !#[trigger] after.buried_at(loc),
        after.lifecycle().transition == EpochTransition::PlacementRecovery,
        after.slot_count() == before.slot_count(),
{
    lemma_settled_frame::<K, V, ElasticTable<K, V, S>>(before, after, key, value);
    let again = choose|again: ElasticTable<K, V, S>| #[trigger]
        again.refilled(&before, before.slot_count()) && after.gained(&again, key, value);
    lemma_refilled_without_tombstones::<K, V, ElasticTable<K, V, S>>(
        before,
        again,
        before.slot_count(),
    );
    let at = match again.place_of_new(key) {
        Some(loc) => loc,
        None => choose|loc: ElasticLocation| #[trigger]
            again.is_first_free(loc) && after.gained_at(&again, key, loc),
    };
    assert(after.gained_at(&again, key, at));
}

/// Removing one entry after another never leaves a table in which a cleanup is due.
pub proof fn law_removals_leave_no_cleanup_due<K: Eq, V, P: TableBackend<K, V>>(
    before: P,
    after: P,
    loc: P::Location,
)
    requires
        before.wf(),
        before.key_at(loc) is Some,
        !before.cleanup_due(),
        after.removed_from(&before, loc),
    ensures
        !after.cleanup_due(),
        after.entries() == before.entries().remove(before.key_at(loc)->0),
        after.slot_count() == before.slot_count(),
{
    if before.cleanup_after(loc) {
        let left = choose|left: P| #[trigger]
            left.lost(&before, loc) && after.rebuilt_from(
                &left,
                before.slot_count(),
                EpochTransition::TombstoneCleanup,
            );
        law_rebuilds_leave_no_tombstone::<K, V, P>(
            left,
            after,
            before.slot_count(),
            EpochTransition::TombstoneCleanup,
        );
    } else {
        after.lemma_lost(&before, loc);
    }
}

/// A full table that stores one more entry starts an epoch of growth, and at most one of
/// recovery behind it.
pub proof fn law_growth_starts_an_epoch<K: Eq, V, P: TableBackend<K, V>>(
    before: P,
    after: P,
    key: K,
    value: V,
)
    requires
        before.entries().len() >= before.limit(),
        after.placed_from(&before, key, value),
        before.lifecycle().generation < u32::MAX - 2,
    ensures
        after.lifecycle().generation == before.lifecycle().generation + 1
            ==> after.lifecycle().transition == EpochTransition::Growth,
        after.lifecycle().generation != before.lifecycle().generation + 1 ==> {
            &&& after.lifecycle().generation == before.lifecycle().generation + 2
            &&& after.lifecycle().transition == EpochTransition::PlacementRecovery
        },
        !after.lifecycle().had_delete,
        after.lifecycle().deletions == 0,
        after.slot_count() == before.slots_for_one_more(),
{
    let grown = choose|grown: P| #[trigger]
        grown.rebuilt_from(&before, before.slots_for_one_more(), EpochTransition::Growth)
            && after.settled_from(&grown, key, value);
    lemma_settled_frame::<K, V, P>(grown, after, key, value);
}

} // verus!
