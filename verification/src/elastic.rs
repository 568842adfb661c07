//! Elastic placement with explicit dynamic-map epochs.

use vstd::prelude::*;

use crate::arith;
use crate::batch::{self, BatchScheduler, BatchTarget, InsertAction};
use crate::capacity;
use crate::config::{CACHE_LINE, INITIAL_CAPACITY};
use crate::control::{self, ControlByte, CTRL_EMPTY, CTRL_TOMBSTONE};
use crate::cursor::OccupiedSlots;
use crate::disjoint;
use crate::elastic_filter::{
    self, ElasticMetadataWord, ElasticRouteFilter, PreparedElasticKey, RouteMetadata, WordModel,
};
use crate::elastic_geometry::{self, max_elastic_slots, ElasticGeometry};
use crate::elastic_schedule::{
    self, PhiRoute, ProbeSchedule, ELASTIC_LEVEL_LIMIT, QUERY_POSITION_CAP, UNIFORM_SEARCH_CAP,
};
use crate::epoch::{EpochModel, EpochSnapshot, EpochState, EpochTransition};
use crate::error::{self, TryBuildError, TryReserveError};
use crate::hashing::{self, DefaultHashBuilder, Equivalent, HashBuilder};
use crate::layout::{self, layout_for, BlockLayout, LayoutCursor};
use crate::listing;
use crate::membership::{self, MembershipRegion};
use crate::partition;
use crate::placement;
use crate::phi::{self, elastic_dyadic_probe_budget, elastic_phi};
use crate::probe::{
    self, unbiased_prepared_elastic_probe_index, CounterPrf, PreparedElasticProbe, ProbeDomain,
};
use crate::reduction;
use crate::reserve::ReserveFraction;
use crate::slots::{self, SlotEntry, Slots};
use crate::table::{self, TableBackend, TableFacts, TableModel};

verus! {

/// The words that a probe may consume.
pub const RANGE_WORD_CAP: u32 = 8;

/// The constant of the dyadic probe budget.
pub const ELASTIC_PROBE_BUDGET_C: usize = 8;

/// The slot that a logical probe of a level leads a hash to.
pub open spec fn slot_of(hash: u64, level: nat, logical: nat, capacity: nat) -> Option<nat> {
    match reduction::reduced(
        probe::elastic_words(
            elastic_filter::probe_of(hash).at_level(level as u64).level_state,
            probe::probe_lane_of(logical as u64),
        ),
        capacity,
        RANGE_WORD_CAP,
    ) {
        Ok(found) => Some(found.index as nat),
        Err(_) => None,
    }
}

/// A probe leads to a slot of its level.
pub proof fn law_probes_stay_in_their_level(hash: u64, level: nat, logical: nat, capacity: nat)
    requires
        0 < capacity <= usize::MAX,
    ensures
        slot_of(hash, level, logical, capacity) matches Some(slot) ==> slot < capacity,
{
    reduction::law_reduced_index_is_in_range(
        probe::elastic_words(
            elastic_filter::probe_of(hash).at_level(level as u64).level_state,
            probe::probe_lane_of(logical as u64),
        ),
        capacity,
        reduction::rejection_threshold(capacity),
        0,
        RANGE_WORD_CAP,
    );
}

/// Follows a logical probe of a level.
#[inline]
fn follow(
    key_probe: PreparedElasticProbe,
    level: usize,
    logical: u64,
    upper: usize,
    Ghost(hash): Ghost<u64>,
) -> (result: Option<usize>)
    requires
        key_probe == elastic_filter::probe_of(hash),
    ensures
        match result {
            Some(slot) => slot_of(hash, level as nat, logical as nat, upper as nat) == Some(
                slot as nat,
            ) && slot < upper,
            None => slot_of(hash, level as nat, logical as nat, upper as nat) is None,
        },
{
    let level_probe = key_probe.prepare_level_lane(PreparedElasticProbe::level_lane(level as u64));
    proof {
        if upper > 0 {
            law_probes_stay_in_their_level(hash, level as nat, logical as nat, upper as nat);
        }
    }
    match unbiased_prepared_elastic_probe_index(
        &level_probe,
        PreparedElasticProbe::logical_probe_lane(logical),
        upper,
        RANGE_WORD_CAP,
    ) {
        Ok(found) => Some(found.index),
        Err(_) => None,
    }
}

/// One level: its slots, and how many are live or deleted.
pub struct Level<T> {
    storage: Slots<T>,
    len: usize,
    tombstones: usize,
}

impl<T> Level<T> {
    /// The control bytes.
    pub closed spec fn controls(self) -> Seq<u8> {
        self.storage.controls()
    }

    /// The slots.
    pub closed spec fn values(self) -> Seq<Option<T>> {
        self.storage.values()
    }

    /// The live slots.
    pub closed spec fn live(self) -> nat {
        self.len as nat
    }

    /// The deleted slots.
    pub closed spec fn buried(self) -> nat {
        self.tombstones as nat
    }

    /// The counters count.
    pub closed spec fn wf(self) -> bool {
        &&& self.storage.wf()
        &&& self.storage.controls().len() == self.storage.values().len()
        &&& self.len == slots::occupied_count(self.storage.controls())
        &&& self.tombstones == slots::tombstone_count(self.storage.controls())
    }

    /// A level over blank storage.
    fn over(storage: Slots<T>) -> (result: Self)
        requires
            storage.is_blank(storage.values().len(), 0),
        ensures
            result.wf(),
            result.is_blank(),
            result.storage == storage,
    {
        proof {
            slots::lemma_counts_of_empty(storage.controls());
        }
        let level: Self = Level { storage, len: 0, tombstones: 0 };
        proof {
            assert forall|slot: int| 0 <= slot < level.values().len() implies (
            #[trigger] level.values()[slot]) is None by {
                assert(level.controls()[slot] == CTRL_EMPTY);
            }
        }
        level
    }

    /// Whether every slot is empty.
    pub closed spec fn is_blank(self) -> bool {
        &&& self.len == 0
        &&& self.tombstones == 0
        &&& forall|slot: int|
            0 <= slot < self.values().len() ==> (#[trigger] self.values()[slot]) is None
                && self.controls()[slot] == CTRL_EMPTY
    }

    /// The slots of this level.
    #[inline]
    fn capacity(&self) -> (result: usize)
        ensures
            result == self.values().len(),
    {
        self.storage.capacity()
    }

    /// Slots minus live entries; tombstones are free, since insertion reuses them.
    #[inline]
    fn free_slots(&self) -> (result: usize)
        requires
            self.wf(),
        ensures
            result == self.values().len() - self.live(),
    {
        proof {
            slots::lemma_counts_bounds(self.storage.controls(), 0);
        }
        self.storage.capacity() - self.len
    }

    /// Fills a free slot.
    fn fill(&mut self, slot: usize, value: T, control: u8)
        requires
            old(self).wf(),
            slot < old(self).values().len(),
            !control::occupied(old(self).controls()[slot as int]),
            control::occupied(control),
        ensures
            final(self).wf(),
            final(self).controls() == old(self).controls().update(slot as int, control),
            final(self).values() == old(self).values().update(slot as int, Some(value)),
            final(self).live() == old(self).live() + 1,
    {
        proof {
            slots::lemma_counts_after_update(self.storage.controls(), slot as int, control);
            slots::lemma_counts_bounds(
                self.storage.controls().update(slot as int, control),
                0,
            );
            slots::lemma_occupied_counts(self.storage.controls(), slot as int);
        }
        let was_tombstone: bool = self.storage.control_at(slot) == CTRL_TOMBSTONE;
        self.storage.write_with_control(slot, value, control);
        self.len = self.len + 1;
        if was_tombstone {
            self.tombstones = self.tombstones - 1;
        }
    }

    /// Moves the value out of a live slot and leaves a tombstone.
    fn bury(&mut self, slot: usize) -> (result: T)
        requires
            old(self).wf(),
            slot < old(self).values().len(),
            old(self).values()[slot as int] is Some,
        ensures
            final(self).wf(),
            old(self).values()[slot as int] == Some(result),
            final(self).controls() == old(self).controls().update(slot as int, CTRL_TOMBSTONE),
            final(self).values() == old(self).values().update(slot as int, None),
            final(self).live() == old(self).live() - 1,
            final(self).buried() == old(self).buried() + 1,
            old(self).live() > 0,
    {
        proof {
            slots::lemma_counts_after_update(
                self.storage.controls(),
                slot as int,
                CTRL_TOMBSTONE,
            );
            slots::lemma_counts_bounds(
                self.storage.controls().update(slot as int, CTRL_TOMBSTONE),
                0,
            );
            slots::lemma_occupied_counts(self.storage.controls(), slot as int);
        }
        let value: T = self.storage.take(slot);
        self.len = self.len - 1;
        self.tombstones = self.tombstones + 1;
        value
    }

    /// Whether this level holds more tombstones than it should.
    pub open spec fn overdue(self) -> bool {
        self.buried() > capacity::cleanup_threshold(self.values().len())
    }

    /// Whether this level would hold more tombstones than it should with so many more.
    pub open spec fn overdue_with(self, more: nat) -> bool {
        self.buried() + more > capacity::cleanup_threshold(self.values().len())
    }

    /// Whether this level holds more tombstones than it should.
    #[inline]
    fn needs_cleanup(&self) -> (result: bool)
        ensures
            result == self.overdue(),
    {
        self.tombstones > capacity::tombstone_cleanup_threshold(self.storage.capacity())
    }
}

/// The entry in a slot of a level.
pub open spec fn cell<T>(levels: Seq<Level<T>>, level: int, slot: int) -> Option<T> {
    levels[level].values()[slot]
}

/// Whether a level and a slot of it exist.
pub open spec fn in_range<T>(levels: Seq<Level<T>>, level: int, slot: int) -> bool {
    0 <= level < levels.len() && 0 <= slot < levels[level].values().len()
}

/// Whether an index holds the place of each stored key, and nothing else.
pub open spec fn indexes<K, V>(
    index: Map<K, (nat, nat)>,
    levels: Seq<Level<SlotEntry<K, V>>>,
) -> bool {
    &&& forall|key: K| #[trigger]
        index.contains_key(key) ==> in_range(levels, index[key].0 as int, index[key].1 as int) && (
        cell(levels, index[key].0 as int, index[key].1 as int) matches Some(entry) && entry.key
            == key)
    &&& forall|level: int, slot: int|
        in_range(levels, level, slot) && (#[trigger] cell(levels, level, slot)) is Some
            ==> index.contains_key(cell(levels, level, slot)->0.key) && index[cell(
            levels,
            level,
            slot,
        )->0.key] == (level as nat, slot as nat)
}

/// The entries that an index leads to.
pub open spec fn entries_of<K, V>(
    index: Map<K, (nat, nat)>,
    levels: Seq<Level<SlotEntry<K, V>>>,
) -> Map<K, V> {
    Map::new(
        |key: K| index.contains_key(key),
        |key: K| cell(levels, index[key].0 as int, index[key].1 as int)->0.value,
    )
}

/// The live slots of all levels.
pub open spec fn total_live<T>(levels: Seq<Level<T>>) -> nat
    decreases levels.len(),
{
    if levels.len() == 0 {
        0
    } else {
        total_live(levels.drop_last()) + levels.last().live()
    }
}

/// Changing one level changes the live slots by that level alone.
proof fn lemma_total_live_update<T>(levels: Seq<Level<T>>, at: int, level: Level<T>)
    requires
        0 <= at < levels.len(),
    ensures
        total_live(levels.update(at, level)) == total_live(levels) - levels[at].live()
            + level.live(),
    decreases levels.len(),
{
    let updated = levels.update(at, level);
    if at == levels.len() - 1 {
        assert(updated.drop_last() =~= levels.drop_last());
    } else {
        lemma_total_live_update(levels.drop_last(), at, level);
        assert(updated.drop_last() =~= levels.drop_last().update(at, level));
    }
}

/// Whether a lookup of a hash comes to a slot: at the first probe, or along the
/// lookup order.
pub open spec fn reached(
    steps: Seq<PhiRoute>,
    capacities: Seq<usize>,
    hash: u64,
    level: nat,
    slot: nat,
) -> bool {
    exists|logical: nat| #[trigger]
        reached_by(steps, capacities, hash, level, slot, logical)
}

/// Whether a lookup of a hash comes to a slot by a logical probe.
pub open spec fn reached_by(
    steps: Seq<PhiRoute>,
    capacities: Seq<usize>,
    hash: u64,
    level: nat,
    slot: nat,
    logical: nat,
) -> bool {
    &&& logical < UNIFORM_SEARCH_CAP
    &&& slot_of(hash, level, logical, capacities[level as int] as nat) == Some(slot)
    &&& level == 0 && logical == 0 || elastic_schedule::scheduled(steps, level, logical)
}

/// Open-addressed Elastic-hashing storage.
///
/// Splits capacity across geometrically shrinking levels and routes insertions
/// by batch: early batches fill the first level, later ones push toward deeper
/// levels. Placement follows the exact level schedule and uniform per-level
/// probes; lookups visit the probes in the same order.
#[verifier::reject_recursive_types(K)]
pub struct ElasticTable<K: Eq, V, S: HashBuilder<K> = DefaultHashBuilder> {
    levels: Vec<Level<SlotEntry<K, V>>>,
    /// The slots of each level.
    capacities: Vec<usize>,
    len: usize,
    total_slots: usize,
    max_insertions: usize,
    reserve_fraction: ReserveFraction,
    scheduler: BatchScheduler,
    hash_builder: S,
    epoch: EpochState,
    schedule: ProbeSchedule,
    exceptional_placement: bool,
    metadata: RouteMetadata,
    /// Deletes since the filter last matched the live entries.
    stale_membership: usize,
    /// The place of each stored key.
    index: Ghost<Map<K, (nat, nat)>>,
}

impl<K: Eq, V, S: HashBuilder<K>> ElasticTable<K, V, S> {
    /// The levels.
    pub closed spec fn view_levels(&self) -> Seq<Level<SlotEntry<K, V>>> {
        self.levels@
    }

    /// The entries.
    pub closed spec fn stored_entries(&self) -> Map<K, V> {
        entries_of(self.index@, self.levels@)
    }

    /// The levels are those of the slot count.
    closed spec fn shape_inv(&self) -> bool {
        &&& self.reserve_fraction.wf()
        &&& self.total_slots <= elastic_geometry::slot_limit()
        &&& self.max_insertions == capacity::insertion_limit(
            self.total_slots as nat,
            self.reserve_fraction,
        )
        &&& elastic_geometry::holds(
            self.capacities@,
            elastic_geometry::level_lengths(self.total_slots as nat, self.reserve_fraction),
        )
        &&& self.levels@.len() == self.capacities@.len()
        &&& self.levels@.len() <= ELASTIC_LEVEL_LIMIT
        &&& self.total_slots > 0 <==> self.levels@.len() > 0
        &&& forall|level: int|
            0 <= level < self.levels@.len() ==> {
                &&& (#[trigger] self.levels@[level]).wf()
                &&& self.levels@[level].values().len() == self.capacities@[level]
                &&& 0 < self.capacities@[level] <= u32::MAX
            }
    }

    /// The lookup order, the filter and the batch schedule are those of the levels.
    closed spec fn order_inv(&self) -> bool {
        &&& self.schedule.wf(self.capacities@)
        &&& self.metadata@.len() == membership::words_for(self.total_slots as nat)
        &&& self.scheduler.wf()
        &&& self.scheduler.ends().len() == self.levels@.len()
        &&& self.scheduler.ends() == elastic_geometry::batch_ends(
            self.total_slots as nat,
            self.reserve_fraction,
        )
    }

    /// Every live slot is stamped with its key's fingerprint, recorded in the
    /// filter and, unless some entry was placed off its probe order, reached by a
    /// lookup.
    closed spec fn placement_inv(&self) -> bool {
        forall|level: int, slot: int|
            in_range(self.levels@, level, slot) && (#[trigger] cell(self.levels@, level, slot)) is Some
                ==> self.well_placed(level, slot, cell(self.levels@, level, slot)->0.key)
    }

    /// Whether a key stands well in a slot.
    closed spec fn well_placed(&self, level: int, slot: int, key: K) -> bool {
        let hash = self.hash_builder.hash_of(key);
        &&& self.levels@[level].controls()[slot] == control::fingerprint(hash)
        &&& elastic_filter::admits(
            self.metadata@,
            elastic_filter::probe_of(hash).signature(),
            level as nat,
        )
        &&& self.exceptional_placement || reached(
            self.schedule.steps(),
            self.capacities@,
            hash,
            level as nat,
            slot as nat,
        )
    }

    /// The counters count.
    closed spec fn counts_inv(&self) -> bool {
        &&& self.len == total_live(self.levels@)
        &&& self.len <= self.max_insertions
        &&& self.index@.dom().finite()
        &&& self.index@.len() == self.len
    }

    /// The keys are lawful and distinct, and the index leads to them.
    closed spec fn index_inv(&self) -> bool {
        &&& hashing::lawful_keys::<K>()
        &&& hashing::lawful_hashing::<K, S>(self.hash_builder)
        &&& indexes(self.index@, self.levels@)
        &&& forall|left: K, right: K|
            self.index@.contains_key(left) && self.index@.contains_key(right)
                && #[trigger] hashing::same_key(left, right) ==> left == right
    }

    /// The table's invariant.
    pub closed spec fn inv(&self) -> bool {
        &&& self.shape_inv()
        &&& self.order_inv()
        &&& self.placement_inv()
        &&& self.counts_inv()
        &&& self.index_inv()
    }

    /// Levels of the same lengths keep the shape.
    proof fn lemma_same_shape(&self, after: Self)
        requires
            self.shape_inv(),
            after.capacities@ == self.capacities@,
            after.total_slots == self.total_slots,
            after.max_insertions == self.max_insertions,
            after.reserve_fraction == self.reserve_fraction,
            after.levels@.len() == self.levels@.len(),
            forall|l: int|
                0 <= l < self.levels@.len() ==> (#[trigger] after.levels@[l]).wf()
                    && after.levels@[l].values().len() == self.levels@[l].values().len(),
        ensures
            after.shape_inv(),
    {
        assert forall|l: int| 0 <= l < after.levels@.len() implies ({
            &&& (#[trigger] after.levels@[l]).wf()
            &&& after.levels@[l].values().len() == after.capacities@[l]
            &&& 0 < after.capacities@[l] <= u32::MAX
        }) by {
            assert(self.levels@[l].wf());
        }
    }

    /// Whether the key in a slot, if there is one, matches a lookup value.
    closed spec fn matches_at<Q: Equivalent<K>>(&self, level: int, slot: int, query: Q) -> bool {
        cell(self.levels@, level, slot) matches Some(entry) && query.stands_for(entry.key)
    }

    /// Whether the entry of a slot has a fingerprint and matches a key.
    #[inline]
    fn entry_matches<Q: Equivalent<K>>(
        &self,
        level: usize,
        slot: usize,
        key_fingerprint: u8,
        key: &Q,
    ) -> (result: bool)
        requires
            self.shape_inv(),
            in_range(self.levels@, level as int, slot as int),
            control::occupied(key_fingerprint),
            Q::obeys(),
        ensures
            result == (self.levels@[level as int].controls()[slot as int] == key_fingerprint
                && self.matches_at(level as int, slot as int, *key)),
    {
        let region = &self.levels[level].storage;
        if region.control_at(slot) != key_fingerprint {
            return false;
        }
        let entry = region.get_ref(slot);
        key.equivalent(&entry.key)
    }

    /// Finds a key by reading every slot.
    fn find_by_full_scan<Q: Equivalent<K>>(&self, key: &Q, key_fingerprint: u8) -> (result: Option<
        (usize, usize),
    >)
        requires
            self.shape_inv(),
            control::occupied(key_fingerprint),
            Q::obeys(),
        ensures
            match result {
                Some((level, slot)) => in_range(self.levels@, level as int, slot as int)
                    && self.matches_at(level as int, slot as int, *key),
                None => forall|level: int, slot: int|
                    in_range(self.levels@, level, slot) && self.levels@[level].controls()[slot]
                        == key_fingerprint ==> !#[trigger] self.matches_at(level, slot, *key),
            },
    {
        let mut level: usize = 0;
        while level < self.levels.len()
            invariant
                self.shape_inv(),
                control::occupied(key_fingerprint),
                Q::obeys(),
                level <= self.levels@.len(),
                forall|other: int, slot: int|
                    other < level && in_range(self.levels@, other, slot)
                        && self.levels@[other].controls()[slot] == key_fingerprint
                        ==> !#[trigger] self.matches_at(other, slot, *key),
            decreases self.levels@.len() - level,
        {
            let capacity: usize = self.levels[level].capacity();
            let mut slot: usize = 0;
            while slot < capacity
                invariant
                    self.shape_inv(),
                    control::occupied(key_fingerprint),
                    Q::obeys(),
                    level < self.levels@.len(),
                    capacity == self.levels@[level as int].values().len(),
                    slot <= capacity,
                    forall|other: int, earlier: int|
                        other < level && in_range(self.levels@, other, earlier)
                            && self.levels@[other].controls()[earlier] == key_fingerprint
                            ==> !#[trigger] self.matches_at(other, earlier, *key),
                    forall|earlier: int|
                        0 <= earlier < slot && self.levels@[level as int].controls()[earlier]
                            == key_fingerprint ==> !#[trigger] self.matches_at(
                            level as int,
                            earlier,
                            *key,
                        ),
                decreases capacity - slot,
            {
                if self.entry_matches(level, slot, key_fingerprint, key) {
                    return Some((level, slot));
                }
                slot = slot + 1;
            }
            level = level + 1;
        }
        None
    }

    /// A live slot whose key matches is the place of the stored key.
    proof fn lemma_match_is_stored<Q: Equivalent<K>>(
        &self,
        query: Q,
        hash: u64,
        level: int,
        slot: int,
    )
        requires
            self.index_inv(),
            table::hashes_to::<K, Q, S>(self.hash_builder, query, hash),
            in_range(self.levels@, level, slot),
            self.matches_at(level, slot, query),
        ensures
            table::stored(self.stored_entries(), query) == Some(
                cell(self.levels@, level, slot)->0.key,
            ),
    {
        let entries = self.stored_entries();
        let key = cell(self.levels@, level, slot)->0.key;
        assert(entries.contains_key(key));
        let chosen = choose|chosen: K|
            entries.contains_key(chosen) && #[trigger] query.stands_for(chosen);
        assert(query.stands_for(chosen) && query.stands_for(key));
        assert(hashing::same_key(chosen, key));
    }

    /// The place of a stored key matches.
    proof fn lemma_stored_matches<Q: Equivalent<K>>(&self, query: Q, key: K)
        requires
            self.index_inv(),
            table::stored(self.stored_entries(), query) == Some(key),
        ensures
            self.index@.contains_key(key),
            query.stands_for(key),
            in_range(self.levels@, self.index@[key].0 as int, self.index@[key].1 as int),
            self.matches_at(self.index@[key].0 as int, self.index@[key].1 as int, query),
            cell(self.levels@, self.index@[key].0 as int, self.index@[key].1 as int)->0.key == key,
    {
        let entries = self.stored_entries();
        let chosen = choose|chosen: K|
            entries.contains_key(chosen) && #[trigger] query.stands_for(chosen);
        assert(entries.contains_key(chosen) && query.stands_for(chosen));
    }

    /// Whether a result is the place of a lookup value.
    closed spec fn is_place_of<Q: Equivalent<K>>(
        &self,
        query: Q,
        result: Option<(usize, usize)>,
    ) -> bool {
        match result {
            Some((level, slot)) => {
                &&& in_range(self.levels@, level as int, slot as int)
                &&& cell(self.levels@, level as int, slot as int) is Some
                &&& table::stored(self.stored_entries(), query) == Some(
                    cell(self.levels@, level as int, slot as int)->0.key,
                )
            },
            None => table::stored(self.stored_entries(), query) is None,
        }
    }

    /// Reads every slot for a key.
    fn locate_by_full_scan<Q: Equivalent<K>>(
        &self,
        key: &Q,
        key_fingerprint: u8,
        Ghost(hash): Ghost<u64>,
    ) -> (result: Option<(usize, usize)>)
        requires
            self.inv(),
            table::hashes_to::<K, Q, S>(self.hash_builder, *key, hash),
            key_fingerprint == control::fingerprint(hash),
        ensures
            self.is_place_of(*key, result),
    {
        proof {
            control::law_sentinels_are_not_fingerprints(hash);
        }
        let found: Option<(usize, usize)> = self.find_by_full_scan(key, key_fingerprint);
        proof {
            match found {
                Some((level, slot)) => {
                    self.lemma_match_is_stored(*key, hash, level as int, slot as int);
                },
                None => {
                    if let Some(stored) = table::stored(self.stored_entries(), *key) {
                        self.lemma_stored_matches(*key, stored);
                        let place = self.index@[stored];
                        assert(cell(self.levels@, place.0 as int, place.1 as int) is Some);
                        assert(self.well_placed(place.0 as int, place.1 as int, stored));
                    }
                },
            }
        }
        found
    }

    /// Finds the place of a key along the lookup order.
    fn locate_by_exact_schedule<Q: Equivalent<K>>(
        &self,
        key: &Q,
        prepared: PreparedElasticKey,
        key_fingerprint: u8,
        Ghost(hash): Ghost<u64>,
    ) -> (result: Option<(usize, usize)>)
        requires
            self.inv(),
            table::hashes_to::<K, Q, S>(self.hash_builder, *key, hash),
            prepared.is_for(hash),
            key_fingerprint == control::fingerprint(hash),
        ensures
            self.is_place_of(*key, result),
    {
        proof {
            control::law_sentinels_are_not_fingerprints(hash);
        }
        if self.len == 0 || self.levels.len() == 0 {
            proof {
                if let Some(stored) = table::stored(self.stored_entries(), *key) {
                    self.lemma_stored_matches(*key, stored);
                    assert(self.index@.dom().contains(stored));
                    assert(self.index@.dom().len() == 0);
                    vstd::set_lib::lemma_set_empty_equivalency_len(self.index@.dom());
                }
            }
            return None;
        }
        let first: usize = match follow(prepared.route.probe, 0, 0, self.capacities[0], Ghost(hash)) {
            Some(slot) => slot,
            None => {
                return self.locate_by_full_scan(key, key_fingerprint, Ghost(hash));
            },
        };
        let filter: ElasticRouteFilter = self.metadata.route_filter(prepared);
        if self.entry_matches(0, first, key_fingerprint, key) {
            proof {
                self.lemma_match_is_stored(*key, hash, 0, first as int);
            }
            return Some((0, first));
        }
        let ghost signature = elastic_filter::probe_of(hash).signature();
        if !filter.maybe_present {
            proof {
                if let Some(stored) = table::stored(self.stored_entries(), *key) {
                    self.lemma_stored_matches(*key, stored);
                    let place = self.index@[stored];
                    assert(cell(self.levels@, place.0 as int, place.1 as int) is Some);
                    assert(self.well_placed(place.0 as int, place.1 as int, stored));
                }
            }
            return None;
        }
        let level_mask: u32 = filter.expanded_level_mask();
        let mut step: usize = 0;
        while step < self.schedule.len()
            invariant
                self.inv(),
                table::hashes_to::<K, Q, S>(self.hash_builder, *key, hash),
                prepared.is_for(hash),
                key_fingerprint == control::fingerprint(hash),
                control::occupied(key_fingerprint),
                step <= self.schedule.steps().len(),
                level_mask == elastic_filter::widened(
                    elastic_filter::levels_of(
                        self.metadata@,
                        elastic_filter::probe_of(hash).signature(),
                    ),
                ),
                forall|earlier: int|
                    0 <= earlier < step ==> self.missed(
                        #[trigger] self.schedule.steps()[earlier],
                        *key,
                        hash,
                    ),
            decreases self.schedule.steps().len() - step,
        {
            let route: PhiRoute = self.schedule.route(step);
            let level: usize = route.level();
            if level_mask & (1u32 << (level as u32)) != 0 {
                let upper: usize = route.range_upper as usize;
                match follow(prepared.route.probe, level, route.logical(), upper, Ghost(hash)) {
                    Some(slot) => {
                        if self.entry_matches(level, slot, key_fingerprint, key) {
                            proof {
                                self.lemma_match_is_stored(*key, hash, level as int, slot as int);
                            }
                            return Some((level, slot));
                        }
                    },
                    None => {
                        return self.locate_by_full_scan(key, key_fingerprint, Ghost(hash));
                    },
                }
            }
            step = step + 1;
        }
        if self.exceptional_placement {
            return self.locate_by_full_scan(key, key_fingerprint, Ghost(hash));
        }
        proof {
            if let Some(stored) = table::stored(self.stored_entries(), *key) {
                self.lemma_missed_is_absent(*key, hash, stored);
            }
        }
        None
    }

    /// Tables of the same storage have the same slots on each level.
    proof fn lemma_same_level(&self, other: Self, l: int)
        requires
            self.inv(),
            other.inv(),
            self.same_storage(&other),
            self.capacities@ == other.capacities@,
            0 <= l < self.levels@.len(),
        ensures
            self.levels@[l].values() == other.levels@[l].values(),
            self.levels@[l].controls() == other.levels@[l].controls(),
    {
        let left = self.levels@[l];
        let right = other.levels@[l];
        assert(left.wf() && right.wf());
        assert forall|s: int| 0 <= s < left.values().len() implies #[trigger] left.values()[s]
            == right.values()[s] && left.controls()[s] == right.controls()[s] by {
            let loc = ElasticLocation { level: l as usize, slot: s as usize };
            assert(self.key_at(loc) == other.key_at(loc));
            assert(self.buried_at(loc) == other.buried_at(loc));
            if cell(self.levels@, l, s) is Some {
                let key = cell(self.levels@, l, s)->0.key;
                assert(cell(other.levels@, l, s) is Some);
                assert(self.well_placed(l, s, key));
                assert(other.well_placed(l, s, key));
                assert(self.stored_entries()[key] == cell(self.levels@, l, s)->0.value);
                assert(other.stored_entries()[key] == cell(other.levels@, l, s)->0.value);
            } else {
                assert(cell(other.levels@, l, s) is None);
                assert(!control::occupied(left.controls()[s]));
                assert(!control::occupied(right.controls()[s]));
            }
        }
        assert(left.values() =~= right.values());
        assert(left.controls() =~= right.controls());
    }

    /// A first free slot is one of every table with the same slots.
    proof fn lemma_same_first_free(&self, other: Self, loc: ElasticLocation)
        requires
            self.is_first_free(loc),
            self.levels@.len() == other.levels@.len(),
            forall|l: int|
                0 <= l < self.levels@.len() ==> (#[trigger] self.levels@[l]).values()
                    == other.levels@[l].values(),
        ensures
            other.is_first_free(loc),
    {
        assert(self.levels@[loc.level as int].values() == other.levels@[loc.level as int].values());
        assert forall|level: int, slot: int|
            in_range(other.levels@, level, slot) && (level < loc.level || level == loc.level && slot
                < loc.slot) implies (#[trigger] cell(other.levels@, level, slot)) is Some by {
            assert(self.levels@[level].values() == other.levels@[level].values());
            assert(cell(self.levels@, level, slot) is Some);
        }
    }

    /// Whether a prepared hash and a fingerprint are those of a lookup value.
    pub open spec fn prepared_for<Q: Equivalent<K>>(
        &self,
        query: Q,
        prepared: PreparedElasticKey,
        key_fingerprint: u8,
    ) -> bool {
        exists|hash: u64| #[trigger]
            prepared.is_for(hash) && table::hashes_to::<K, Q, S>(self.builder(), query, hash)
                && key_fingerprint == control::fingerprint(hash)
    }

    /// Whether a level and a slot of it hold an entry.
    pub open spec fn holds_at(&self, level: usize, slot: usize, entry: SlotEntry<K, V>) -> bool {
        &&& self.key_at(ElasticLocation { level, slot }) == Some(entry.key)
        &&& self.entries().contains_key(entry.key)
        &&& self.entries()[entry.key] == entry.value
    }

    /// Finds a key along the lookup order and, if it is stored, returns what `on_hit`
    /// makes of its level, slot and entry. Else `on_hit` is not called.
    pub fn find_by_exact_schedule<
        'a,
        Q: Equivalent<K>,
        R,
        F: FnOnce(usize, usize, &'a SlotEntry<K, V>) -> R,
    >(
        &'a self,
        key: &Q,
        prepared: PreparedElasticKey,
        key_fingerprint: u8,
        on_hit: F,
    ) -> (result: Option<R>)
        requires
            self.wf(),
            self.prepared_for(*key, prepared, key_fingerprint),
            forall|level: usize, slot: usize, entry: &'a SlotEntry<K, V>|
                self.holds_at(level, slot, *entry) && table::stored(self.entries(), *key) == Some(
                    entry.key,
                ) ==> #[trigger] on_hit.requires((level, slot, entry)),
        ensures
            result is Some <==> table::stored(self.entries(), *key) is Some,
            result is Some ==> exists|level: usize, slot: usize, entry: &'a SlotEntry<K, V>|
                #[trigger] on_hit.ensures((level, slot, entry), result->0) && self.holds_at(
                    level,
                    slot,
                    *entry,
                ) && table::stored(self.entries(), *key) == Some(entry.key),
    {
        let ghost hash = choose|hash: u64| #[trigger]
            prepared.is_for(hash) && table::hashes_to::<K, Q, S>(self.builder(), *key, hash)
                && key_fingerprint == control::fingerprint(hash);
        match self.locate_by_exact_schedule(key, prepared, key_fingerprint, Ghost(hash)) {
            Some((level, slot)) => {
                proof {
                    assert(cell(self.levels@, level as int, slot as int) is Some);
                    assert(self.levels@[level as int].wf());
                }
                let entry: &'a SlotEntry<K, V> = self.levels[level].storage.get_ref(slot);
                assert(self.holds_at(level, slot, *entry));
                let ghost hit = on_hit;
                let found: Option<R> = Some(on_hit(level, slot, entry));
                assert(hit.ensures((level, slot, entry), found->0));
                found
            },
            None => None,
        }
    }

    /// Whether a step of the lookup order does not lead to a lookup value.
    closed spec fn missed<Q: Equivalent<K>>(&self, route: PhiRoute, query: Q, hash: u64) -> bool {
        let level = route.at_level();
        let slot = slot_of(hash, level, route.probe(), self.capacities@[level as int] as nat);
        ||| elastic_filter::widened(
            elastic_filter::levels_of(
                self.metadata@,
                elastic_filter::probe_of(hash).signature(),
            ),
        ) & (1u32 << (level as u32)) == 0
        ||| slot is Some && !(self.levels@[level as int].controls()[slot->0 as int]
            == control::fingerprint(hash) && self.matches_at(level as int, slot->0 as int, query))
    }

    /// A key that the first probe and every step miss is not stored.
    proof fn lemma_missed_is_absent<Q: Equivalent<K>>(&self, query: Q, hash: u64, key: K)
        requires
            self.inv(),
            !self.exceptional_placement,
            table::hashes_to::<K, Q, S>(self.hash_builder, query, hash),
            forall|step: int|
                0 <= step < self.schedule.steps().len() ==> self.missed(
                    #[trigger] self.schedule.steps()[step],
                    query,
                    hash,
                ),
            ({
                let slot = slot_of(hash, 0, 0, self.capacities@[0] as nat);
                slot is Some && !(self.levels@[0].controls()[slot->0 as int]
                    == control::fingerprint(hash) && self.matches_at(0, slot->0 as int, query))
            }),
        ensures
            table::stored(self.stored_entries(), query) != Some(key),
    {
        if table::stored(self.stored_entries(), query) == Some(key) {
            self.lemma_stored_matches(query, key);
            let level = self.index@[key].0;
            let slot = self.index@[key].1;
            assert(cell(self.levels@, level as int, slot as int) is Some);
            assert(self.well_placed(level as int, slot as int, key));
            assert(self.hash_builder.hash_of(key) == hash);
            let steps = self.schedule.steps();
            let logical = choose|logical: nat| #[trigger]
                reached_by(steps, self.capacities@, hash, level, slot, logical);
            assert(reached_by(steps, self.capacities@, hash, level, slot, logical));
            if !(level == 0 && logical == 0) {
                let step = choose|i: int|
                    0 <= i < steps.len() && (#[trigger] steps[i]).visits(level, logical);
                elastic_schedule::law_packing_round_trip(level, logical);
                assert(self.missed(steps[step], query, hash));
            }
        }
    }
}

/// The first vacancy that the probes of a level lead a hash to, from one logical
/// probe up to a limit: the slot and the logical probe.
pub open spec fn vacancy_from(
    controls: Seq<u8>,
    hash: u64,
    level: nat,
    from: nat,
    limit: nat,
) -> Option<(nat, nat)>
    decreases limit - from,
{
    if from >= limit {
        None
    } else {
        match slot_of(hash, level, from, controls.len()) {
            Some(slot) => if !control::occupied(controls[slot as int]) {
                Some((slot, from))
            } else {
                vacancy_from(controls, hash, level, from + 1, limit)
            },
            None => vacancy_from(controls, hash, level, from + 1, limit),
        }
    }
}

/// The first vacancy of a level among all searched probes, with the level.
pub open spec fn uniform_place<T>(levels: Seq<Level<T>>, hash: u64, level: nat) -> Option<
    (nat, nat, nat),
> {
    match vacancy_from(
        levels[level as int].controls(),
        hash,
        level,
        0,
        UNIFORM_SEARCH_CAP as nat,
    ) {
        Some((slot, logical)) => Some((level, slot, logical)),
        None => None,
    }
}

/// The slots of a level that hold no entry.
pub open spec fn free_in<T>(level: Level<T>) -> nat {
    (level.values().len() - level.live()) as nat
}

/// Where a new key goes: level, slot and logical probe.
///
/// The first batch fills the first level. For a later batch's pair of levels:
/// a nearly full current level sends the key to the next; else a nearly full
/// next level keeps it in the current; else the current level gets a bounded
/// number of probes before the next is tried.
pub open spec fn place_for<T>(
    levels: Seq<Level<T>>,
    reserve: ReserveFraction,
    hash: u64,
    target: BatchTarget,
) -> Option<(nat, nat, nat)> {
    if levels.len() == 0 {
        None
    } else {
        match target {
            BatchTarget::Bootstrap => uniform_place(levels, hash, 0),
            BatchTarget::LevelPair(current) => if current + 1 >= levels.len() {
                None
            } else {
                let now = levels[current as int];
                let next = levels[current + 1];
                if free_in(now) <= now.values().len() / vstd::arithmetic::power2::pow2(
                    reserve.d() as nat + 1,
                ) {
                    uniform_place(levels, hash, current as nat + 1)
                } else if table::saturated(4 * free_in(next)) <= next.values().len() {
                    uniform_place(levels, hash, current as nat)
                } else {
                    match vacancy_from(
                        now.controls(),
                        hash,
                        current as nat,
                        0,
                        phi::dyadic_budget(
                            free_in(now),
                            now.values().len(),
                            reserve.d() as nat,
                            ELASTIC_PROBE_BUDGET_C as nat,
                        ),
                    ) {
                        Some((slot, logical)) => Some((current as nat, slot, logical)),
                        None => uniform_place(levels, hash, current as nat + 1),
                    }
                }
            },
        }
    }
}

/// Where a new key goes, if its position is one that lookups visit.
pub open spec fn placement_for<T>(
    levels: Seq<Level<T>>,
    reserve: ReserveFraction,
    hash: u64,
    target: BatchTarget,
) -> Option<(nat, nat, nat)> {
    match place_for(levels, reserve, hash, target) {
        Some((level, slot, logical)) => if elastic_schedule::position(level, logical)
            <= QUERY_POSITION_CAP {
            Some((level, slot, logical))
        } else {
            None
        },
        None => None,
    }
}

/// Levels with the same slots and counts place a key alike.
proof fn lemma_same_place<T>(
    left: Seq<Level<T>>,
    right: Seq<Level<T>>,
    reserve: ReserveFraction,
    hash: u64,
    target: BatchTarget,
)
    requires
        left.len() == right.len(),
        forall|l: int|
            0 <= l < left.len() ==> (#[trigger] left[l]).controls() == right[l].controls()
                && left[l].values() == right[l].values() && left[l].live() == right[l].live(),
    ensures
        placement_for(left, reserve, hash, target) == placement_for(right, reserve, hash, target),
{
    if left.len() > 0 {
        assert(left[0].controls() == right[0].controls());
        if let BatchTarget::LevelPair(current) = target {
            if current + 1 < left.len() {
                assert(left[current as int].controls() == right[current as int].controls());
                assert(left[current + 1].controls() == right[current + 1].controls());
            }
        }
    }
}

/// A chosen slot and its paper position.
#[derive(Clone, Copy, Debug, Eq, PartialEq, Structural)]
pub struct ExactPlacement {
    /// The level.
    pub level: usize,
    /// The slot.
    pub slot: usize,
    /// The paper position; the lookup order is extended to it.
    pub phi: u32,
}

/// A vacancy lies in its level, is free, and is what its probe leads to.
proof fn lemma_vacancy(controls: Seq<u8>, hash: u64, level: nat, from: nat, limit: nat)
    requires
        0 < controls.len() <= usize::MAX,
    ensures
        vacancy_from(controls, hash, level, from, limit) matches Some((slot, logical)) ==> {
            &&& slot < controls.len()
            &&& from <= logical < limit
            &&& !control::occupied(controls[slot as int])
            &&& slot_of(hash, level, logical, controls.len()) == Some(slot)
        },
    decreases limit - from,
{
    if from < limit {
        law_probes_stay_in_their_level(hash, level, from, controls.len());
        lemma_vacancy(controls, hash, level, from + 1, limit);
    }
}

/// The probe budget of a level is small.
proof fn lemma_budget_small(free: nat, level: nat, exponent: nat)
    requires
        0 < free <= level <= u32::MAX,
    ensures
        phi::dyadic_budget(free, level, exponent, ELASTIC_PROBE_BUDGET_C as nat) <= 8712,
{
    vstd::arithmetic::power2::lemma2_to64();
    let ratio = crate::arith::ceil_div(level, free);
    vstd::arithmetic::div_mod::lemma_div_nonincreasing(level as int, free as int);
    assert(ratio <= level + 1);
    let k = phi::fill_exponent(free, level);
    if ratio >= 2 {
        crate::elastic_plan::lemma_ceil_log2_exists(ratio);
        if k > 33 {
            crate::arith::lemma_pow2_monotone(33, (k - 1) as nat);
            vstd::arithmetic::power2::lemma_pow2_unfold(33);
        }
    }
    assert(k <= 33);
    assert(k * k <= 33 * 33) by (nonlinear_arith)
        requires
            k <= 33,
    ;
}

impl<K: Eq, V, S: HashBuilder<K>> ElasticTable<K, V, S> {
    /// The slot that a logical probe of a level leads to, if it is free.
    #[inline]
    fn vacancy(
        &self,
        level: usize,
        key_probe: PreparedElasticProbe,
        logical: u64,
        Ghost(hash): Ghost<u64>,
    ) -> (result: Option<usize>)
        requires
            self.shape_inv(),
            level < self.levels@.len(),
            key_probe == elastic_filter::probe_of(hash),
        ensures
            match result {
                Some(slot) => {
                    &&& slot_of(
                        hash,
                        level as nat,
                        logical as nat,
                        self.levels@[level as int].controls().len(),
                    ) == Some(slot as nat)
                    &&& !control::occupied(self.levels@[level as int].controls()[slot as int])
                },
                None => slot_of(
                    hash,
                    level as nat,
                    logical as nat,
                    self.levels@[level as int].controls().len(),
                ) matches Some(slot) ==> control::occupied(
                    self.levels@[level as int].controls()[slot as int],
                ),
            },
    {
        match follow(key_probe, level, logical, self.capacities[level], Ghost(hash)) {
            Some(slot) => {
                if self.levels[level].storage.control_at(slot).is_free() {
                    Some(slot)
                } else {
                    None
                }
            },
            None => None,
        }
    }

    /// The first vacancy of a level among so many probes.
    fn vacancy_within(
        &self,
        level: usize,
        key_probe: PreparedElasticProbe,
        limit: u64,
        Ghost(hash): Ghost<u64>,
    ) -> (result: Option<(usize, u64)>)
        requires
            self.shape_inv(),
            level < self.levels@.len(),
            key_probe == elastic_filter::probe_of(hash),
        ensures
            vacancy_from(
                self.levels@[level as int].controls(),
                hash,
                level as nat,
                0,
                limit as nat,
            ) == match result {
                Some((slot, logical)) => Some((slot as nat, logical as nat)),
                None => None,
            },
            result matches Some((_, logical)) ==> logical < limit,
    {
        let mut logical: u64 = 0;
        while logical < limit
            invariant
                self.shape_inv(),
                level < self.levels@.len(),
                key_probe == elastic_filter::probe_of(hash),
                logical <= limit,
                vacancy_from(
                    self.levels@[level as int].controls(),
                    hash,
                    level as nat,
                    0,
                    limit as nat,
                ) == vacancy_from(
                    self.levels@[level as int].controls(),
                    hash,
                    level as nat,
                    logical as nat,
                    limit as nat,
                ),
            decreases limit - logical,
        {
            if let Some(slot) = self.vacancy(level, key_probe, logical, Ghost(hash)) {
                return Some((slot, logical));
            }
            logical = logical + 1;
        }
        None
    }

    /// The first vacancy of a level among all searched probes.
    fn uniform_vacancy(
        &self,
        key_probe: PreparedElasticProbe,
        level: usize,
        Ghost(hash): Ghost<u64>,
    ) -> (result: Option<(usize, usize, u64)>)
        requires
            self.shape_inv(),
            level < self.levels@.len(),
            key_probe == elastic_filter::probe_of(hash),
        ensures
            uniform_place(self.levels@, hash, level as nat) == match result {
                Some((at, slot, logical)) => Some((at as nat, slot as nat, logical as nat)),
                None => None,
            },
            result matches Some((_, _, logical)) ==> logical < UNIFORM_SEARCH_CAP,
    {
        match self.vacancy_within(level, key_probe, UNIFORM_SEARCH_CAP, Ghost(hash)) {
            Some((slot, logical)) => Some((level, slot, logical)),
            None => None,
        }
    }

    /// The level, slot and logical probe of a new key.
    fn choose_place(
        &self,
        key_probe: PreparedElasticProbe,
        target: BatchTarget,
        Ghost(hash): Ghost<u64>,
    ) -> (result: Option<(usize, usize, u64)>)
        requires
            self.shape_inv(),
            key_probe == elastic_filter::probe_of(hash),
        ensures
            place_for(self.levels@, self.reserve_fraction, hash, target) == match result {
                Some((level, slot, logical)) => Some((level as nat, slot as nat, logical as nat)),
                None => None,
            },
            result matches Some((_, _, logical)) ==> logical < 8712,
    {
        if self.levels.len() == 0 {
            return None;
        }
        match target {
            BatchTarget::Bootstrap => self.uniform_vacancy(key_probe, 0, Ghost(hash)),
            BatchTarget::LevelPair(current) => {
                if current >= self.levels.len() - 1 {
                    return None;
                }
                let next: usize = current + 1;
                let current_capacity: usize = self.levels[current].capacity();
                let next_capacity: usize = self.levels[next].capacity();
                let free_current: usize = self.levels[current].free_slots();
                let free_next: usize = self.levels[next].free_slots();
                let quadrupled: usize = match free_next.checked_mul(4) {
                    Some(quadrupled) => quadrupled,
                    None => usize::MAX,
                };
                if free_current <= self.reserve_fraction.floor_half_reserved(current_capacity) {
                    self.uniform_vacancy(key_probe, next, Ghost(hash))
                } else if quadrupled <= next_capacity {
                    self.uniform_vacancy(key_probe, current, Ghost(hash))
                } else {
                    proof {
                        lemma_budget_small(
                            free_current as nat,
                            current_capacity as nat,
                            self.reserve_fraction.d() as nat,
                        );
                    }
                    let budget: usize = elastic_dyadic_probe_budget(
                        free_current,
                        current_capacity,
                        self.reserve_fraction.exponent(),
                        ELASTIC_PROBE_BUDGET_C,
                    ).unwrap();
                    match self.vacancy_within(current, key_probe, budget as u64, Ghost(hash)) {
                        Some((slot, logical)) => Some((current, slot, logical)),
                        None => self.uniform_vacancy(key_probe, next, Ghost(hash)),
                    }
                }
            },
        }
    }

    /// The slot of a new key, with its position, if lookups visit that position.
    fn choose_slot_for_new_key(
        &self,
        key_probe: PreparedElasticProbe,
        target: BatchTarget,
        Ghost(hash): Ghost<u64>,
    ) -> (result: Option<ExactPlacement>)
        requires
            self.shape_inv(),
            key_probe == elastic_filter::probe_of(hash),
        ensures
            match result {
                Some(placement) => placement_for(
                    self.levels@,
                    self.reserve_fraction,
                    hash,
                    target,
                ) matches Some((level, slot, logical)) && placement.level == level
                    && placement.slot == slot && placement.phi as nat
                    == elastic_schedule::position(level, logical),
                None => placement_for(self.levels@, self.reserve_fraction, hash, target) is None,
            },
    {
        let (level, slot, logical) = match self.choose_place(key_probe, target, Ghost(hash)) {
            Some(place) => place,
            None => {
                return None;
            },
        };
        proof {
            self.lemma_place(hash, target);
        }
        match elastic_phi(level as u128 + 1, logical as u128 + 1) {
            Ok(found) => {
                if found > QUERY_POSITION_CAP as u128 {
                    None
                } else {
                    Some(ExactPlacement { level, slot, phi: found as u32 })
                }
            },
            Err(_) => None,
        }
    }

    /// A chosen place is a free slot of the table that a lookup of its position
    /// comes to.
    proof fn lemma_place(&self, hash: u64, target: BatchTarget)
        requires
            self.shape_inv(),
        ensures
            place_for(self.levels@, self.reserve_fraction, hash, target) matches Some(
                (level, slot, logical),
            ) ==> {
                &&& in_range(self.levels@, level as int, slot as int)
                &&& !control::occupied(self.levels@[level as int].controls()[slot as int])
                &&& slot_of(hash, level, logical, self.capacities@[level as int] as nat) == Some(
                    slot,
                )
            },
    {
        let levels = self.levels@;
        let searched = UNIFORM_SEARCH_CAP as nat;
        if levels.len() > 0 {
            assert(levels[0].wf());
            lemma_vacancy(levels[0].controls(), hash, 0, 0, searched);
            if let BatchTarget::LevelPair(current) = target {
                if current + 1 < levels.len() {
                    let now = levels[current as int];
                    let next = levels[current + 1];
                    assert(now.wf() && next.wf());
                    lemma_vacancy(now.controls(), hash, current as nat, 0, searched);
                    lemma_vacancy(next.controls(), hash, current as nat + 1, 0, searched);
                    lemma_vacancy(
                        now.controls(),
                        hash,
                        current as nat,
                        0,
                        phi::dyadic_budget(
                            free_in(now),
                            now.values().len(),
                            self.reserve_fraction.d() as nat,
                            ELASTIC_PROBE_BUDGET_C as nat,
                        ),
                    );
                }
            }
        }
    }
}

/// More steps reach what fewer did.
proof fn lemma_reached_longer(
    steps: Seq<PhiRoute>,
    longer: Seq<PhiRoute>,
    capacities: Seq<usize>,
    hash: u64,
    level: nat,
    slot: nat,
)
    requires
        steps.is_prefix_of(longer),
        reached(steps, capacities, hash, level, slot),
    ensures
        reached(longer, capacities, hash, level, slot),
{
    let logical = choose|logical: nat| #[trigger]
        reached_by(steps, capacities, hash, level, slot, logical);
    assert(reached_by(steps, capacities, hash, level, slot, logical));
    if elastic_schedule::scheduled(steps, level, logical) {
        let i = choose|i: int|
            0 <= i < steps.len() && (#[trigger] steps[i]).visits(level, logical);
        assert(longer[i] == steps[i]);
    }
    assert(reached_by(longer, capacities, hash, level, slot, logical));
}

impl<K: Eq, V, S: HashBuilder<K>> ElasticTable<K, V, S> {
    /// Whether the layout, the reserve fraction and the hash builder are as in
    /// another table.
    closed spec fn same_setting(&self, other: &Self) -> bool {
        &&& self.capacities@ == other.capacities@
        &&& self.total_slots == other.total_slots
        &&& self.max_insertions == other.max_insertions
        &&& self.reserve_fraction == other.reserve_fraction
        &&& self.hash_builder == other.hash_builder
    }

    /// Whether the slots are those of another table, with an entry in one of them.
    closed spec fn filled_at(
        &self,
        before: &Self,
        level: int,
        slot: int,
        entry: SlotEntry<K, V>,
    ) -> bool {
        &&& self.levels@.len() == before.levels@.len()
        &&& forall|l: int|
            0 <= l < before.levels@.len() ==> (#[trigger] self.levels@[l]).values() == if l
                == level {
                before.levels@[l].values().update(slot, Some(entry))
            } else {
                before.levels@[l].values()
            } && self.levels@[l].controls() == if l == level {
                before.levels@[l].controls().update(
                    slot,
                    control::fingerprint(self.hash_builder.hash_of(entry.key)),
                )
            } else {
                before.levels@[l].controls()
            }
    }

    /// An entry in the slot that the construction chooses, or in the first free slot
    /// where it chooses none, makes a table with one more entry.
    proof fn lemma_gained(&self, after: Self, loc: ElasticLocation, key: K, value: V)
        requires
            self.shape_inv(),
            after.inv(),
            after.same_setting(self),
            after.stored_entries() == self.stored_entries().insert(key, value),
            in_range(self.levels@, loc.level as int, loc.slot as int),
            cell(self.levels@, loc.level as int, loc.slot as int) is None,
            after.filled_at(self, loc.level as int, loc.slot as int, SlotEntry { key, value }),
            match self.paper_place(self.hash_builder.hash_of(key)) {
                Some((level, slot, _)) => loc.level == level && loc.slot == slot
                    && after.exceptional_placement == self.exceptional_placement,
                None => self.is_first_free(loc) && after.exceptional_placement,
            },
        ensures
            after.gained(self, key, value),
    {
        assert forall|other: ElasticLocation| #[trigger]
            after.key_at(other) == if other == loc {
                Some(key)
            } else {
                self.key_at(other)
            } by {
            if 0 <= other.level < self.levels@.len() {
                let level = after.levels@[other.level as int];
                assert(level.values().len() == self.levels@[other.level as int].values().len());
            }
        }
        control::law_sentinels_are_not_fingerprints(self.hash_builder.hash_of(key));
        assert forall|other: ElasticLocation| #[trigger]
            after.buried_at(other) == (other != loc && self.buried_at(other)) by {
            if 0 <= other.level < self.levels@.len() {
                let level = after.levels@[other.level as int];
                assert(level.values().len() == self.levels@[other.level as int].values().len());
                assert(self.levels@[other.level as int].wf());
            }
        }
        assert(after.gained_at(self, key, loc));
    }

    /// Fills a free slot with an entry whose key is absent.
    fn write_new_entry(
        &mut self,
        key: K,
        value: V,
        prepared: PreparedElasticKey,
        key_fingerprint: u8,
        level: usize,
        slot: usize,
        Ghost(hash): Ghost<u64>,
    )
        requires
            old(self).inv(),
            in_range(old(self).levels@, level as int, slot as int),
            !control::occupied(old(self).levels@[level as int].controls()[slot as int]),
            hash == old(self).hash_builder.hash_of(key),
            prepared.is_for(hash),
            key_fingerprint == control::fingerprint(hash),
            old(self).len < old(self).max_insertions,
            table::stored(old(self).stored_entries(), key) is None,
            old(self).exceptional_placement || reached(
                old(self).schedule.steps(),
                old(self).capacities@,
                hash,
                level as nat,
                slot as nat,
            ),
        ensures
            final(self).inv(),
            final(self).same_setting(old(self)),
            final(self).epoch == old(self).epoch,
            final(self).len == old(self).len + 1,
            final(self).exceptional_placement == old(self).exceptional_placement,
            final(self).stored_entries() == old(self).stored_entries().insert(key, value),
            in_range(final(self).levels@, level as int, slot as int),
            cell(final(self).levels@, level as int, slot as int) == Some(
                SlotEntry { key, value },
            ),
            final(self).filled_at(old(self), level as int, slot as int, SlotEntry { key, value }),
            elastic_filter::model(final(self).metadata@) == elastic_filter::with_record(
                elastic_filter::model(old(self).metadata@),
                elastic_filter::probe_of(hash).signature(),
                level as nat,
            ),
            final(self).stale_membership == old(self).stale_membership,
            old(self).filter_is_exact() ==> final(self).filter_is_exact(),
    {
        let ghost before = *self;
        proof {
            control::law_sentinels_are_not_fingerprints(hash);
            assert(self.levels@[level as int].wf());
        }
        self.levels[level].fill(slot, SlotEntry { key, value }, key_fingerprint);
        self.metadata.record(prepared, level);
        self.len = self.len + 1;
        proof {
            let entries = before.stored_entries();
            assert(!before.index@.contains_key(key)) by {
                if before.index@.contains_key(key) {
                    assert(entries.contains_key(key));
                    assert(hashing::same_key(key, key));
                    assert(key.stands_for(key));
                }
            }
            self.index@ = before.index@.insert(key, (level as nat, slot as nat));
            before.lemma_after_writing(*self, level as int, slot as int, key, value, hash);
            assert(cell(before.levels@, level as int, slot as int) is None);
            lemma_filled_levels(
                elastic_filter::blank_model(before.metadata@.len()),
                before.levels@,
                self.levels@,
                level as int,
                slot as int,
                SlotEntry { key, value },
                self.hash_builder,
                before.levels@.len(),
            );
        }
    }

    /// Filling a free slot keeps the invariant.
    proof fn lemma_after_writing(
        &self,
        after: Self,
        level: int,
        slot: int,
        key: K,
        value: V,
        hash: u64,
    )
        requires
            self.inv(),
            in_range(self.levels@, level, slot),
            !control::occupied(self.levels@[level].controls()[slot]),
            hash == self.hash_builder.hash_of(key),
            self.len < self.max_insertions,
            !self.index@.contains_key(key),
            table::stored(self.stored_entries(), key) is None,
            self.exceptional_placement || reached(
                self.schedule.steps(),
                self.capacities@,
                hash,
                level as nat,
                slot as nat,
            ),
            after.same_setting(self),
            after.len == self.len + 1,
            after.exceptional_placement == self.exceptional_placement,
            after.schedule == self.schedule,
            after.scheduler == self.scheduler,
            after.levels@ == self.levels@.update(level, after.levels@[level]),
            after.levels@[level].wf(),
            after.levels@[level].live() == self.levels@[level].live() + 1,
            after.levels@[level].controls() == self.levels@[level].controls().update(
                slot,
                control::fingerprint(hash),
            ),
            after.levels@[level].values() == self.levels@[level].values().update(
                slot,
                Some(SlotEntry { key, value }),
            ),
            after.metadata@.len() == self.metadata@.len(),
            self.metadata@.len() > 0 ==> elastic_filter::admits(
                after.metadata@,
                elastic_filter::probe_of(hash).signature(),
                level as nat,
            ),
            forall|signature: u64, other: nat|
                other < 32 && elastic_filter::admits(self.metadata@, signature, other)
                    ==> #[trigger] elastic_filter::admits(after.metadata@, signature, other),
            after.index@ == self.index@.insert(key, (level as nat, slot as nat)),
        ensures
            after.inv(),
            after.stored_entries() == self.stored_entries().insert(key, value),
    {
        let from = self.levels@;
        let to = after.levels@;
        let entries = self.stored_entries();
        assert(from[level].wf());
        assert(cell(from, level, slot) is None);
        assert forall|l: int, s: int| in_range(to, l, s) implies in_range(from, l, s)
            && #[trigger] cell(to, l, s) == if l == level && s == slot {
            Some(SlotEntry { key, value })
        } else {
            cell(from, l, s)
        } by {
            if l != level {
                assert(to[l] == from[l]);
            }
        }
        lemma_total_live_update(from, level, to[level]);
        assert forall|l: int| 0 <= l < from.len() implies (#[trigger] to[l]).wf()
            && to[l].values().len() == from[l].values().len() by {
            assert(from[l].wf());
        }
        self.lemma_same_shape(after);
        assert(after.order_inv());
        assert forall|l: int, s: int| in_range(to, l, s) && (
        #[trigger] cell(to, l, s)) is Some implies after.well_placed(
            l,
            s,
            cell(to, l, s)->0.key,
        ) by {
            if l == level && s == slot {
                assert(self.metadata@.len() > 0) by {
                    assert(self.total_slots > 0);
                }
            } else {
                assert(cell(from, l, s) is Some);
                assert(self.well_placed(l, s, cell(from, l, s)->0.key));
            }
        }
        assert(indexes(after.index@, to)) by {
            assert forall|stored: K| #[trigger] after.index@.contains_key(stored) implies in_range(
                to,
                after.index@[stored].0 as int,
                after.index@[stored].1 as int,
            ) && (cell(
                to,
                after.index@[stored].0 as int,
                after.index@[stored].1 as int,
            ) matches Some(entry) && entry.key == stored) by {
                if stored != key {
                    assert(self.index@.contains_key(stored));
                    let place = self.index@[stored];
                    assert(cell(from, place.0 as int, place.1 as int) is Some);
                    assert(in_range(to, place.0 as int, place.1 as int));
                    assert(cell(to, place.0 as int, place.1 as int) == cell(
                        from,
                        place.0 as int,
                        place.1 as int,
                    ));
                }
            }
            assert forall|l: int, s: int| in_range(to, l, s) && (
            #[trigger] cell(to, l, s)) is Some implies after.index@.contains_key(
                cell(to, l, s)->0.key,
            ) && after.index@[cell(to, l, s)->0.key] == (l as nat, s as nat) by {
                if !(l == level && s == slot) {
                    assert(cell(from, l, s) is Some);
                }
            }
        }
        assert forall|left: K, right: K|
            after.index@.contains_key(left) && after.index@.contains_key(right)
                && #[trigger] hashing::same_key(left, right) implies left == right by {
            if left != right {
                assert(hashing::same_key(right, left));
                if left == key {
                    assert(entries.contains_key(right));
                    assert(key.stands_for(right));
                } else if right == key {
                    assert(entries.contains_key(left));
                    assert(key.stands_for(left));
                }
            }
        }
        assert(after.index_inv());
        assert(after.placement_inv());
        assert(after.counts_inv());
        assert(after.stored_entries() =~= entries.insert(key, value)) by {
            assert forall|stored: K| #[trigger]
                after.stored_entries().contains_key(stored) implies after.stored_entries()[stored]
                == entries.insert(key, value)[stored] by {
                if stored != key {
                    assert(self.index@.contains_key(stored));
                    let place = self.index@[stored];
                    assert(in_range(to, place.0 as int, place.1 as int));
                    assert(cell(from, place.0 as int, place.1 as int) is Some);
                    assert(cell(to, place.0 as int, place.1 as int) == cell(
                        from,
                        place.0 as int,
                        place.1 as int,
                    ));
                }
            }
        }
    }

    /// Places an entry whose key is absent where it was chosen to go.
    fn place_new_entry(
        &mut self,
        key: K,
        value: V,
        prepared: PreparedElasticKey,
        key_fingerprint: u8,
        placement: ExactPlacement,
        Ghost(hash): Ghost<u64>,
        Ghost(target): Ghost<BatchTarget>,
    )
        requires
            old(self).inv(),
            hash == old(self).hash_builder.hash_of(key),
            prepared.is_for(hash),
            key_fingerprint == control::fingerprint(hash),
            old(self).len < old(self).max_insertions,
            table::stored(old(self).stored_entries(), key) is None,
            placement_for(
                old(self).levels@,
                old(self).reserve_fraction,
                hash,
                target,
            ) matches Some((level, slot, logical)) && placement.level == level && placement.slot
                == slot && placement.phi as nat == elastic_schedule::position(level, logical),
        ensures
            final(self).inv(),
            final(self).same_setting(old(self)),
            final(self).epoch == old(self).epoch,
            final(self).len == old(self).len + 1,
            final(self).exceptional_placement == old(self).exceptional_placement,
            final(self).stored_entries() == old(self).stored_entries().insert(key, value),
            in_range(final(self).levels@, placement.level as int, placement.slot as int),
            cell(final(self).levels@, placement.level as int, placement.slot as int) == Some(
                SlotEntry { key, value },
            ),
            in_range(old(self).levels@, placement.level as int, placement.slot as int),
            cell(old(self).levels@, placement.level as int, placement.slot as int) is None,
            final(self).filled_at(
                old(self),
                placement.level as int,
                placement.slot as int,
                SlotEntry { key, value },
            ),
            elastic_filter::model(final(self).metadata@) == elastic_filter::with_record(
                elastic_filter::model(old(self).metadata@),
                elastic_filter::probe_of(hash).signature(),
                placement.level as nat,
            ),
            final(self).stale_membership == old(self).stale_membership,
            old(self).filter_is_exact() ==> final(self).filter_is_exact(),
    {
        let ghost before = *self;
        proof {
            self.lemma_place(hash, target);
            assert(self.levels@[placement.level as int].wf());
            assert(cell(self.levels@, placement.level as int, placement.slot as int) is None);
            assert forall|i: int| 0 <= i < self.capacities@.len() implies #[trigger] self.capacities@[i]
                <= u32::MAX by {
                assert(self.levels@[i].wf());
            }
        }
        let ghost (_, _, logical) = placement_for(
            self.levels@,
            self.reserve_fraction,
            hash,
            target,
        )->0;
        self.schedule.extend(self.capacities.as_slice(), placement.phi);
        proof {
            elastic_schedule::law_query_probe_limit(placement.level as nat, logical);
            let steps = self.schedule.steps();
            assert forall|l: int, s: int| in_range(self.levels@, l, s) && (
            #[trigger] cell(self.levels@, l, s)) is Some implies self.well_placed(
                l,
                s,
                cell(self.levels@, l, s)->0.key,
            ) by {
                let held = cell(self.levels@, l, s)->0.key;
                assert(before.well_placed(l, s, held));
                if !self.exceptional_placement {
                    lemma_reached_longer(
                        before.schedule.steps(),
                        steps,
                        self.capacities@,
                        self.hash_builder.hash_of(held),
                        l as nat,
                        s as nat,
                    );
                }
            }
            if !(placement.level == 0 && logical == 0) {
                assert(elastic_schedule::due(
                    placement.level as nat,
                    logical,
                    self.capacities@.len(),
                    self.schedule.high(),
                ));
                assert(elastic_schedule::scheduled(steps, placement.level as nat, logical));
            }
            assert(reached_by(
                steps,
                self.capacities@,
                hash,
                placement.level as nat,
                placement.slot as nat,
                logical,
            ));
            assert(self.stored_entries() == before.stored_entries());
            before.lemma_same_shape(*self);
        }
        self.write_new_entry(
            key,
            value,
            prepared,
            key_fingerprint,
            placement.level,
            placement.slot,
            Ghost(hash),
        );
    }

    /// The first free slot, level by level.
    fn first_free_slot(&self) -> (result: Option<(usize, usize)>)
        requires
            self.shape_inv(),
        ensures
            match result {
                Some((level, slot)) => {
                    &&& in_range(self.levels@, level as int, slot as int)
                    &&& !control::occupied(self.levels@[level as int].controls()[slot as int])
                    &&& forall|l: int, s: int|
                        in_range(self.levels@, l, s) && (l < level || l == level && s < slot)
                            ==> #[trigger] cell(self.levels@, l, s) is Some
                },
                None => forall|l: int, s: int|
                    in_range(self.levels@, l, s) ==> #[trigger] cell(self.levels@, l, s) is Some,
            },
    {
        let mut level: usize = 0;
        while level < self.levels.len()
            invariant
                self.shape_inv(),
                level <= self.levels@.len(),
                forall|l: int, s: int|
                    l < level && in_range(self.levels@, l, s) ==> #[trigger] cell(
                        self.levels@,
                        l,
                        s,
                    ) is Some,
            decreases self.levels@.len() - level,
        {
            let capacity: usize = self.levels[level].capacity();
            let mut slot: usize = 0;
            proof {
                assert(self.levels@[level as int].wf());
            }
            while slot < capacity
                invariant
                    self.shape_inv(),
                    level < self.levels@.len(),
                    self.levels@[level as int].wf(),
                    capacity == self.levels@[level as int].values().len(),
                    slot <= capacity,
                    forall|l: int, s: int|
                        l < level && in_range(self.levels@, l, s) ==> #[trigger] cell(
                            self.levels@,
                            l,
                            s,
                        ) is Some,
                    forall|s: int|
                        0 <= s < slot ==> #[trigger] cell(self.levels@, level as int, s) is Some,
                decreases capacity - slot,
            {
                if self.levels[level].storage.control_at(slot).is_free() {
                    return Some((level, slot));
                }
                slot = slot + 1;
            }
            level = level + 1;
        }
        None
    }

    /// A table below its limit has a free slot.
    proof fn lemma_has_free_slot(&self)
        requires
            self.inv(),
            self.len < self.max_insertions,
        ensures
            exists|l: int, s: int|
                in_range(self.levels@, l, s) && #[trigger] cell(self.levels@, l, s) is None,
    {
        if forall|l: int, s: int|
            in_range(self.levels@, l, s) ==> #[trigger] cell(self.levels@, l, s) is Some {
            assert forall|l: int| 0 <= l < self.levels@.len() implies (
            #[trigger] self.levels@[l]).live() >= self.capacities@[l] by {
                let level = self.levels@[l];
                assert(level.wf());
                assert forall|s: int| 0 <= s < level.controls().len() implies control::occupied(
                    #[trigger] level.controls()[s],
                ) by {
                    assert(cell(self.levels@, l, s) is Some);
                }
                slots::lemma_counts_bounds(level.controls(), level.controls().len());
            }
            lemma_full_levels(self.levels@, self.capacities@);
            elastic_geometry::law_levels_tile_the_slots(
                self.total_slots as nat,
                self.reserve_fraction,
            );
            let lengths = elastic_geometry::level_lengths(
                self.total_slots as nat,
                self.reserve_fraction,
            );
            assert(self.capacities@.map_values(|c: usize| c as nat) =~= lengths);
            capacity::law_insertion_limit_bounds(self.total_slots as nat, self.reserve_fraction);
        }
    }

    /// Places an entry whose key is absent into the first free slot.
    fn place_exceptional_entry(
        &mut self,
        key: K,
        value: V,
        prepared: PreparedElasticKey,
        key_fingerprint: u8,
        Ghost(hash): Ghost<u64>,
    ) -> (result: (usize, usize))
        requires
            old(self).inv(),
            hash == old(self).hash_builder.hash_of(key),
            prepared.is_for(hash),
            key_fingerprint == control::fingerprint(hash),
            old(self).len < old(self).max_insertions,
            table::stored(old(self).stored_entries(), key) is None,
        ensures
            final(self).inv(),
            final(self).same_setting(old(self)),
            final(self).epoch == old(self).epoch,
            final(self).len == old(self).len + 1,
            final(self).exceptional_placement,
            final(self).stored_entries() == old(self).stored_entries().insert(key, value),
            in_range(final(self).levels@, result.0 as int, result.1 as int),
            cell(final(self).levels@, result.0 as int, result.1 as int) == Some(
                SlotEntry { key, value },
            ),
            in_range(old(self).levels@, result.0 as int, result.1 as int),
            old(self).is_first_free(ElasticLocation { level: result.0, slot: result.1 }),
            final(self).filled_at(
                old(self),
                result.0 as int,
                result.1 as int,
                SlotEntry { key, value },
            ),
            final(self).stale_membership == old(self).stale_membership,
            old(self).filter_is_exact() ==> final(self).filter_is_exact(),
    {
        let ghost before = *self;
        proof {
            self.lemma_has_free_slot();
        }
        let (level, slot) = self.first_free_slot().unwrap();
        self.exceptional_placement = true;
        proof {
            assert forall|l: int, s: int| in_range(self.levels@, l, s) && (
            #[trigger] cell(self.levels@, l, s)) is Some implies self.well_placed(
                l,
                s,
                cell(self.levels@, l, s)->0.key,
            ) by {
                assert(before.well_placed(l, s, cell(before.levels@, l, s)->0.key));
            }
            assert(self.stored_entries() == before.stored_entries());
            assert(self.inv());
        }
        self.write_new_entry(key, value, prepared, key_fingerprint, level, slot, Ghost(hash));
        (level, slot)
    }

    /// Stores an entry whose key is absent where the construction places it, or in
    /// the first free slot if there is no such place, and says which.
    fn insert_unique(&mut self, key: K, value: V) -> (result: bool)
        requires
            old(self).inv(),
            old(self).len < old(self).max_insertions,
            table::stored(old(self).stored_entries(), key) is None,
        ensures
            final(self).inv(),
            final(self).same_setting(old(self)),
            final(self).epoch == old(self).epoch,
            final(self).len == old(self).len + 1,
            final(self).exceptional_placement == (old(self).exceptional_placement || result),
            final(self).stored_entries() == old(self).stored_entries().insert(key, value),
            final(self).gained(old(self), key, value),
            result == (old(self).place_of_new(key) is None),
            final(self).stale_membership == old(self).stale_membership,
            old(self).filter_is_exact() ==> final(self).filter_is_exact(),
    {
        let ghost before = *self;
        let key_hash: u64 = self.hash_builder.hash_one(&key);
        let prepared: PreparedElasticKey = PreparedElasticKey::new(key_hash);
        let key_fingerprint: u8 = control::control_fingerprint(key_hash);
        let target: BatchTarget = self.next_target();
        proof {
            before.lemma_len();
            batch::law_target_is_unique(
                before.scheduler.ends(),
                before.len as nat,
                target,
                before.upcoming_target(),
            );
        }
        match self.choose_slot_for_new_key(prepared.route.probe, target, Ghost(key_hash)) {
            Some(placement) => {
                self.place_new_entry(
                    key,
                    value,
                    prepared,
                    key_fingerprint,
                    placement,
                    Ghost(key_hash),
                    Ghost(target),
                );
                proof {
                    let loc = ElasticLocation { level: placement.level, slot: placement.slot };
                    before.lemma_gained(*self, loc, key, value);
                }
                false
            },
            None => {
                let (level, slot) = self.place_exceptional_entry(
                    key,
                    value,
                    prepared,
                    key_fingerprint,
                    Ghost(key_hash),
                );
                proof {
                    before.lemma_gained(*self, ElasticLocation { level, slot }, key, value);
                }
                true
            },
        }
    }

    /// The target of the next insertion.
    fn next_target(&mut self) -> (result: BatchTarget)
        requires
            old(self).inv(),
        ensures
            final(self).inv(),
            final(self).same_setting(old(self)),
            final(self).levels == old(self).levels,
            final(self).epoch == old(self).epoch,
            final(self).len == old(self).len,
            final(self).exceptional_placement == old(self).exceptional_placement,
            final(self).stored_entries() == old(self).stored_entries(),
            batch::is_target(old(self).scheduler.ends(), old(self).len as nat, result),
            final(self).scheduler.ends() == old(self).scheduler.ends(),
            final(self).metadata == old(self).metadata,
            final(self).stale_membership == old(self).stale_membership,
    {
        let ghost before = *self;
        let target: BatchTarget = self.scheduler.target(self.len);
        proof {
            assert forall|l: int, s: int| in_range(self.levels@, l, s) && (
            #[trigger] cell(self.levels@, l, s)) is Some implies self.well_placed(
                l,
                s,
                cell(self.levels@, l, s)->0.key,
            ) by {
                assert(before.well_placed(l, s, cell(before.levels@, l, s)->0.key));
            }
        }
        target
    }
}

/// Levels that are all full hold as many entries as they have slots.
proof fn lemma_full_levels<T>(levels: Seq<Level<T>>, capacities: Seq<usize>)
    requires
        levels.len() == capacities.len(),
        forall|l: int| 0 <= l < levels.len() ==> (#[trigger] levels[l]).live() >= capacities[l],
    ensures
        total_live(levels) >= partition::sum(capacities.map_values(|c: usize| c as nat)),
    decreases levels.len(),
{
    if levels.len() > 0 {
        let fewer = levels.drop_last();
        assert forall|l: int| 0 <= l < fewer.len() implies (#[trigger] fewer[l]).live()
            >= capacities.drop_last()[l] by {
            assert(fewer[l] == levels[l]);
        }
        lemma_full_levels(fewer, capacities.drop_last());
        let all = capacities.map_values(|c: usize| c as nat);
        let shorter = capacities.drop_last().map_values(|c: usize| c as nat);
        assert(all =~= shorter.push(capacities.last() as nat));
        partition::lemma_sum_push(shorter, capacities.last() as nat);
        assert(levels.last().live() >= capacities.last()) by {
            assert(levels[levels.len() - 1].live() >= capacities[levels.len() - 1]);
        }
    }
}

/// The block of the control bytes and entries of `slots` slots.
pub open spec fn entries_block<K, V>(slots: nat) -> BlockLayout {
    let entry_size = vstd::layout::size_of::<SlotEntry<K, V>>();
    let entry_align = vstd::layout::align_of::<SlotEntry<K, V>>();
    if slots == 0 {
        BlockLayout { size: 0, align: CACHE_LINE }
    } else {
        let align = layout::wider(CACHE_LINE as nat, entry_align);
        BlockLayout {
            size: layout::rounded_up(
                layout::rounded_up(slots, entry_align) + slots * entry_size,
                align,
            ) as usize,
            align: align as usize,
        }
    }
}

/// Where the entries stand in their block.
pub open spec fn entries_offset<K, V>(slots: nat) -> nat {
    if slots == 0 {
        0
    } else {
        layout::rounded_up(slots, vstd::layout::align_of::<SlotEntry<K, V>>())
    }
}

/// Why the storage of `slots` slots cannot be had, if it cannot: the block with
/// its filter tail is too large to address, or an offset in it has more than 32
/// bits.
pub open spec fn storage_refusal<K, V>(slots: nat) -> Option<TryReserveError> {
    let entry_size = vstd::layout::size_of::<SlotEntry<K, V>>();
    let entry_align = vstd::layout::align_of::<SlotEntry<K, V>>();
    if !layout::has_block(slots, slots, entry_size, entry_align) || !MembershipRegion::fits(
        entries_block::<K, V>(slots),
        slots,
        vstd::layout::size_of::<ElasticMetadataWord>(),
        vstd::layout::align_of::<ElasticMetadataWord>(),
    ) {
        Some(TryReserveError::AllocError)
    } else if entry_size > u32::MAX || slots > u32::MAX || entries_offset::<K, V>(slots) + slots
        * entry_size > u32::MAX {
        Some(TryReserveError::CapacityOverflow)
    } else {
        None
    }
}

/// Why a table of `slots` slots cannot be laid out, if it cannot.
pub open spec fn table_refusal<K, V>(slots: nat) -> Option<TryReserveError> {
    if slots > elastic_geometry::slot_limit() {
        Some(TryReserveError::CapacityOverflow)
    } else {
        storage_refusal::<K, V>(slots)
    }
}

/// An empty table needs no slots: it can be built unless an entry has more than
/// 32 bits of size.
pub proof fn law_empty_table_builds<K: Eq, V, S: HashBuilder<K>>(reserve: ReserveFraction)
    requires
        vstd::layout::size_of::<SlotEntry<K, V>>() <= u32::MAX,
    ensures
        <ElasticTable<K, V, S> as TableModel<K, V>>::build_slots(0, reserve) == Ok::<
            nat,
            TryBuildError,
        >(0),
{
}

/// The block of an Elastic table's storage.
#[derive(Debug, Clone, Copy, PartialEq, Eq, Structural)]
pub struct ElasticArenaLayout {
    /// The whole block.
    pub layout: BlockLayout,
    /// The offset of the entries.
    pub data_base_off: usize,
    /// The filter tail.
    pub membership: MembershipRegion,
}

/// The block of control bytes, entries and filter words of `total_slots` slots.
pub fn elastic_arena_layout<K, V>(total_slots: usize) -> (result: Result<
    ElasticArenaLayout,
    TryReserveError,
>)
    ensures
        match result {
            Ok(arena) => {
                let base = entries_block::<K, V>(total_slots as nat);
                let size = vstd::layout::size_of::<ElasticMetadataWord>();
                let align = vstd::layout::align_of::<ElasticMetadataWord>();
                &&& storage_refusal::<K, V>(total_slots as nat) != Some(TryReserveError::AllocError)
                &&& arena.data_base_off as nat == entries_offset::<K, V>(total_slots as nat)
                &&& arena.membership.words as nat == membership::words_for(total_slots as nat)
                &&& if total_slots == 0 {
                    arena.layout == base && arena.membership.offset == 0
                } else {
                    &&& base.extends_to(
                        membership::words_for(total_slots as nat),
                        size,
                        align,
                        arena.layout,
                    )
                    &&& arena.membership.offset as nat == base.offset_of_next(align)
                }
            },
            Err(error) => error == TryReserveError::AllocError && storage_refusal::<K, V>(
                total_slots as nat,
            ) == Some(TryReserveError::AllocError),
        },
{
    match layout_for::<K, V>(total_slots) {
        Ok((base, data_base_off)) => {
            assert(base == entries_block::<K, V>(total_slots as nat));
            match MembershipRegion::extend::<ElasticMetadataWord>(base, total_slots) {
                Ok((layout, membership)) => Ok(
                    ElasticArenaLayout { layout, data_base_off, membership },
                ),
                Err(error) => Err(error),
            }
        },
        Err(error) => Err(error),
    }
}

/// Whether the regions of some levels fit one block, one after the other.
fn check_regions<K, V>(level_capacities: &[usize], total_slots: usize) -> (result: Result<
    (),
    TryReserveError,
>)
    requires
        partition::sum(level_capacities@.map_values(|c: usize| c as nat)) == total_slots,
    ensures
        match result {
            Ok(_) => storage_refusal::<K, V>(total_slots as nat) is None,
            Err(error) => storage_refusal::<K, V>(total_slots as nat) == Some(error),
        },
{
    let arena: ElasticArenaLayout = match elastic_arena_layout::<K, V>(total_slots) {
        Ok(arena) => arena,
        Err(error) => {
            return Err(error);
        },
    };
    let ghost numbers = level_capacities@.map_values(|c: usize| c as nat);
    let ghost size = vstd::layout::size_of::<SlotEntry<K, V>>();
    let ghost offset = entries_offset::<K, V>(total_slots as nat);
    assert(0 <= total_slots * size) by (nonlinear_arith);
    vstd::layout::layout_for_type_is_valid::<SlotEntry<K, V>>();
    let mut cursor: LayoutCursor = match LayoutCursor::new(
        arena.data_base_off,
        core::mem::size_of::<SlotEntry<K, V>>(),
    ) {
        Ok(cursor) => cursor,
        Err(error) => {
            return Err(error);
        },
    };
    let mut index: usize = 0;
    proof {
        assert(numbers.take(0) =~= Seq::<nat>::empty());
    }
    while index < level_capacities.len()
        invariant
            numbers == level_capacities@.map_values(|c: usize| c as nat),
            partition::sum(numbers) == total_slots,
            size == vstd::layout::size_of::<SlotEntry<K, V>>(),
            offset == entries_offset::<K, V>(total_slots as nat),
            storage_refusal::<K, V>(total_slots as nat) != Some(TryReserveError::AllocError),
            index <= level_capacities@.len(),
            cursor.slot_size == size,
            cursor.ctrl_off == partition::sum(numbers.take(index as int)),
            cursor.data_off == offset + partition::sum(numbers.take(index as int)) * size,
        decreases level_capacities@.len() - index,
    {
        let capacity: usize = level_capacities[index];
        proof {
            let before = partition::sum(numbers.take(index as int));
            let after = partition::sum(numbers.take(index + 1));
            partition::lemma_sum_push(numbers.take(index as int), capacity as nat);
            assert(numbers.take(index + 1) =~= numbers.take(index as int).push(capacity as nat));
            partition::lemma_prefix_sum_within(numbers, index + 1);
            assert(after * size == before * size + capacity * size) by (nonlinear_arith)
                requires
                    after == before + capacity,
            ;
            assert(after * size <= total_slots * size) by (nonlinear_arith)
                requires
                    after <= total_slots,
                    size >= 0,
            ;
        }
        if capacity as u64 > u32::MAX as u64 {
            return Err(TryReserveError::CapacityOverflow);
        }
        match cursor.reserve(capacity as u32) {
            Ok(_) => {},
            Err(error) => {
                return Err(error);
            },
        }
        index = index + 1;
    }
    proof {
        assert(numbers.take(numbers.len() as int) =~= numbers);
    }
    Ok(())
}

/// Whether levels are empty and have given lengths.
pub open spec fn is_fresh<T>(levels: Seq<Level<T>>, capacities: Seq<usize>) -> bool {
    &&& levels.len() == capacities.len()
    &&& forall|l: int|
        0 <= l < levels.len() ==> (#[trigger] levels[l]).wf() && levels[l].is_blank()
            && levels[l].values().len() == capacities[l]
}

/// Empty levels of given lengths.
fn allocate_levels<T>(level_capacities: &[usize]) -> (result: Vec<Level<T>>)
    ensures
        is_fresh(result@, level_capacities@),
{
    let mut levels: Vec<Level<T>> = Vec::new();
    let mut index: usize = 0;
    while index < level_capacities.len()
        invariant
            index <= level_capacities@.len(),
            levels@.len() == index,
            forall|l: int|
                0 <= l < levels@.len() ==> (#[trigger] levels@[l]).wf() && levels@[l].is_blank()
                    && levels@[l].values().len() == level_capacities@[l],
        decreases level_capacities@.len() - index,
    {
        levels.push(Level::over(Slots::new(level_capacities[index], 0)));
        index = index + 1;
    }
    levels
}

/// Empty levels of given lengths; refused when the memory cannot be had.
fn try_allocate_levels<T>(level_capacities: &[usize]) -> (result: Result<
    Vec<Level<T>>,
    TryReserveError,
>)
    ensures
        match result {
            Ok(levels) => is_fresh(levels@, level_capacities@),
            Err(error) => error == TryReserveError::AllocError && level_capacities@.len() > 0,
        },
{
    let mut levels: Vec<Level<T>> = Vec::new();
    if level_capacities.len() == 0 {
        return Ok(levels);
    }
    if levels.try_reserve(level_capacities.len()).is_err() {
        return Err(TryReserveError::AllocError);
    }
    let mut index: usize = 0;
    while index < level_capacities.len()
        invariant
            index <= level_capacities@.len(),
            levels@.len() == index,
            level_capacities@.len() > 0,
            forall|l: int|
                0 <= l < levels@.len() ==> (#[trigger] levels@[l]).wf() && levels@[l].is_blank()
                    && levels@[l].values().len() == level_capacities@[l],
        decreases level_capacities@.len() - index,
    {
        match Slots::try_new(level_capacities[index], 0) {
            Ok(storage) => {
                levels.push(Level::over(storage));
            },
            Err(error) => {
                return Err(error);
            },
        }
        index = index + 1;
    }
    Ok(levels)
}

/// What a table needs besides its geometry: empty levels, an empty filter, and
/// an empty lookup order.
pub struct ElasticParts<K, V> {
    levels: Vec<Level<SlotEntry<K, V>>>,
    metadata: RouteMetadata,
    schedule: ProbeSchedule,
}

impl<K, V> ElasticParts<K, V> {
    /// Whether the parts are empty and belong to a geometry.
    closed spec fn fits(self, geometry: ElasticGeometry) -> bool {
        &&& is_fresh(self.levels@, geometry.level_capacities@)
        &&& self.metadata@.len() == membership::words_for(geometry.total_slots as nat)
        &&& forall|i: int|
            0 <= i < self.metadata@.len() ==> elastic_filter::is_blank(#[trigger] self.metadata@[i])
        &&& self.schedule.steps().len() == 0
        &&& self.schedule.high() == 0
    }

    /// The parts of a geometry.
    fn allocate(geometry: &ElasticGeometry) -> (result: Self)
        ensures
            result.fits(*geometry),
    {
        ElasticParts {
            levels: allocate_levels(geometry.level_capacities.as_slice()),
            metadata: RouteMetadata::new(membership::word_count(geometry.total_slots)),
            schedule: ProbeSchedule::new(),
        }
    }

    /// The parts of a geometry, or why they cannot be had.
    fn try_allocate(geometry: &ElasticGeometry, Ghost(reserve): Ghost<ReserveFraction>) -> (result:
        Result<Self, TryReserveError>)
        requires
            reserve.wf(),
            geometry.total_slots <= elastic_geometry::slot_limit(),
            geometry.is_for(geometry.total_slots as nat, reserve),
        ensures
            match result {
                Ok(parts) => parts.fits(*geometry) && storage_refusal::<K, V>(
                    geometry.total_slots as nat,
                ) is None,
                Err(error) => match storage_refusal::<K, V>(geometry.total_slots as nat) {
                    Some(refusal) => error == refusal,
                    None => error == TryReserveError::AllocError && geometry.total_slots > 0,
                },
            },
    {
        let capacities = geometry.level_capacities.as_slice();
        proof {
            elastic_geometry::law_levels_tile_the_slots(geometry.total_slots as nat, reserve);
            assert(capacities@.map_values(|c: usize| c as nat) =~= elastic_geometry::level_lengths(
                geometry.total_slots as nat,
                reserve,
            ));
        }
        match check_regions::<K, V>(capacities, geometry.total_slots) {
            Ok(_) => {},
            Err(error) => {
                return Err(error);
            },
        }
        let schedule: ProbeSchedule = match ProbeSchedule::try_new(capacities.len()) {
            Ok(schedule) => schedule,
            Err(error) => {
                return Err(error);
            },
        };
        let levels = match try_allocate_levels(capacities) {
            Ok(levels) => levels,
            Err(error) => {
                return Err(error);
            },
        };
        match RouteMetadata::try_new(membership::word_count(geometry.total_slots)) {
            Some(metadata) => Ok(ElasticParts { levels, metadata, schedule }),
            None => Err(TryReserveError::AllocError),
        }
    }
}

/// The entries of the levels from `from` on, level by level in slot order.
pub open spec fn live_all<T>(levels: Seq<Level<T>>, from: nat) -> Seq<T>
    decreases levels.len() - from,
{
    if from >= levels.len() {
        Seq::empty()
    } else {
        levels[from as int].in_order() + live_all(levels, from + 1)
    }
}

impl<T> Level<T> {
    /// The entries in slot order.
    pub closed spec fn in_order(self) -> Seq<T> {
        self.storage.live_from(0)
    }
}

/// Moves the entries out of all levels, level by level in slot order.
fn drain_levels<T>(levels: &mut Vec<Level<T>>) -> (result: Vec<T>)
    requires
        forall|l: int| 0 <= l < old(levels)@.len() ==> (#[trigger] old(levels)@[l]).wf(),
    ensures
        result@ == live_all(old(levels)@, 0),
{
    let ghost before = levels@;
    let mut drained: Vec<T> = Vec::new();
    let mut index: usize = 0;
    while index < levels.len()
        invariant
            index <= levels@.len(),
            levels@.len() == before.len(),
            forall|l: int| 0 <= l < before.len() ==> (#[trigger] before[l]).wf(),
            forall|l: int| index <= l < before.len() ==> #[trigger] levels@[l] == before[l],
            drained@ + live_all(before, index as nat) == live_all(before, 0),
        decreases levels@.len() - index,
    {
        assert(levels@[index as int] == before[index as int]);
        let ghost taken = drained@;
        let mut part: Vec<T> = levels[index].storage.drain_values_and_clear();
        let ghost moved = part@;
        drained.append(&mut part);
        proof {
            assert(taken + (moved + live_all(before, index as nat + 1)) =~= (taken + moved)
                + live_all(before, index as nat + 1));
        }
        index = index + 1;
    }
    assert(drained@ + live_all(before, before.len()) =~= drained@);
    drained
}

impl<K: Eq, V, S: HashBuilder<K>> ElasticTable<K, V, S> {
    /// Blank levels of the geometry's lengths have its shape.
    proof fn lemma_blank_shape(&self)
        requires
            self.reserve_fraction.wf(),
            self.total_slots <= elastic_geometry::slot_limit(),
            self.max_insertions == capacity::insertion_limit(
                self.total_slots as nat,
                self.reserve_fraction,
            ),
            elastic_geometry::holds(
                self.capacities@,
                elastic_geometry::level_lengths(self.total_slots as nat, self.reserve_fraction),
            ),
            is_fresh(self.levels@, self.capacities@),
        ensures
            self.shape_inv(),
    {
        let slots = self.total_slots as nat;
        let lengths = elastic_geometry::level_lengths(slots, self.reserve_fraction);
        elastic_geometry::law_levels_tile_the_slots(slots, self.reserve_fraction);
        assert(self.levels@.len() == lengths.len());
        assert(slots == 0 ==> lengths.len() == 0);
        assert forall|l: int| 0 <= l < self.levels@.len() implies ({
            &&& (#[trigger] self.levels@[l]).wf()
            &&& self.levels@[l].values().len() == self.capacities@[l]
            &&& 0 < self.capacities@[l] <= u32::MAX
        }) by {
            assert(1 <= lengths[l] <= slots);
            assert(self.capacities@[l] as nat == lengths[l]);
            elastic_geometry::lemma_level_below_limit(slots, self.reserve_fraction, l);
        }
    }

    /// A table without entries keeps the invariant.
    proof fn lemma_blank(&self)
        requires
            self.reserve_fraction.wf(),
            self.total_slots <= elastic_geometry::slot_limit(),
            self.max_insertions == capacity::insertion_limit(
                self.total_slots as nat,
                self.reserve_fraction,
            ),
            elastic_geometry::holds(
                self.capacities@,
                elastic_geometry::level_lengths(self.total_slots as nat, self.reserve_fraction),
            ),
            is_fresh(self.levels@, self.capacities@),
            self.metadata@.len() == membership::words_for(self.total_slots as nat),
            self.schedule.steps().len() == 0,
            self.schedule.high() == 0,
            self.scheduler.wf(),
            self.scheduler.ends().len() == self.levels@.len(),
            self.scheduler.ends() == elastic_geometry::batch_ends(
                self.total_slots as nat,
                self.reserve_fraction,
            ),
            self.len == 0,
            self.index@ == Map::<K, (nat, nat)>::empty(),
            hashing::lawful_keys::<K>(),
            hashing::lawful_hashing::<K, S>(self.hash_builder),
        ensures
            self.inv(),
            self.stored_entries() == Map::<K, V>::empty(),
    {
        let slots = self.total_slots as nat;
        elastic_geometry::law_levels_tile_the_slots(slots, self.reserve_fraction);
        elastic_schedule::lemma_nothing_due(self.capacities@.len());
        self.lemma_blank_shape();
        lemma_blank_total(self.levels@);
        assert forall|l: int, s: int| in_range(self.levels@, l, s) implies #[trigger] cell(
            self.levels@,
            l,
            s,
        ) is None by {
            assert(self.levels@[l].is_blank());
        }
        assert(self.stored_entries() =~= Map::<K, V>::empty());
        assert(self.order_inv());
        assert(self.placement_inv());
        capacity::law_insertion_limit_bounds(slots, self.reserve_fraction);
        assert(self.counts_inv());
        assert(self.index_inv());
    }

    /// A blank filter of a table without entries is exact.
    proof fn lemma_blank_filter(&self)
        requires
            is_fresh(self.levels@, self.capacities@),
            forall|i: int|
                0 <= i < self.metadata@.len() ==> elastic_filter::is_blank(
                    #[trigger] self.metadata@[i],
                ),
        ensures
            self.filter_is_exact(),
    {
        elastic_filter::lemma_blank_model(self.metadata@);
        lemma_blank_levels(
            elastic_filter::blank_model(self.metadata@.len()),
            self.levels@,
            self.hash_builder,
            self.levels@.len(),
        );
    }

    /// A table over new parts.
    fn from_parts(
        geometry: ElasticGeometry,
        parts: ElasticParts<K, V>,
        reserve_fraction: ReserveFraction,
        hash_builder: S,
        epoch: EpochState,
    ) -> (result: Self)
        requires
            reserve_fraction.wf(),
            geometry.total_slots <= elastic_geometry::slot_limit(),
            geometry.is_for(geometry.total_slots as nat, reserve_fraction),
            parts.fits(geometry),
            hashing::lawful_keys::<K>(),
            hashing::lawful_hashing::<K, S>(hash_builder),
        ensures
            result.inv(),
            result.stored_entries() == Map::<K, V>::empty(),
            result.total_slots == geometry.total_slots,
            result.reserve_fraction == reserve_fraction,
            result.hash_builder == hash_builder,
            result.epoch == epoch,
            !result.exceptional_placement,
            result.len == 0,
            forall|loc: ElasticLocation| !#[trigger] result.buried_at(loc),
            result.stale_membership == 0,
            result.filter_is_exact(),
    {
        let scheduler: BatchScheduler = BatchScheduler::new(geometry.batch_plan.as_slice());
        proof {
            batch::lemma_ends_count(geometry.batch_plan@);
            elastic_geometry::lemma_batch_ends(
                geometry.batch_plan@,
                geometry.total_slots as nat,
                reserve_fraction,
            );
            elastic_geometry::law_levels_tile_the_slots(
                geometry.total_slots as nat,
                reserve_fraction,
            );
        }
        let table: Self = ElasticTable {
            levels: parts.levels,
            capacities: geometry.level_capacities,
            len: 0,
            total_slots: geometry.total_slots,
            max_insertions: geometry.max_insertions,
            reserve_fraction,
            scheduler,
            hash_builder,
            epoch,
            schedule: parts.schedule,
            exceptional_placement: false,
            metadata: parts.metadata,
            stale_membership: 0,
            index: Ghost(Map::empty()),
        };
        proof {
            table.lemma_blank();
            table.lemma_blank_filter();
            assert forall|loc: ElasticLocation| !#[trigger] table.buried_at(loc) by {
                if loc.level < table.levels@.len() {
                    assert(table.levels@[loc.level as int].is_blank());
                }
            }
        }
        table
    }

    /// The live slots, level by level, list the entries.
    proof fn lemma_live_entries(&self)
        requires
            self.shape_inv(),
            self.index_inv(),
        ensures
            listing::lists(live_all(self.levels@, 0), self.stored_entries()),
            self.stored_entries().dom() == self.index@.dom(),
    {
        let levels = self.levels@;
        let entries = self.stored_entries();
        assert(entries.dom() =~= self.index@.dom());
        lemma_live_from(levels, self.index@, 0);
        let live = live_all(levels, 0);
        assert forall|i: int| 0 <= i < live.len() implies entries.contains_key(
            (#[trigger] live[i]).key,
        ) && entries[live[i].key] == live[i].value by {
            let place = self.index@[live[i].key];
            assert(cell(levels, place.0 as int, place.1 as int) == Some(live[i]));
        }
        assert forall|key: K| #[trigger] entries.contains_key(key) implies listing::listed_at(
            live,
            key,
        ) by {
            assert(self.index@.contains_key(key));
        }
    }

    /// The table counts its entries.
    proof fn lemma_len(&self)
        requires
            self.inv(),
        ensures
            self.stored_entries().dom().finite(),
            self.stored_entries().len() == self.len,
    {
        self.lemma_live_entries();
    }

    /// Moves every entry into new parts, and says whether one had to be placed off
    /// its probe order.
    fn rebuild(&mut self, geometry: ElasticGeometry, parts: ElasticParts<K, V>) -> (result: bool)
        requires
            old(self).inv(),
            geometry.total_slots <= elastic_geometry::slot_limit(),
            geometry.is_for(geometry.total_slots as nat, old(self).reserve_fraction),
            parts.fits(geometry),
            geometry.max_insertions >= old(self).len,
        ensures
            final(self).inv(),
            final(self).stored_entries() == old(self).stored_entries(),
            final(self).total_slots == geometry.total_slots,
            final(self).max_insertions == geometry.max_insertions,
            final(self).reserve_fraction == old(self).reserve_fraction,
            final(self).hash_builder == old(self).hash_builder,
            final(self).epoch == old(self).epoch,
            final(self).len == old(self).len,
            final(self).exceptional_placement == result,
            final(self).refilled(old(self), geometry.total_slots as nat),
            final(self).stale_membership == 0,
            final(self).filter_is_exact(),
    {
        let ghost before = *self;
        let ghost entries = self.stored_entries();
        let ghost limit = geometry.max_insertions;
        let ghost slots = geometry.total_slots;
        proof {
            self.lemma_live_entries();
            listing::lemma_lists_len(live_all(self.levels@, 0), entries);
            batch::lemma_ends_count(geometry.batch_plan@);
            elastic_geometry::lemma_batch_ends(
                geometry.batch_plan@,
                geometry.total_slots as nat,
                self.reserve_fraction,
            );
            elastic_geometry::law_levels_tile_the_slots(
                geometry.total_slots as nat,
                self.reserve_fraction,
            );
        }
        let mut previous: Vec<Level<SlotEntry<K, V>>> = parts.levels;
        core::mem::swap(&mut self.levels, &mut previous);
        self.scheduler = BatchScheduler::new(geometry.batch_plan.as_slice());
        self.capacities = geometry.level_capacities;
        self.total_slots = geometry.total_slots;
        self.max_insertions = geometry.max_insertions;
        self.metadata = parts.metadata;
        self.schedule = parts.schedule;
        self.stale_membership = 0;
        self.len = 0;
        self.exceptional_placement = false;
        self.index = Ghost(Map::empty());
        proof {
            self.lemma_blank();
            self.lemma_blank_filter();
        }
        let drained: Vec<SlotEntry<K, V>> = drain_levels(&mut previous);
        let ghost listed = drained@;
        let ghost mut stages: Seq<Self> = seq![*self];
        let mut recovered: bool = false;
        for entry in iter: drained.into_iter()
            invariant
                self.inv(),
                self.total_slots == slots,
                self.max_insertions == limit,
                self.reserve_fraction == before.reserve_fraction,
                self.hash_builder == before.hash_builder,
                self.epoch == before.epoch,
                self.len == iter.index(),
                self.exceptional_placement == recovered,
                before.inv(),
                entries == before.stored_entries(),
                listed == iter.seq(),
                listed.len() == before.len,
                limit >= before.len,
                listing::lists(listed, entries),
                listing::lists(listed.take(iter.index()), self.stored_entries()),
                stages.len() == iter.index() + 1,
                stages[iter.index() as int] == *self,
                stages[0].blank_like(&before, slots as nat),
                forall|i: int|
                    0 <= i < iter.index() ==> #[trigger] Self::fills_at(stages, listed, i),
                self.stale_membership == 0,
                self.filter_is_exact(),
        {
            let ghost earlier = stages;
            proof {
                let i = iter.index();
                assert(entry == listed[i]);
                listing::lemma_next_is_absent(listed, i, entries, self.stored_entries());
                assert(!self.stored_entries().contains_key(entry.key)) by {
                    assert(hashing::same_key(entry.key, entry.key));
                    if self.stored_entries().contains_key(entry.key) {
                        assert(entry.key.stands_for(entry.key));
                    }
                }
                listing::lemma_lists_push(listed.take(i), self.stored_entries(), entry);
                assert(listed.take(i + 1) =~= listed.take(i).push(entry));
            }
            let exceptional: bool = self.insert_unique(entry.key, entry.value);
            if exceptional {
                recovered = true;
            }
            proof {
                stages = earlier.push(*self);
                assert forall|i: int| 0 <= i < iter.index() + 1 implies #[trigger] Self::fills_at(
                    stages,
                    listed,
                    i,
                ) by {
                    if i < iter.index() {
                        assert(Self::fills_at(earlier, listed, i));
                    }
                }
            }
        }
        proof {
            assert(listed.take(listed.len() as int) =~= listed);
            listing::lemma_lists_unique(listed, entries, self.stored_entries());
            assert(Self::fills(stages, before.listed()));
        }
        recovered
    }

    /// The epoch after a rebuild; a rebuild for placement recovery always counts
    /// as one.
    pub open spec fn rebuilt_epoch(
        before: EpochModel,
        transition: EpochTransition,
        exceptional: bool,
    ) -> EpochModel {
        table::rebuilt(
            before,
            transition,
            exceptional || transition == EpochTransition::PlacementRecovery,
        )
    }

    /// Starts the epoch after a rebuild.
    fn start_rebuilt_epoch(&mut self, transition: EpochTransition, recovered: bool)
        requires
            old(self).inv(),
        ensures
            final(self).inv(),
            final(self).stored_entries() == old(self).stored_entries(),
            final(self).same_setting(old(self)),
            final(self).len == old(self).len,
            final(self).exceptional_placement == old(self).exceptional_placement,
            final(self).epoch@ == Self::rebuilt_epoch(old(self).epoch@, transition, recovered),
            final(self).same_storage(old(self)),
            final(self).stale_membership == old(self).stale_membership,
            old(self).filter_is_exact() ==> final(self).filter_is_exact(),
    {
        let ghost before = *self;
        if recovered || matches!(transition, EpochTransition::PlacementRecovery) {
            self.epoch.start_with_placement_recovery(transition);
        } else {
            self.epoch.start(transition);
        }
        proof {
            before.lemma_same_storage(*self);
        }
    }

    /// The invariant rests on the storage and the settings alone.
    proof fn lemma_same_storage(&self, after: Self)
        requires
            self.inv(),
            after.same_setting(self),
            after.levels@ == self.levels@,
            after.len == self.len,
            after.index == self.index,
            after.metadata@ == self.metadata@,
            after.schedule == self.schedule,
            after.scheduler == self.scheduler,
            after.exceptional_placement == self.exceptional_placement,
        ensures
            after.inv(),
            after.stored_entries() == self.stored_entries(),
    {
        assert forall|l: int| 0 <= l < self.levels@.len() implies (#[trigger] after.levels@[l]).wf()
            && after.levels@[l].values().len() == self.levels@[l].values().len() by {
            assert(self.levels@[l].wf());
        }
        self.lemma_same_shape(after);
        assert(after.order_inv());
        assert forall|l: int, s: int| in_range(after.levels@, l, s) && (
        #[trigger] cell(after.levels@, l, s)) is Some implies after.well_placed(
            l,
            s,
            cell(after.levels@, l, s)->0.key,
        ) by {
            assert(self.well_placed(l, s, cell(self.levels@, l, s)->0.key));
        }
        assert(after.placement_inv());
    }

    /// Rebuilds with `slots` slots and starts an epoch.
    fn resize_with_transition(&mut self, slots: usize, transition: EpochTransition)
        requires
            old(self).inv(),
            slots <= elastic_geometry::slot_limit(),
            capacity::insertion_limit(slots as nat, old(self).reserve_fraction) >= old(self).len,
        ensures
            final(self).inv(),
            final(self).stored_entries() == old(self).stored_entries(),
            final(self).total_slots == slots,
            final(self).reserve_fraction == old(self).reserve_fraction,
            final(self).hash_builder == old(self).hash_builder,
            final(self).len == old(self).len,
            final(self).epoch@ == Self::rebuilt_epoch(
                old(self).epoch@,
                transition,
                final(self).exceptional_placement,
            ),
            final(self).refilled(old(self), slots as nat),
            final(self).stale_membership == 0,
            final(self).filter_is_exact(),
    {
        let ghost before = *self;
        let geometry: ElasticGeometry = ElasticGeometry::for_slots(slots, self.reserve_fraction);
        let parts: ElasticParts<K, V> = ElasticParts::allocate(&geometry);
        let recovered: bool = self.rebuild(geometry, parts);
        let ghost moved = *self;
        self.start_rebuilt_epoch(transition, recovered);
        proof {
            table::lemma_refilled_alike::<K, V, Self>(before, moved, *self, slots as nat);
        }
    }

    /// Rebuilds with `slots` slots unless the storage cannot be had, in which
    /// case nothing changes.
    fn try_resize_exact(&mut self, slots: usize) -> (result: Result<(), TryReserveError>)
        requires
            old(self).inv(),
            capacity::insertion_limit(slots as nat, old(self).reserve_fraction) >= old(self).len,
        ensures
            match result {
                Ok(_) => {
                    &&& table_refusal::<K, V>(slots as nat) is None
                    &&& final(self).rebuilt_from(
                        old(self),
                        slots as nat,
                        EpochTransition::ExplicitResize,
                    )
                    &&& final(self).stale_membership == 0
                    &&& final(self).filter_is_exact()
                },
                Err(error) => *final(self) == *old(self) && match table_refusal::<K, V>(
                    slots as nat,
                ) {
                    Some(refusal) => error == refusal,
                    None => slots > 0 && error == TryReserveError::AllocError,
                },
            },
    {
        if slots > max_elastic_slots() {
            return Err(TryReserveError::CapacityOverflow);
        }
        let geometry: ElasticGeometry = ElasticGeometry::for_slots(slots, self.reserve_fraction);
        match ElasticParts::try_allocate(&geometry, Ghost(self.reserve_fraction)) {
            Ok(parts) => {
                let ghost before = *self;
                let recovered: bool = self.rebuild(geometry, parts);
                let ghost moved = *self;
                self.start_rebuilt_epoch(EpochTransition::ExplicitResize, recovered);
                proof {
                    table::lemma_refilled_alike::<K, V, Self>(before, moved, *self, slots as nat);
                }
                Ok(())
            },
            Err(error) => Err(error),
        }
    }
}

/// Levels without entries hold none.
proof fn lemma_blank_total<T>(levels: Seq<Level<T>>)
    requires
        forall|l: int| 0 <= l < levels.len() ==> (#[trigger] levels[l]).is_blank(),
    ensures
        total_live(levels) == 0,
    decreases levels.len(),
{
    if levels.len() > 0 {
        assert(levels[levels.len() - 1].is_blank());
        assert forall|l: int| 0 <= l < levels.drop_last().len() implies (
        #[trigger] levels.drop_last()[l]).is_blank() by {
            assert(levels[l].is_blank());
        }
        lemma_blank_total(levels.drop_last());
    }
}

/// The entries of the levels from `from` on are the stored ones there, each once.
proof fn lemma_live_from<K, V>(
    levels: Seq<Level<SlotEntry<K, V>>>,
    index: Map<K, (nat, nat)>,
    from: nat,
)
    requires
        from <= levels.len(),
        indexes(index, levels),
    ensures
        ({
            let live = live_all(levels, from);
            &&& forall|i: int|
                0 <= i < live.len() ==> {
                    let place = index[(#[trigger] live[i]).key];
                    &&& index.contains_key(live[i].key)
                    &&& place.0 >= from
                    &&& cell(levels, place.0 as int, place.1 as int) == Some(live[i])
                }
            &&& forall|i: int, j: int|
                0 <= i < j < live.len() ==> (#[trigger] live[i]).key != (#[trigger] live[j]).key
            &&& forall|key: K| #[trigger]
                index.contains_key(key) && index[key].0 >= from ==> listing::listed_at(live, key)
        }),
    decreases levels.len() - from,
{
    let live = live_all(levels, from);
    if from < levels.len() {
        lemma_live_from(levels, index, from + 1);
        let region = levels[from as int].storage;
        let values = region.values();
        let here = region.live_from(0);
        let rest = live_all(levels, from + 1);
        let places = listing::live_slots(values, 0);
        listing::lemma_live_slots(region, 0);
        assert(live =~= here + rest);
        assert forall|i: int| 0 <= i < here.len() implies index.contains_key(
            (#[trigger] here[i]).key,
        ) && index[here[i].key] == (from, places[i]) by {
            assert(cell(levels, from as int, places[i] as int) == Some(here[i]));
        }
        assert forall|i: int| 0 <= i < live.len() implies ({
            let place = index[(#[trigger] live[i]).key];
            &&& index.contains_key(live[i].key)
            &&& place.0 >= from
            &&& cell(levels, place.0 as int, place.1 as int) == Some(live[i])
        }) by {
            if i < here.len() {
                assert(live[i] == here[i]);
                assert(cell(levels, from as int, places[i] as int) == Some(here[i]));
            } else {
                assert(live[i] == rest[i - here.len()]);
            }
        }
        assert forall|i: int, j: int| 0 <= i < j < live.len() implies (#[trigger] live[i]).key != (
        #[trigger] live[j]).key by {
            if j < here.len() {
                assert(live[i] == here[i] && live[j] == here[j]);
                assert(places[i] < places[j]);
            } else {
                assert(live[j] == rest[j - here.len()]);
                if i < here.len() {
                    assert(live[i] == here[i]);
                    assert(index[here[i].key].0 == from);
                } else {
                    assert(live[i] == rest[i - here.len()]);
                }
            }
        }
        assert forall|key: K| #[trigger]
            index.contains_key(key) && index[key].0 >= from implies listing::listed_at(
            live,
            key,
        ) by {
            if index[key].0 == from {
                let slot = index[key].1;
                assert(cell(levels, from as int, slot as int) is Some);
                assert(values[slot as int] is Some);
                assert(places.contains(slot));
                let i = choose|i: int| 0 <= i < places.len() && places[i] == slot;
                assert(live[i] == here[i]);
                assert(values[places[i] as int] == Some(here[i]));
            } else {
                assert(listing::listed_at(rest, key));
                let i = choose|i: int| 0 <= i < rest.len() && (#[trigger] rest[i]).key == key;
                assert(live[i + here.len()] == rest[i]);
            }
        }
    } else {
        assert forall|key: K| #[trigger]
            index.contains_key(key) && index[key].0 >= from implies listing::listed_at(
            live,
            key,
        ) by {
            assert(in_range(levels, index[key].0 as int, index[key].1 as int));
        }
    }
}

/// The slots that a table of `slots` slots grows to for `needed` entries.
pub open spec fn elastic_growth(slots: nat, needed: nat, reserve: ReserveFraction) -> Option<nat> {
    capacity::doubled_capacity(
        if slots >= INITIAL_CAPACITY {
            slots
        } else {
            INITIAL_CAPACITY as nat
        },
        needed,
        reserve,
    )
}

/// The slots that a full table grows to for one more entry: the initial capacity,
/// or twice as many.
pub open spec fn enlarged_slots(slots: nat) -> nat {
    if slots == 0 {
        INITIAL_CAPACITY as nat
    } else {
        table::saturated(2 * slots)
    }
}

/// Twice the slots have room for one more entry, but for one slot and a reserve of one
/// half, where the second slot is reserved.
proof fn lemma_enlarged(slots: nat, reserve: ReserveFraction)
    requires
        reserve.wf(),
        2 * slots <= usize::MAX,
        !(slots == 1 && reserve.d() == 1),
    ensures
        capacity::insertion_limit(enlarged_slots(slots), reserve) >= capacity::insertion_limit(
            slots,
            reserve,
        ) + 1,
{
    capacity::law_insertion_limit_bounds(slots, reserve);
    capacity::law_insertion_limit_bounds(INITIAL_CAPACITY as nat, reserve);
    capacity::law_insertion_limit_bounds(2 * slots, reserve);
    if slots > 0 {
        capacity::lemma_limit_of_double(slots, reserve);
    }
    if slots == 1 {
        vstd::arithmetic::power2::lemma2_to64();
        arith::lemma_pow2_monotone(2, reserve.d() as nat);
        vstd::arithmetic::div_mod::lemma_basic_div(
            2,
            vstd::arithmetic::power2::pow2(reserve.d() as nat) as int,
        );
    }
}

/// A slot of a level.
#[derive(Clone, Copy, Debug, PartialEq, Eq, Structural)]
pub struct ElasticLocation {
    /// The level.
    pub level: usize,
    /// The slot of the level.
    pub slot: usize,
}

/// Progress of a scan over the occupied slots of all levels.
#[derive(Clone, Copy, Debug)]
pub struct ElasticScan {
    level_idx: usize,
    region: OccupiedSlots,
}

impl<K: Eq, V, S: HashBuilder<K>> TableModel<K, V> for ElasticTable<K, V, S> {
    type Location = ElasticLocation;

    type Hasher = S;

    type Scan = ElasticScan;

    closed spec fn wf(&self) -> bool {
        self.inv()
    }

    closed spec fn entries(&self) -> Map<K, V> {
        self.stored_entries()
    }

    closed spec fn key_at(&self, loc: ElasticLocation) -> Option<K> {
        if in_range(self.levels@, loc.level as int, loc.slot as int) {
            match cell(self.levels@, loc.level as int, loc.slot as int) {
                Some(entry) => Some(entry.key),
                None => None,
            }
        } else {
            None
        }
    }

    closed spec fn buried_at(&self, loc: ElasticLocation) -> bool {
        in_range(self.levels@, loc.level as int, loc.slot as int)
            && self.levels@[loc.level as int].controls()[loc.slot as int] == CTRL_TOMBSTONE
    }

    closed spec fn builder(&self) -> S {
        self.hash_builder
    }

    closed spec fn slot_count(&self) -> nat {
        self.total_slots as nat
    }

    closed spec fn fraction(&self) -> ReserveFraction {
        self.reserve_fraction
    }

    closed spec fn lifecycle(&self) -> EpochModel {
        self.epoch@
    }

    open spec fn refusal(slots: nat, reserve: ReserveFraction) -> Option<TryReserveError> {
        table_refusal::<K, V>(slots)
    }

    open spec fn build_slots(capacity: nat, reserve: ReserveFraction) -> Result<
        nat,
        TryBuildError,
    > {
        match elastic_geometry::budget_slots(capacity, reserve) {
            Some(slots) => match storage_refusal::<K, V>(slots) {
                Some(refusal) => Err(error::build_error_of(refusal)),
                None => Ok(slots),
            },
            None => Err(TryBuildError::CapacityOverflow),
        }
    }

    open spec fn growth(slots: nat, needed: nat, reserve: ReserveFraction) -> Option<nat> {
        elastic_growth(slots, needed, reserve)
    }

    open spec fn enlarged(slots: nat, reserve: ReserveFraction) -> Option<nat> {
        if slots == 1 && reserve.d() == 1 {
            None
        } else {
            Some(enlarged_slots(slots))
        }
    }

    open spec fn shrunk(requested: nat, reserve: ReserveFraction) -> Option<nat> {
        capacity::doubled_capacity(
            INITIAL_CAPACITY as nat,
            if requested >= INITIAL_CAPACITY {
                requested
            } else {
                INITIAL_CAPACITY as nat
            },
            reserve,
        )
    }

    closed spec fn exceptional(&self) -> bool {
        self.exceptional_placement
    }

    closed spec fn listed(&self) -> Seq<SlotEntry<K, V>> {
        live_all(self.levels@, 0)
    }

    closed spec fn is_first_free(&self, loc: ElasticLocation) -> bool {
        &&& in_range(self.levels@, loc.level as int, loc.slot as int)
        &&& cell(self.levels@, loc.level as int, loc.slot as int) is None
        &&& forall|level: int, slot: int|
            in_range(self.levels@, level, slot) && (level < loc.level || level == loc.level && slot
                < loc.slot) ==> (#[trigger] cell(self.levels@, level, slot)) is Some
    }

    open spec fn rebuilds_to_recover() -> bool {
        true
    }

    open spec fn place_of_new(&self, key: K) -> Option<ElasticLocation> {
        match self.paper_place(self.builder().hash_of(key)) {
            Some((level, slot, _)) => Some(
                ElasticLocation { level: level as usize, slot: slot as usize },
            ),
            None => None,
        }
    }

    closed spec fn cleanup_after(&self, loc: ElasticLocation) -> bool {
        self.levels@[loc.level as int].buried() + 1 > capacity::cleanup_threshold(
            self.levels@[loc.level as int].values().len(),
        )
    }

    closed spec fn cleanup_due(&self) -> bool {
        exists|l: int| 0 <= l < self.levels@.len() && (#[trigger] self.levels@[l]).overdue()
    }

    closed spec fn cleanup_due_without(&self, gone: Set<K>) -> bool {
        exists|l: int|
            0 <= l < self.levels@.len() && (#[trigger] self.levels@[l]).overdue_with(
                on_level(self.index@, gone, l as nat).len(),
            )
    }

    closed spec fn scanning(&self, scan: ElasticScan) -> bool {
        &&& scan.level_idx <= self.levels@.len()
        &&& scan.level_idx < self.levels@.len() ==> {
            let level = self.levels@[scan.level_idx as int];
            &&& scan.region.wf()
            &&& scan.region.limit() == level.values().len()
            &&& forall|slot: int| #[trigger]
                scan.region.pending(level.controls(), slot) ==> 0 <= slot < level.values().len()
                    && control::occupied(level.controls()[slot])
        }
    }

    closed spec fn pending(&self, scan: ElasticScan, key: K) -> bool {
        &&& self.index@.contains_key(key)
        &&& self.index@[key].0 > scan.level_idx || self.index@[key].0 == scan.level_idx
            && scan.region.pending(
            self.levels@[scan.level_idx as int].controls(),
            self.index@[key].1 as int,
        )
    }
}

impl<K, V> Level<SlotEntry<K, V>> {
    /// The key and, for change in place, the value of a live slot.
    fn pair_mut(&mut self, slot: usize) -> (result: (&K, &mut V))
        requires
            old(self).wf(),
            slot < old(self).values().len(),
            old(self).values()[slot as int] is Some,
        ensures
            *result.0 == old(self).values()[slot as int]->0.key,
            *result.1 == old(self).values()[slot as int]->0.value,
            final(self).wf(),
            final(self).controls() == old(self).controls(),
            final(self).values() == old(self).values().update(
                slot as int,
                Some(
                    SlotEntry {
                        key: old(self).values()[slot as int]->0.key,
                        value: *final(result.1),
                    },
                ),
            ),
            final(self).live() == old(self).live(),
            final(self).buried() == old(self).buried(),
    {
        let entry = self.storage.get_mut(slot);
        (&entry.key, &mut entry.value)
    }
}

/// The keys whose entries are on a level.
pub open spec fn on_level<K>(index: Map<K, (nat, nat)>, keys: Set<K>, level: nat) -> Set<K> {
    keys.filter(|key: K| index.contains_key(key) && index[key].0 == level)
}

/// What one more key adds to the keys on a level, as one that is still indexed.
proof fn lemma_on_level<K>(index: Map<K, (nat, nat)>, keys: Set<K>, added: K, level: nat)
    requires
        keys.finite(),
        index.contains_key(added),
        !keys.contains(added),
    ensures
        on_level(index, keys.insert(added), level).len() == on_level(
            index.remove(added),
            keys,
            level,
        ).len() + if index[added].0 == level {
            1nat
        } else {
            0nat
        },
{
    let more = on_level(index, keys.insert(added), level);
    let fewer = on_level(index.remove(added), keys, level);
    keys.lemma_len_filter(
        |key: K| index.remove(added).contains_key(key) && index.remove(added)[key].0 == level,
    );
    if index[added].0 == level {
        assert(more =~= fewer.insert(added));
    } else {
        assert(more =~= fewer);
    }
}

impl<K: Eq, V, S: HashBuilder<K>> ElasticTable<K, V, S> {
    /// Removing an entry counts against its level.
    proof fn lemma_due_after_burying(&self, after: Self, level: int, gone: K, keys: Set<K>)
        requires
            keys.finite(),
            !keys.contains(gone),
            self.index@.contains_key(gone),
            self.index@[gone].0 == level,
            after.index@ == self.index@.remove(gone),
            0 <= level < self.levels@.len(),
            after.levels@.len() == self.levels@.len(),
            forall|l: int|
                0 <= l < self.levels@.len() && l != level ==> #[trigger] after.levels@[l]
                    == self.levels@[l],
            after.levels@[level].buried() == self.levels@[level].buried() + 1,
            after.levels@[level].values().len() == self.levels@[level].values().len(),
        ensures
            after.cleanup_due_without(keys) == self.cleanup_due_without(keys.insert(gone)),
    {
        assert forall|l: int| 0 <= l < self.levels@.len() implies (
        #[trigger] after.levels@[l]).overdue_with(on_level(after.index@, keys, l as nat).len())
            == self.levels@[l].overdue_with(
            on_level(self.index@, keys.insert(gone), l as nat).len(),
        ) by {
            lemma_on_level(self.index@, keys, gone, l as nat);
        }
        if after.cleanup_due_without(keys) {
            let l = choose|l: int|
                0 <= l < after.levels@.len() && (#[trigger] after.levels@[l]).overdue_with(
                    on_level(after.index@, keys, l as nat).len(),
                );
            assert(self.levels@[l].overdue_with(
                on_level(self.index@, keys.insert(gone), l as nat).len(),
            ));
        }
        if self.cleanup_due_without(keys.insert(gone)) {
            let l = choose|l: int|
                0 <= l < self.levels@.len() && (#[trigger] self.levels@[l]).overdue_with(
                    on_level(self.index@, keys.insert(gone), l as nat).len(),
                );
            assert(after.levels@[l].overdue_with(on_level(after.index@, keys, l as nat).len()));
        }
    }

    /// Whether a table is another with one entry's value changed.
    closed spec fn revalued(&self, before: &Self, level: int, slot: int, value: V) -> bool {
        let held = cell(before.levels@, level, slot);
        &&& self.same_setting(before)
        &&& self.len == before.len
        &&& self.index == before.index
        &&& self.metadata@ == before.metadata@
        &&& self.schedule == before.schedule
        &&& self.scheduler == before.scheduler
        &&& self.epoch == before.epoch
        &&& self.exceptional_placement == before.exceptional_placement
        &&& self.levels@ == before.levels@.update(level, self.levels@[level])
        &&& self.levels@[level].wf()
        &&& self.levels@[level].live() == before.levels@[level].live()
        &&& self.levels@[level].buried() == before.levels@[level].buried()
        &&& self.levels@[level].controls() == before.levels@[level].controls()
        &&& self.levels@[level].values() == before.levels@[level].values().update(
            slot,
            Some(SlotEntry { key: held->0.key, value }),
        )
    }

    /// Whether a table is another with values changed in place.
    closed spec fn rewritten(&self, before: &Self) -> bool {
        &&& self.same_setting(before)
        &&& self.len == before.len
        &&& self.index == before.index
        &&& self.metadata@ == before.metadata@
        &&& self.schedule == before.schedule
        &&& self.scheduler == before.scheduler
        &&& self.epoch == before.epoch
        &&& self.exceptional_placement == before.exceptional_placement
        &&& self.levels@.len() == before.levels@.len()
        &&& forall|l: int|
            0 <= l < before.levels@.len() ==> rewritten_level(
                before.levels@[l],
                #[trigger] self.levels@[l],
            )
    }

    /// Changing values keeps the invariant.
    proof fn lemma_rewritten(&self, after: Self)
        requires
            self.inv(),
            after.rewritten(self),
        ensures
            after.inv(),
            after.stored_entries().dom() == self.stored_entries().dom(),
            forall|key: K| #[trigger]
                self.stored_entries().contains_key(key) ==> after.stored_entries()[key] == cell(
                    after.levels@,
                    self.index@[key].0 as int,
                    self.index@[key].1 as int,
                )->0.value,
            after.cleanup_due() == self.cleanup_due(),
            forall|gone: Set<K>| #[trigger]
                after.cleanup_due_without(gone) == self.cleanup_due_without(gone),
            forall|loc: ElasticLocation| #[trigger] after.key_at(loc) == self.key_at(loc),
            forall|scan: ElasticScan| #[trigger] after.scanning(scan) == self.scanning(scan),
            forall|scan: ElasticScan, key: K| #[trigger]
                after.pending(scan, key) == self.pending(scan, key),
    {
        let from = self.levels@;
        let to = after.levels@;
        assert forall|gone: Set<K>| #[trigger]
            after.cleanup_due_without(gone) == self.cleanup_due_without(gone) by {
            assert forall|l: int| 0 <= l < to.len() implies (#[trigger] to[l]).overdue_with(
                on_level(after.index@, gone, l as nat).len(),
            ) == from[l].overdue_with(on_level(self.index@, gone, l as nat).len()) by {
                assert(rewritten_level(from[l], to[l]));
            }
            if self.cleanup_due_without(gone) {
                let l = choose|l: int|
                    0 <= l < from.len() && (#[trigger] from[l]).overdue_with(
                        on_level(self.index@, gone, l as nat).len(),
                    );
                assert(to[l].overdue_with(on_level(after.index@, gone, l as nat).len()));
            }
        }
        assert(self.cleanup_due() ==> after.cleanup_due()) by {
            if self.cleanup_due() {
                let l = choose|l: int| 0 <= l < from.len() && (#[trigger] from[l]).overdue();
                assert(rewritten_level(from[l], to[l]));
                assert(to[l].overdue());
            }
        }
        assert(after.cleanup_due() ==> self.cleanup_due()) by {
            if after.cleanup_due() {
                let l = choose|l: int| 0 <= l < to.len() && (#[trigger] to[l]).overdue();
                assert(rewritten_level(from[l], to[l]));
                assert(from[l].overdue());
            }
        }
        assert forall|l: int, s: int| in_range(to, l, s) implies in_range(from, l, s) && match (
            cell(from, l, s),
            #[trigger] cell(to, l, s),
        ) {
            (Some(old_entry), Some(new_entry)) => old_entry.key == new_entry.key,
            (None, None) => true,
            _ => false,
        } by {
            assert(rewritten_level(from[l], to[l]));
        }
        lemma_same_total(from, to);
        self.lemma_same_shape(after);
        assert(after.order_inv());
        assert forall|l: int, s: int| in_range(to, l, s) && (
        #[trigger] cell(to, l, s)) is Some implies after.well_placed(
            l,
            s,
            cell(to, l, s)->0.key,
        ) by {
            assert(cell(from, l, s) is Some);
            assert(self.well_placed(l, s, cell(from, l, s)->0.key));
            assert(rewritten_level(from[l], to[l]));
        }
        assert(after.placement_inv());
        assert(indexes(after.index@, to)) by {
            assert forall|stored: K| #[trigger] after.index@.contains_key(stored) implies in_range(
                to,
                after.index@[stored].0 as int,
                after.index@[stored].1 as int,
            ) && (cell(
                to,
                after.index@[stored].0 as int,
                after.index@[stored].1 as int,
            ) matches Some(entry) && entry.key == stored) by {
                let place = self.index@[stored];
                assert(in_range(from, place.0 as int, place.1 as int));
                assert(rewritten_level(from[place.0 as int], to[place.0 as int]));
                assert(in_range(to, place.0 as int, place.1 as int));
                assert(cell(to, place.0 as int, place.1 as int) is Some);
            }
            assert forall|l: int, s: int| in_range(to, l, s) && (
            #[trigger] cell(to, l, s)) is Some implies after.index@.contains_key(
                cell(to, l, s)->0.key,
            ) && after.index@[cell(to, l, s)->0.key] == (l as nat, s as nat) by {
                assert(cell(from, l, s) is Some);
            }
        }
        assert(after.index_inv());
        assert(after.counts_inv());
        assert(after.stored_entries().dom() =~= self.stored_entries().dom());
        assert forall|loc: ElasticLocation| #[trigger] after.key_at(loc) == self.key_at(loc) by {
            let l = loc.level as int;
            let s = loc.slot as int;
            if 0 <= l < to.len() {
                assert(rewritten_level(from[l], to[l]));
                if in_range(to, l, s) {
                    assert(cell(to, l, s) is Some <==> cell(from, l, s) is Some);
                }
            }
        }
        assert forall|scan: ElasticScan| #[trigger] after.scanning(scan) == self.scanning(scan) by {
            if scan.level_idx < to.len() {
                assert(rewritten_level(from[scan.level_idx as int], to[scan.level_idx as int]));
            }
        }
        assert forall|scan: ElasticScan, other: K| #[trigger]
            after.pending(scan, other) == self.pending(scan, other) by {
            if self.index@.contains_key(other) {
                let l = self.index@[other].0 as int;
                assert(in_range(from, l, self.index@[other].1 as int));
                assert(rewritten_level(from[l], to[l]));
            }
        }
    }

    /// Changing one value keeps the invariant.
    proof fn lemma_revalued(&self, after: Self, level: int, slot: int, value: V)
        requires
            self.inv(),
            in_range(self.levels@, level, slot),
            cell(self.levels@, level, slot) is Some,
            after.revalued(self, level, slot, value),
        ensures
            after.rewritten(self),
            after.stored_entries() == self.stored_entries().insert(
                cell(self.levels@, level, slot)->0.key,
                value,
            ),
    {
        let from = self.levels@;
        let to = after.levels@;
        let key = cell(from, level, slot)->0.key;
        assert forall|l: int| 0 <= l < from.len() implies rewritten_level(
            from[l],
            #[trigger] to[l],
        ) by {
            assert(from[l].wf());
            if l != level {
                assert(to[l] == from[l]);
            }
        }
        self.lemma_rewritten(after);
        assert(self.index@.contains_key(key));
        assert forall|stored: K| #[trigger]
            after.stored_entries().contains_key(stored) implies after.stored_entries()[stored]
            == self.stored_entries().insert(key, value)[stored] by {
            assert(self.stored_entries().contains_key(stored));
            let place = self.index@[stored];
            assert(in_range(from, place.0 as int, place.1 as int));
            assert(cell(from, place.0 as int, place.1 as int)->0.key == stored);
            if place.0 != level {
                assert(to[place.0 as int] == from[place.0 as int]);
            }
        }
        assert(after.stored_entries() =~= self.stored_entries().insert(key, value));
    }

    /// Moves the entry out of a live slot and leaves a tombstone.
    fn bury(&mut self, loc: ElasticLocation) -> (result: (K, V))
        requires
            old(self).inv(),
            old(self).key_at(loc) is Some,
        ensures
            final(self).inv(),
            final(self).same_setting(old(self)),
            final(self).exceptional_placement == old(self).exceptional_placement,
            final(self).epoch@ == old(self).epoch@.deleted(),
            final(self).stale_membership == table::saturated(old(self).stale_membership as nat + 1),
            final(self).metadata == old(self).metadata,
            final(self).max_insertions == old(self).max_insertions,
            final(self).levels@.len() == old(self).levels@.len(),
            final(self).levels@[loc.level as int].overdue() == old(self).cleanup_after(loc),
            old(self).key_at(loc) == Some(result.0),
            old(self).stored_entries().contains_key(result.0),
            result.1 == old(self).stored_entries()[result.0],
            final(self).stored_entries() == old(self).stored_entries().remove(result.0),
            final(self).lost(old(self), loc),
            forall|gone: Set<K>|
                gone.subset_of(final(self).stored_entries().dom())
                    ==> #[trigger] final(self).cleanup_due_without(gone)
                    == old(self).cleanup_due_without(gone.insert(result.0)),
            forall|scan: ElasticScan|
                old(self).scanning(scan) && !old(self).pending(scan, result.0)
                    ==> #[trigger] final(self).scanning(scan),
            forall|scan: ElasticScan, key: K|
                old(self).scanning(scan) && !old(self).pending(scan, result.0) ==> (
                #[trigger] final(self).pending(scan, key) <==> old(self).pending(scan, key)),
    {
        let ghost before = *self;
        let level: usize = loc.level;
        let slot: usize = loc.slot;
        proof {
            assert(self.levels@[level as int].wf());
            assert(cell(self.levels@, level as int, slot as int) is Some);
            lemma_live_within(self.levels@, level as int);
        }
        let entry: SlotEntry<K, V> = self.levels[level].bury(slot);
        self.len = self.len - 1;
        self.stale_membership = self.stale_membership.saturating_add(1);
        self.epoch.note_delete();
        proof {
            self.index@ = before.index@.remove(entry.key);
            before.lemma_after_burying(*self, level as int, slot as int);
            self.lemma_len();
            assert forall|other: ElasticLocation| #[trigger]
                self.key_at(other) == match before.key_at(other) {
                    Some(key) => if self.entries().contains_key(key) {
                        Some(key)
                    } else {
                        None
                    },
                    None => None,
                } by {
                if other.level < before.levels@.len() && other.level != level {
                    assert(self.levels@[other.level as int] == before.levels@[other.level as int]);
                }
                if before.key_at(other) is Some {
                    let held = cell(before.levels@, other.level as int, other.slot as int);
                    assert(held is Some);
                    assert(before.index@.contains_key(held->0.key));
                }
            }
            assert forall|gone: Set<K>| gone.subset_of(
                self.stored_entries().dom(),
            ) implies #[trigger] self.cleanup_due_without(gone) == before.cleanup_due_without(
                gone.insert(entry.key),
            ) by {
                vstd::set_lib::lemma_set_subset_finite(self.stored_entries().dom(), gone);
                before.lemma_due_after_burying(*self, level as int, entry.key, gone);
            }
        }
        (entry.key, entry.value)
    }

    /// Leaving a tombstone keeps the invariant.
    proof fn lemma_after_burying(&self, after: Self, level: int, slot: int)
        requires
            self.inv(),
            in_range(self.levels@, level, slot),
            cell(self.levels@, level, slot) is Some,
            after.same_setting(self),
            after.exceptional_placement == self.exceptional_placement,
            after.len == self.len - 1,
            after.metadata@ == self.metadata@,
            after.schedule == self.schedule,
            after.scheduler == self.scheduler,
            after.levels@ == self.levels@.update(level, after.levels@[level]),
            after.levels@[level].wf(),
            after.levels@[level].live() == self.levels@[level].live() - 1,
            self.levels@[level].live() > 0,
            after.levels@[level].controls() == self.levels@[level].controls().update(
                slot,
                CTRL_TOMBSTONE,
            ),
            after.levels@[level].values() == self.levels@[level].values().update(slot, None),
            after.index@ == self.index@.remove(cell(self.levels@, level, slot)->0.key),
        ensures
            after.inv(),
            after.stored_entries() == self.stored_entries().remove(
                cell(self.levels@, level, slot)->0.key,
            ),
            self.stored_entries().contains_key(cell(self.levels@, level, slot)->0.key),
            self.stored_entries()[cell(self.levels@, level, slot)->0.key] == cell(
                self.levels@,
                level,
                slot,
            )->0.value,
            forall|scan: ElasticScan|
                self.scanning(scan) && !self.pending(
                    scan,
                    cell(self.levels@, level, slot)->0.key,
                ) ==> #[trigger] after.scanning(scan),
            forall|scan: ElasticScan, key: K|
                self.scanning(scan) && !self.pending(scan, cell(self.levels@, level, slot)->0.key)
                    ==> (#[trigger] after.pending(scan, key) <==> self.pending(scan, key)),
    {
        let from = self.levels@;
        let to = after.levels@;
        let gone = cell(from, level, slot)->0.key;
        assert(from[level].wf());
        assert forall|l: int, s: int| in_range(to, l, s) implies in_range(from, l, s)
            && #[trigger] cell(to, l, s) == if l == level && s == slot {
            None
        } else {
            cell(from, l, s)
        } by {
            if l != level {
                assert(to[l] == from[l]);
            }
        }
        lemma_total_live_update(from, level, to[level]);
        assert forall|l: int| 0 <= l < from.len() implies (#[trigger] to[l]).wf()
            && to[l].values().len() == from[l].values().len() by {
            assert(from[l].wf());
        }
        self.lemma_same_shape(after);
        assert(after.order_inv());
        assert forall|l: int, s: int| in_range(to, l, s) && (
        #[trigger] cell(to, l, s)) is Some implies after.well_placed(
            l,
            s,
            cell(to, l, s)->0.key,
        ) by {
            assert(cell(from, l, s) is Some);
            assert(self.well_placed(l, s, cell(from, l, s)->0.key));
        }
        assert(after.placement_inv());
        assert(self.index@.contains_key(gone) && self.index@[gone] == (level as nat, slot as nat));
        assert(indexes(after.index@, to)) by {
            assert forall|stored: K| #[trigger] after.index@.contains_key(stored) implies in_range(
                to,
                after.index@[stored].0 as int,
                after.index@[stored].1 as int,
            ) && (cell(
                to,
                after.index@[stored].0 as int,
                after.index@[stored].1 as int,
            ) matches Some(entry) && entry.key == stored) by {
                assert(self.index@.contains_key(stored));
                let place = self.index@[stored];
                assert(cell(from, place.0 as int, place.1 as int)->0.key == stored);
                assert(in_range(to, place.0 as int, place.1 as int));
                assert(cell(to, place.0 as int, place.1 as int) == cell(
                    from,
                    place.0 as int,
                    place.1 as int,
                ));
            }
            assert forall|l: int, s: int| in_range(to, l, s) && (
            #[trigger] cell(to, l, s)) is Some implies after.index@.contains_key(
                cell(to, l, s)->0.key,
            ) && after.index@[cell(to, l, s)->0.key] == (l as nat, s as nat) by {
                assert(cell(from, l, s) is Some);
            }
        }
        assert(after.index_inv());
        assert(after.counts_inv());
        assert(after.stored_entries() =~= self.stored_entries().remove(gone)) by {
            assert forall|stored: K| #[trigger]
                after.stored_entries().contains_key(stored) implies after.stored_entries()[stored]
                == self.stored_entries()[stored] by {
                assert(after.index@.contains_key(stored));
                let place = self.index@[stored];
                assert(cell(from, place.0 as int, place.1 as int)->0.key == stored);
                assert(in_range(to, place.0 as int, place.1 as int));
                assert(cell(to, place.0 as int, place.1 as int) == cell(
                    from,
                    place.0 as int,
                    place.1 as int,
                ));
            }
        }
        assert forall|scan: ElasticScan| self.scanning(scan) && !self.pending(
            scan,
            gone,
        ) implies #[trigger] after.scanning(scan) by {
            self.lemma_scan_survives(after, level, slot, scan);
        }
        assert forall|scan: ElasticScan, key: K|
            self.scanning(scan) && !self.pending(scan, gone) implies (#[trigger] after.pending(
            scan,
            key,
        ) <==> self.pending(scan, key)) by {
            self.lemma_scan_survives(after, level, slot, scan);
        }
    }

    /// A scan that has passed a location goes on when its entry is buried.
    proof fn lemma_scan_survives(&self, after: Self, level: int, slot: int, scan: ElasticScan)
        requires
            self.shape_inv(),
            self.index_inv(),
            in_range(self.levels@, level, slot),
            cell(self.levels@, level, slot) is Some,
            self.scanning(scan),
            !self.pending(scan, cell(self.levels@, level, slot)->0.key),
            after.levels@ == self.levels@.update(level, after.levels@[level]),
            after.levels@[level].controls() == self.levels@[level].controls().update(
                slot,
                CTRL_TOMBSTONE,
            ),
            after.levels@[level].values() == self.levels@[level].values().update(slot, None),
            after.index@ == self.index@.remove(cell(self.levels@, level, slot)->0.key),
        ensures
            after.scanning(scan),
            forall|key: K| #[trigger] after.pending(scan, key) <==> self.pending(scan, key),
    {
        let from = self.levels@;
        let to = after.levels@;
        let gone = cell(from, level, slot)->0.key;
        assert(from[level].wf());
        assert(self.index@[gone] == (level as nat, slot as nat));
        if scan.level_idx < to.len() {
            let l = scan.level_idx as int;
            let old_controls = from[l].controls();
            let new_controls = to[l].controls();
            if l == level {
                assert(!scan.region.pending(old_controls, slot));
                scan.region.lemma_live_is_pending(old_controls, slot);
                assert forall|s: int| #[trigger] scan.region.pending(
                    new_controls,
                    s,
                ) <==> scan.region.pending(old_controls, s) by {
                    scan.region.lemma_pending_ignores_loaded(old_controls, new_controls, s);
                }
                assert forall|s: int| #[trigger] scan.region.pending(new_controls, s) implies 0
                    <= s < to[l].values().len() && control::occupied(new_controls[s]) by {
                    assert(scan.region.pending(old_controls, s));
                    assert(s != slot);
                }
            } else {
                assert(to[l] == from[l]);
            }
        }
        assert forall|key: K| #[trigger] after.pending(scan, key) <==> self.pending(scan, key) by {
            if self.index@.contains_key(key) {
                assert(in_range(from, self.index@[key].0 as int, self.index@[key].1 as int));
            }
        }
    }
}

/// No level holds more than all levels together.
proof fn lemma_live_within<T>(levels: Seq<Level<T>>, level: int)
    requires
        0 <= level < levels.len(),
    ensures
        levels[level].live() <= total_live(levels),
    decreases levels.len(),
{
    if level < levels.len() - 1 {
        lemma_live_within(levels.drop_last(), level);
    }
}

/// What filter words hold after recording entries at a level.
pub open spec fn with_entries<K, V, S: HashBuilder<K>>(
    words: Seq<WordModel>,
    entries: Seq<SlotEntry<K, V>>,
    builder: S,
    level: nat,
) -> Seq<WordModel>
    decreases entries.len(),
{
    if entries.len() == 0 {
        words
    } else {
        elastic_filter::with_record(
            with_entries(words, entries.drop_last(), builder, level),
            elastic_filter::probe_of(builder.hash_of(entries.last().key)).signature(),
            level,
        )
    }
}

/// What filter words hold after recording the live entries of the first levels.
pub open spec fn with_levels<K, V, S: HashBuilder<K>>(
    words: Seq<WordModel>,
    levels: Seq<Level<SlotEntry<K, V>>>,
    builder: S,
    count: nat,
) -> Seq<WordModel>
    decreases count,
{
    if count == 0 {
        words
    } else {
        with_entries(
            with_levels(words, levels, builder, (count - 1) as nat),
            levels[count - 1].in_order(),
            builder,
            (count - 1) as nat,
        )
    }
}

/// Whether filter words have four route bins each.
spec fn has_bins(words: Seq<WordModel>) -> bool {
    forall|i: int| 0 <= i < words.len() ==> (#[trigger] words[i]).bins.len() == 4
}

/// A signature may be recorded before or after entries.
proof fn lemma_record_with_entries<K, V, S: HashBuilder<K>>(
    words: Seq<WordModel>,
    entries: Seq<SlotEntry<K, V>>,
    builder: S,
    level: nat,
    signature: u64,
    at: nat,
)
    requires
        has_bins(words),
    ensures
        with_entries(
            elastic_filter::with_record(words, signature, at),
            entries,
            builder,
            level,
        ) == elastic_filter::with_record(
            with_entries(words, entries, builder, level),
            signature,
            at,
        ),
        has_bins(with_entries(words, entries, builder, level)),
        with_entries(words, entries, builder, level).len() == words.len(),
    decreases entries.len(),
{
    if entries.len() > 0 {
        let shorter = entries.drop_last();
        let last = elastic_filter::probe_of(builder.hash_of(entries.last().key)).signature();
        lemma_record_with_entries(words, shorter, builder, level, signature, at);
        let before = with_entries(words, shorter, builder, level);
        elastic_filter::lemma_records_commute(before, signature, at, last, level);
        elastic_filter::lemma_record_keeps_bins(before, last, level);
    }
}

/// Entries may be recorded in two parts.
proof fn lemma_entries_in_parts<K, V, S: HashBuilder<K>>(
    words: Seq<WordModel>,
    first: Seq<SlotEntry<K, V>>,
    second: Seq<SlotEntry<K, V>>,
    builder: S,
    level: nat,
)
    ensures
        with_entries(words, first + second, builder, level) == with_entries(
            with_entries(words, first, builder, level),
            second,
            builder,
            level,
        ),
    decreases second.len(),
{
    let all = first + second;
    if second.len() == 0 {
        assert(all =~= first);
    } else {
        lemma_entries_in_parts(words, first, second.drop_last(), builder, level);
        assert(all.drop_last() =~= first + second.drop_last());
        assert(all.last() == second.last());
    }
}

/// An entry that fills a free slot is recorded in addition to the others of its level.
proof fn lemma_filled_level<K, V, S: HashBuilder<K>>(
    words: Seq<WordModel>,
    before: Slots<SlotEntry<K, V>>,
    after: Slots<SlotEntry<K, V>>,
    slot: nat,
    entry: SlotEntry<K, V>,
    builder: S,
    level: nat,
    from: nat,
)
    requires
        has_bins(words),
        from <= slot < before.values().len(),
        before.values()[slot as int] is None,
        after.values() == before.values().update(slot as int, Some(entry)),
    ensures
        with_entries(words, after.live_from(from), builder, level) == elastic_filter::with_record(
            with_entries(words, before.live_from(from), builder, level),
            elastic_filter::probe_of(builder.hash_of(entry.key)).signature(),
            level,
        ),
    decreases slot - from,
{
    let signature = elastic_filter::probe_of(builder.hash_of(entry.key)).signature();
    if from == slot {
        let rest = before.live_from(slot + 1);
        slots::lemma_same_live(before, after, slot + 1);
        assert(after.live_from(slot) == seq![entry] + rest);
        lemma_entries_in_parts(words, seq![entry], rest, builder, level);
        reveal_with_fuel(with_entries, 2);
        assert(seq![entry].drop_last() =~= Seq::empty());
        assert(with_entries(words, seq![entry], builder, level) == elastic_filter::with_record(
            words,
            signature,
            level,
        ));
        lemma_record_with_entries(words, rest, builder, level, signature, level);
    } else {
        match before.values()[from as int] {
            Some(head) => {
                let shown = with_entries(words, seq![head], builder, level);
                lemma_record_with_entries(words, seq![head], builder, level, signature, level);
                lemma_filled_level(shown, before, after, slot, entry, builder, level, from + 1);
                lemma_entries_in_parts(
                    words,
                    seq![head],
                    before.live_from(from + 1),
                    builder,
                    level,
                );
                lemma_entries_in_parts(
                    words,
                    seq![head],
                    after.live_from(from + 1),
                    builder,
                    level,
                );
            },
            None => {
                lemma_filled_level(words, before, after, slot, entry, builder, level, from + 1);
            },
        }
    }
}

/// Levels with the same slots list the same entries.
proof fn lemma_same_listing<T>(left: Seq<Level<T>>, right: Seq<Level<T>>, from: nat)
    requires
        left.len() == right.len(),
        forall|l: int| 0 <= l < left.len() ==> (#[trigger] left[l]).values() == right[l].values(),
    ensures
        live_all(left, from) == live_all(right, from),
    decreases left.len() - from,
{
    if from < left.len() {
        lemma_same_listing(left, right, from + 1);
        assert(left[from as int].values() == right[from as int].values());
        slots::lemma_same_live(left[from as int].storage, right[from as int].storage, 0);
    }
}

/// A signature may be recorded before or after the entries of levels.
proof fn lemma_record_with_levels<K, V, S: HashBuilder<K>>(
    words: Seq<WordModel>,
    levels: Seq<Level<SlotEntry<K, V>>>,
    builder: S,
    count: nat,
)
    requires
        has_bins(words),
    ensures
        has_bins(with_levels(words, levels, builder, count)),
        with_levels(words, levels, builder, count).len() == words.len(),
    decreases count,
{
    if count > 0 {
        lemma_record_with_levels(words, levels, builder, (count - 1) as nat);
        lemma_record_with_entries(
            with_levels(words, levels, builder, (count - 1) as nat),
            levels[count - 1].in_order(),
            builder,
            (count - 1) as nat,
            0,
            0,
        );
    }
}

/// An entry that fills a free slot is recorded in addition to all others.
proof fn lemma_filled_levels<K, V, S: HashBuilder<K>>(
    words: Seq<WordModel>,
    before: Seq<Level<SlotEntry<K, V>>>,
    after: Seq<Level<SlotEntry<K, V>>>,
    level: int,
    slot: int,
    entry: SlotEntry<K, V>,
    builder: S,
    count: nat,
)
    requires
        has_bins(words),
        count <= before.len() == after.len(),
        in_range(before, level, slot),
        cell(before, level, slot) is None,
        forall|l: int|
            0 <= l < before.len() ==> (#[trigger] after[l]).values() == if l == level {
                before[l].values().update(slot, Some(entry))
            } else {
                before[l].values()
            },
    ensures
        with_levels(words, after, builder, count) == if level < count {
            elastic_filter::with_record(
                with_levels(words, before, builder, count),
                elastic_filter::probe_of(builder.hash_of(entry.key)).signature(),
                level as nat,
            )
        } else {
            with_levels(words, before, builder, count)
        },
    decreases count,
{
    if count > 0 {
        let last = (count - 1) as nat;
        let signature = elastic_filter::probe_of(builder.hash_of(entry.key)).signature();
        let shown = with_levels(words, before, builder, last);
        lemma_filled_levels(words, before, after, level, slot, entry, builder, last);
        lemma_record_with_levels(words, before, builder, last);
        assert(after[last as int].values() == if last == level {
            before[last as int].values().update(slot, Some(entry))
        } else {
            before[last as int].values()
        });
        if last == level {
            lemma_filled_level(
                shown,
                before[last as int].storage,
                after[last as int].storage,
                slot as nat,
                entry,
                builder,
                last,
                0,
            );
        } else {
            slots::lemma_same_live(before[last as int].storage, after[last as int].storage, 0);
            lemma_record_with_entries(
                shown,
                before[last as int].in_order(),
                builder,
                last,
                signature,
                level as nat,
            );
        }
    }
}

/// Blank levels record nothing.
proof fn lemma_blank_levels<K, V, S: HashBuilder<K>>(
    words: Seq<WordModel>,
    levels: Seq<Level<SlotEntry<K, V>>>,
    builder: S,
    count: nat,
)
    requires
        count <= levels.len(),
        forall|l: int| 0 <= l < levels.len() ==> (#[trigger] levels[l]).is_blank(),
    ensures
        with_levels(words, levels, builder, count) == words,
    decreases count,
{
    if count > 0 {
        lemma_blank_levels(words, levels, builder, (count - 1) as nat);
        assert(levels[count - 1].is_blank());
        lemma_nothing_live(levels[count - 1].storage, 0);
    }
}

/// A region without values has no live ones.
proof fn lemma_nothing_live<T>(region: Slots<T>, from: nat)
    requires
        forall|slot: int|
            0 <= slot < region.values().len() ==> (#[trigger] region.values()[slot]) is None,
    ensures
        region.live_from(from) == Seq::<T>::empty(),
    decreases region.values().len() - from,
{
    if from < region.values().len() {
        lemma_nothing_live(region, from + 1);
        assert(region.values()[from as int] is None);
    }
}

impl<K: Eq, V, S: HashBuilder<K>> ElasticTable<K, V, S> {
    /// Records the filter anew from the live entries.
    fn refresh_membership(&mut self)
        requires
            old(self).inv(),
        ensures
            final(self).inv(),
            final(self).stored_entries() == old(self).stored_entries(),
            final(self).same_setting(old(self)),
            final(self).len == old(self).len,
            final(self).epoch == old(self).epoch,
            final(self).exceptional_placement == old(self).exceptional_placement,
            final(self).stale_membership == 0,
            final(self).levels == old(self).levels,
            final(self).filter_is_exact(),
    {
        let ghost before = *self;
        self.metadata.clear();
        self.stale_membership = 0;
        let ghost blank = elastic_filter::blank_model(self.metadata@.len());
        proof {
            elastic_filter::lemma_blank_model(self.metadata@);
        }
        let mut level: usize = 0;
        while level < self.levels.len()
            invariant
                before.inv(),
                self.refreshing(&before),
                level <= self.levels@.len(),
                elastic_filter::model(self.metadata@) == with_levels(
                    blank,
                    self.levels@,
                    self.hash_builder,
                    level as nat,
                ),
                forall|l: int, s: int|
                    l < level && in_range(self.levels@, l, s) && (
                    #[trigger] cell(self.levels@, l, s)) is Some ==> self.recorded_at(l, s),
            decreases self.levels@.len() - level,
        {
            proof {
                assert(before.levels@[level as int].wf());
            }
            let capacity: usize = self.levels[level].capacity();
            let mut slot: usize = 0;
            let ghost base = elastic_filter::model(self.metadata@);
            let ghost mut done: Seq<SlotEntry<K, V>> = Seq::empty();
            proof {
                assert(done + self.levels@[level as int].storage.live_from(0)
                    =~= self.levels@[level as int].in_order());
            }
            while slot < capacity
                invariant
                    before.inv(),
                    self.refreshing(&before),
                    level < self.levels@.len(),
                    done + self.levels@[level as int].storage.live_from(slot as nat)
                        == self.levels@[level as int].in_order(),
                    elastic_filter::model(self.metadata@) == with_entries(
                        base,
                        done,
                        self.hash_builder,
                        level as nat,
                    ),
                    self.levels@[level as int].wf(),
                    capacity == self.levels@[level as int].values().len(),
                    slot <= capacity,
                    forall|l: int, s: int|
                        (l < level || l == level && s < slot) && in_range(self.levels@, l, s) && (
                        #[trigger] cell(self.levels@, l, s)) is Some ==> self.recorded_at(l, s),
                decreases capacity - slot,
            {
                if self.levels[level].storage.control_at(slot).is_occupied() {
                    let ghost held = *self;
                    let hash: u64 = self.hash_builder.hash_one(
                        &self.levels[level].storage.get_ref(slot).key,
                    );
                    self.metadata.record(PreparedElasticKey::new(hash), level);
                    proof {
                        let storage = self.levels@[level as int].storage;
                        let entry = storage.values()[slot as int]->0;
                        assert(done + storage.live_from(slot as nat) =~= done.push(entry)
                            + storage.live_from(slot as nat + 1));
                        assert(done.push(entry).drop_last() =~= done);
                        done = done.push(entry);
                        assert(self.metadata@.len() > 0) by {
                            assert(self.total_slots > 0);
                        }
                        assert forall|l: int, s: int|
                            (l < level || l == level && s < slot + 1) && in_range(
                                self.levels@,
                                l,
                                s,
                            ) && (#[trigger] cell(
                                self.levels@,
                                l,
                                s,
                            )) is Some implies self.recorded_at(l, s) by {
                            if !(l == level && s == slot) {
                                assert(cell(held.levels@, l, s) is Some);
                                assert(held.recorded_at(l, s));
                            }
                        }
                    }
                }
                slot = slot + 1;
            }
            proof {
                assert(done + self.levels@[level as int].storage.live_from(capacity as nat) =~= done);
            }
            level = level + 1;
        }
        proof {
            assert forall|l: int| 0 <= l < before.levels@.len() implies (
            #[trigger] self.levels@[l]).wf() by {
                assert(before.levels@[l].wf());
            }
            before.lemma_same_shape(*self);
            assert(self.order_inv());
            assert forall|l: int, s: int| in_range(self.levels@, l, s) && (
            #[trigger] cell(self.levels@, l, s)) is Some implies self.well_placed(
                l,
                s,
                cell(self.levels@, l, s)->0.key,
            ) by {
                assert(before.well_placed(l, s, cell(before.levels@, l, s)->0.key));
                assert(self.recorded_at(l, s));
            }
            assert(self.placement_inv());
        }
    }

    /// Whether the filter holds the live entries and nothing else.
    pub open spec fn filter_is_exact(&self) -> bool {
        elastic_filter::model(self.filter_words()) == with_levels(
            elastic_filter::blank_model(self.filter_words().len()),
            self.view_levels(),
            self.builder(),
            self.view_levels().len(),
        )
    }

    /// Whether everything but the filter is as in another table.
    closed spec fn refreshing(&self, before: &Self) -> bool {
        &&& self.levels == before.levels
        &&& self.capacities == before.capacities
        &&& self.total_slots == before.total_slots
        &&& self.max_insertions == before.max_insertions
        &&& self.reserve_fraction == before.reserve_fraction
        &&& self.hash_builder == before.hash_builder
        &&& self.len == before.len
        &&& self.index == before.index
        &&& self.schedule == before.schedule
        &&& self.scheduler == before.scheduler
        &&& self.epoch == before.epoch
        &&& self.exceptional_placement == before.exceptional_placement
        &&& self.metadata@.len() == before.metadata@.len()
        &&& self.stale_membership == 0
    }

    /// Whether the filter has recorded the entry of a slot.
    closed spec fn recorded_at(&self, level: int, slot: int) -> bool {
        elastic_filter::admits(
            self.metadata@,
            elastic_filter::probe_of(
                self.hash_builder.hash_of(cell(self.levels@, level, slot)->0.key),
            ).signature(),
            level as nat,
        )
    }

    /// A same-size cleanup where a level passed its tombstone threshold; otherwise
    /// a filter refresh once departed keys passed theirs.
    fn settle_after_deletes(&mut self, needs_cleanup: bool)
        requires
            old(self).inv(),
        ensures
            final(self).inv(),
            final(self).stored_entries() == old(self).stored_entries(),
            final(self).total_slots == old(self).total_slots,
            final(self).reserve_fraction == old(self).reserve_fraction,
            final(self).hash_builder == old(self).hash_builder,
            final(self).epoch@ == if needs_cleanup {
                table::rebuilt(
                    old(self).epoch@,
                    EpochTransition::TombstoneCleanup,
                    final(self).exceptional_placement,
                )
            } else {
                old(self).epoch@
            },
            !needs_cleanup ==> final(self).stale_membership == if old(self).stale_membership
                > old(self).max_insertions {
                0
            } else {
                old(self).stale_membership
            },
            !needs_cleanup ==> if old(self).stale_membership > old(self).max_insertions {
                final(self).filter_is_exact()
            } else {
                *final(self) == *old(self)
            },
            if needs_cleanup {
                &&& final(self).rebuilt_from(
                    old(self),
                    old(self).slot_count(),
                    EpochTransition::TombstoneCleanup,
                )
                &&& final(self).stale_membership == 0
                &&& final(self).filter_is_exact()
            } else {
                final(self).same_storage(old(self)) && final(self).epoch == old(self).epoch
            },
    {
        if needs_cleanup {
            self.resize_with_transition(self.total_slots, EpochTransition::TombstoneCleanup);
        } else if self.stale_membership > membership::refresh_deletes(self.max_insertions) {
            self.refresh_membership();
        }
    }

    /// Whether some level holds more tombstones than it should.
    fn any_needs_cleanup(&self) -> (result: bool)
        ensures
            result == self.cleanup_due(),
    {
        let mut level: usize = 0;
        while level < self.levels.len()
            invariant
                level <= self.levels@.len(),
                forall|l: int| 0 <= l < level ==> !(#[trigger] self.levels@[l]).overdue(),
            decreases self.levels@.len() - level,
        {
            if self.levels[level].needs_cleanup() {
                return true;
            }
            level = level + 1;
        }
        false
    }

    /// The levels that the next new key is for, by the live count.
    pub open spec fn upcoming_target(&self) -> BatchTarget {
        choose|target: BatchTarget| #[trigger]
            batch::is_target(
                elastic_geometry::batch_ends(self.slot_count(), self.fraction()),
                self.entries().len(),
                target,
            )
    }

    /// Where the construction places a new key: level, slot and logical probe.
    pub open spec fn paper_place(&self, hash: u64) -> Option<(nat, nat, nat)> {
        placement_for(self.view_levels(), self.fraction(), hash, self.upcoming_target())
    }

    /// Stores an entry whose key is absent, growing where the table is full and
    /// rebuilding where no probe leads to a place.
    fn insert_for_vacant_entry_prepared(
        &mut self,
        key: K,
        value: V,
        prepared: PreparedElasticKey,
        key_fingerprint: u8,
        Ghost(hash): Ghost<u64>,
    ) -> (result: ElasticLocation)
        requires
            old(self).inv(),
            hash == old(self).hash_builder.hash_of(key),
            prepared.is_for(hash),
            key_fingerprint == control::fingerprint(hash),
            table::stored(old(self).stored_entries(), key) is None,
            old(self).has_room(),
        ensures
            final(self).inv(),
            final(self).stored_entries() == old(self).stored_entries().insert(key, value),
            final(self).reserve_fraction == old(self).reserve_fraction,
            final(self).hash_builder == old(self).hash_builder,
            final(self).slot_count() == old(self).slots_for_one_more(),
            final(self).key_at(result) == Some(key),
            final(self).placed_from(old(self), key, value),
            old(self).entries().len() >= old(self).limit() || old(self).paper_place(hash) is None
                ==> final(self).stale() == 0 && final(self).filter_is_exact(),
            old(self).filter_is_exact() ==> final(self).filter_is_exact(),
            old(self).entries().len() < old(self).limit() ==> match old(self).paper_place(hash) {
                Some((level, slot, _)) => {
                    &&& result.level == level
                    &&& result.slot == slot
                    &&& final(self).epoch@ == old(self).epoch@
                    &&& final(self).stale() == old(self).stale()
                    &&& elastic_filter::model(final(self).filter_words())
                        == elastic_filter::with_record(
                        elastic_filter::model(old(self).filter_words()),
                        elastic_filter::probe_of(hash).signature(),
                        level,
                    )
                },
                None => final(self).epoch@ == old(self).epoch@.recovered(
                    EpochTransition::PlacementRecovery,
                ),
            },
    {
        let ghost before = *self;
        proof {
            self.lemma_len();
        }
        if let InsertAction::Resize(slots) = BatchScheduler::on_insert(
            self.len,
            self.total_slots,
            self.max_insertions,
        ) {
            proof {
                lemma_enlarged(self.total_slots as nat, self.reserve_fraction);
            }
            self.resize_with_transition(slots, EpochTransition::Growth);
        }
        let ghost grown = *self;
        let target: BatchTarget = self.next_target();
        proof {
            grown.lemma_len();
            batch::law_target_is_unique(
                grown.scheduler.ends(),
                grown.len as nat,
                target,
                grown.upcoming_target(),
            );
        }
        if let Some(placement) = self.choose_slot_for_new_key(
            prepared.route.probe,
            target,
            Ghost(hash),
        ) {
            self.place_new_entry(
                key,
                value,
                prepared,
                key_fingerprint,
                placement,
                Ghost(hash),
                Ghost(target),
            );
            let loc: ElasticLocation = ElasticLocation {
                level: placement.level,
                slot: placement.slot,
            };
            proof {
                grown.lemma_gained(*self, loc, key, value);
                assert(self.settled_from(&grown, key, value));
                before.lemma_placed(grown, *self, key, value);
            }
            return loc;
        }
        let ghost stuck = *self;
        let loc: ElasticLocation = self.insert_by_recovery(
            key,
            value,
            prepared,
            key_fingerprint,
            Ghost(hash),
        );
        proof {
            let again = choose|again: Self| #[trigger]
                again.refilled(&stuck, stuck.slot_count()) && self.gained(&again, key, value);
            table::lemma_refilled_from_alike::<K, V, Self>(
                stuck,
                grown,
                again,
                grown.slot_count(),
            );
            assert(self.settled_from(&grown, key, value));
            before.lemma_placed(grown, *self, key, value);
        }
        loc
    }

    /// Rebuilds at the same size and stores an entry whose key is absent.
    fn insert_by_recovery(
        &mut self,
        key: K,
        value: V,
        prepared: PreparedElasticKey,
        key_fingerprint: u8,
        Ghost(hash): Ghost<u64>,
    ) -> (result: ElasticLocation)
        requires
            old(self).inv(),
            hash == old(self).hash_builder.hash_of(key),
            prepared.is_for(hash),
            key_fingerprint == control::fingerprint(hash),
            table::stored(old(self).stored_entries(), key) is None,
            old(self).len < old(self).max_insertions,
        ensures
            final(self).inv(),
            final(self).stored_entries() == old(self).stored_entries().insert(key, value),
            final(self).reserve_fraction == old(self).reserve_fraction,
            final(self).hash_builder == old(self).hash_builder,
            final(self).total_slots == old(self).total_slots,
            final(self).key_at(result) == Some(key),
            final(self).epoch@ == old(self).epoch@.recovered(EpochTransition::PlacementRecovery),
            exists|again: Self| #[trigger]
                again.refilled(old(self), old(self).slot_count()) && final(self).gained(
                    &again,
                    key,
                    value,
                ),
            final(self).stale() == 0,
            final(self).filter_is_exact(),
    {
        let ghost before = *self;
        self.resize_with_transition(self.total_slots, EpochTransition::PlacementRecovery);
        let ghost again = *self;
        let target: BatchTarget = self.next_target();
        proof {
            again.lemma_len();
            batch::law_target_is_unique(
                again.scheduler.ends(),
                again.len as nat,
                target,
                again.upcoming_target(),
            );
        }
        let loc: ElasticLocation = match self.choose_slot_for_new_key(
            prepared.route.probe,
            target,
            Ghost(hash),
        ) {
            Some(placement) => {
                self.place_new_entry(
                    key,
                    value,
                    prepared,
                    key_fingerprint,
                    placement,
                    Ghost(hash),
                    Ghost(target),
                );
                ElasticLocation { level: placement.level, slot: placement.slot }
            },
            None => {
                let (level, slot) = self.place_exceptional_entry(
                    key,
                    value,
                    prepared,
                    key_fingerprint,
                    Ghost(hash),
                );
                ElasticLocation { level, slot }
            },
        };
        proof {
            again.lemma_gained(*self, loc, key, value);
            assert(again.refilled(&before, before.slot_count()));
        }
        loc
    }

    /// What settles in a table that was rebuilt with more slots if it was full is
    /// placed.
    proof fn lemma_placed(&self, grown: Self, after: Self, key: K, value: V)
        requires
            if self.entries().len() < self.limit() {
                grown == *self
            } else {
                grown.rebuilt_from(self, self.slots_for_one_more(), EpochTransition::Growth)
            },
            after.settled_from(&grown, key, value),
        ensures
            after.placed_from(self, key, value),
    {
    }

    /// A key is a lookup value with its own hash.
    proof fn lemma_key_query(&self, key: K, hash: u64)
        requires
            self.index_inv(),
            hash == self.hash_builder.hash_of(key),
        ensures
            table::hashes_to::<K, K, S>(self.hash_builder, key, hash),
    {
        assert forall|other: K| #[trigger] key.stands_for(other) implies self.hash_builder.hash_of(
            other,
        ) == hash by {
            assert(hashing::same_key(key, other));
        }
        assert forall|left: K, right: K|
            (#[trigger] key.stands_for(left) && #[trigger] key.stands_for(
                right,
            )) implies hashing::same_key(left, right) by {
            assert(hashing::same_key(key, left) && hashing::same_key(key, right));
            assert(hashing::same_key(left, key));
        }
    }

    /// Empties every level.
    fn clear_levels(&mut self)
        requires
            old(self).inv(),
        ensures
            is_fresh(final(self).levels@, final(self).capacities@),
            final(self).capacities == old(self).capacities,
            final(self).total_slots == old(self).total_slots,
            final(self).max_insertions == old(self).max_insertions,
            final(self).reserve_fraction == old(self).reserve_fraction,
            final(self).hash_builder == old(self).hash_builder,
            final(self).scheduler == old(self).scheduler,
            final(self).metadata == old(self).metadata,
            final(self).epoch == old(self).epoch,
    {
        let ghost before = *self;
        let mut level: usize = 0;
        while level < self.levels.len()
            invariant
                before.inv(),
                level <= self.levels@.len(),
                self.levels@.len() == before.levels@.len(),
                self.capacities == before.capacities,
                self.total_slots == before.total_slots,
                self.max_insertions == before.max_insertions,
                self.reserve_fraction == before.reserve_fraction,
                self.hash_builder == before.hash_builder,
                self.scheduler == before.scheduler,
                self.metadata == before.metadata,
                self.epoch == before.epoch,
                forall|l: int|
                    level <= l < before.levels@.len() ==> #[trigger] self.levels@[l]
                        == before.levels@[l],
                forall|l: int|
                    0 <= l < level ==> (#[trigger] self.levels@[l]).wf() && self.levels@[l].is_blank()
                        && self.levels@[l].values().len() == self.capacities@[l],
            decreases self.levels@.len() - level,
        {
            proof {
                assert(self.levels@[level as int] == before.levels@[level as int]);
                assert(before.levels@[level as int].wf());
            }
            self.levels[level].wipe();
            level = level + 1;
        }
    }
}

impl<T> Level<T> {
    /// Empties every slot.
    fn wipe(&mut self)
        requires
            old(self).wf(),
        ensures
            final(self).wf(),
            final(self).is_blank(),
            final(self).values().len() == old(self).values().len(),
    {
        self.storage.clear_all_controls();
        self.len = 0;
        self.tombstones = 0;
        proof {
            slots::lemma_counts_of_empty(self.storage.controls());
            assert forall|slot: int| 0 <= slot < self.values().len() implies (
            #[trigger] self.values()[slot]) is None by {
                assert(self.controls()[slot] == CTRL_EMPTY);
            }
        }
    }
}

impl<K: Eq, V, S: HashBuilder<K>> TableBackend<K, V> for ElasticTable<K, V, S> {
    proof fn lemma_wf(&self) {
        self.lemma_len();
        assert forall|loc: ElasticLocation|
            (#[trigger] self.key_at(loc)) is Some implies self.entries().contains_key(
            self.key_at(loc)->0,
        ) by {
            assert(cell(self.levels@, loc.level as int, loc.slot as int) is Some);
        }
    }

    proof fn lemma_cleanup(&self) {
        let none = Set::<K>::empty();
        assert forall|l: nat| #[trigger] on_level(self.index@, none, l).len() == 0 by {
            assert(on_level(self.index@, none, l) =~= none);
        }
        if self.cleanup_due() {
            let l = choose|l: int|
                0 <= l < self.levels@.len() && (#[trigger] self.levels@[l]).overdue();
            assert(self.levels@[l].overdue_with(on_level(self.index@, none, l as nat).len()));
        }
        assert forall|loc: ElasticLocation|
            #![trigger self.cleanup_after(loc)]
            self.key_at(loc) is Some implies self.cleanup_due_without(
            set![self.key_at(loc)->0],
        ) == (self.cleanup_due() || self.cleanup_after(loc)) by {
            let key = self.key_at(loc)->0;
            let one = set![key];
            assert(cell(self.levels@, loc.level as int, loc.slot as int) is Some);
            assert(self.index@.contains_key(key) && self.index@[key].0 == loc.level);
            assert forall|l: nat| #[trigger] on_level(self.index@, one, l).len() == if l
                == loc.level {
                1nat
            } else {
                0nat
            } by {
                if l == loc.level {
                    assert(on_level(self.index@, one, l) =~= one);
                    assert(one.len() == 1);
                } else {
                    assert(on_level(self.index@, one, l) =~= none);
                }
            }
            if self.cleanup_due() {
                let l = choose|l: int|
                    0 <= l < self.levels@.len() && (#[trigger] self.levels@[l]).overdue();
                assert(self.levels@[l].overdue_with(on_level(self.index@, one, l as nat).len()));
            }
            if self.cleanup_after(loc) {
                let l = loc.level as int;
                assert(self.levels@[l].overdue_with(on_level(self.index@, one, l as nat).len()));
            }
            if self.cleanup_due_without(one) {
                let l = choose|l: int|
                    0 <= l < self.levels@.len() && (#[trigger] self.levels@[l]).overdue_with(
                        on_level(self.index@, one, l as nat).len(),
                    );
                assert(on_level(self.index@, one, l as nat).len() <= 1);
                if l != loc.level {
                    assert(self.levels@[l].overdue());
                }
            }
        }
    }

    proof fn lemma_lost(&self, before: &Self, loc: ElasticLocation) {
        before.lemma_one_place(loc);
        before.lemma_level_counters(loc.level as int);
        assert forall|other: ElasticLocation| #[trigger]
            self.buried_at(other) == (other == loc || before.buried_at(other)) by {
            if before.key_at(other) is Some && self.key_at(other) is None {
                before.lemma_one_place(other);
            }
        }
        if self.cleanup_due() {
            let l = choose|l: int|
                0 <= l < self.levels@.len() && (#[trigger] self.levels@[l]).overdue();
            self.lemma_level_counters(l);
            before.lemma_level_counters(l);
            if l == loc.level {
                assert(tombstones_of(*self, l) =~= tombstones_of(*before, l).insert(
                    loc.slot as int,
                ));
                assert(before.cleanup_after(loc));
            } else {
                assert(tombstones_of(*self, l) =~= tombstones_of(*before, l));
                assert(before.levels@[l].overdue());
            }
        }
    }

    proof fn lemma_clean(&self) {
        assert forall|l: int| 0 <= l < self.levels@.len() implies !(
        #[trigger] self.levels@[l]).overdue() by {
            self.lemma_level_counters(l);
            assert(tombstones_of(*self, l) =~= Set::<int>::empty());
        }
    }

    proof fn lemma_storage_decides(&self, other: &Self) {
        let left = self.levels@;
        let right = other.levels@;
        assert(self.capacities@ =~= other.capacities@);
        assert forall|l: int| 0 <= l < left.len() implies (#[trigger] left[l]).values()
            == right[l].values() && left[l].controls() == right[l].controls() by {
            self.lemma_same_level(*other, l);
        }
        assert forall|l: int| 0 <= l < left.len() implies (#[trigger] left[l]).live()
            == right[l].live() && left[l].buried() == right[l].buried() by {
            assert(left[l].wf() && right[l].wf());
            assert(left[l].controls() == right[l].controls());
        }
        assert(self.index@ =~= other.index@) by {
            assert forall|key: K| #[trigger]
                self.index@.contains_key(key) implies other.index@.contains_key(key)
                && other.index@[key] == self.index@[key] by {
                let place = self.index@[key];
                assert(in_range(left, place.0 as int, place.1 as int));
                assert(cell(right, place.0 as int, place.1 as int) == cell(
                    left,
                    place.0 as int,
                    place.1 as int,
                ));
            }
            assert forall|key: K| #[trigger]
                other.index@.contains_key(key) implies self.index@.contains_key(key) by {
                let place = other.index@[key];
                assert(in_range(right, place.0 as int, place.1 as int));
                assert(cell(left, place.0 as int, place.1 as int) == cell(
                    right,
                    place.0 as int,
                    place.1 as int,
                ));
            }
        }
        lemma_same_listing(left, right, 0);
        assert forall|key: K| #[trigger] self.place_of_new(key) == other.place_of_new(key) by {
            lemma_same_place(
                left,
                right,
                self.reserve_fraction,
                self.hash_builder.hash_of(key),
                self.upcoming_target(),
            );
        }
        assert forall|loc: ElasticLocation| #[trigger]
            self.is_first_free(loc) == other.is_first_free(loc) by {
            if self.is_first_free(loc) {
                self.lemma_same_first_free(*other, loc);
            }
            if other.is_first_free(loc) {
                other.lemma_same_first_free(*self, loc);
            }
        }
        assert forall|first: ElasticLocation, second: ElasticLocation| #[trigger]
            self.is_first_free(first) && #[trigger] self.is_first_free(
                second,
            ) implies first == second by {
            assert(cell(left, first.level as int, first.slot as int) is None);
            assert(cell(left, second.level as int, second.slot as int) is None);
        }
        assert(self.cleanup_due() == other.cleanup_due()) by {
            if self.cleanup_due() {
                let l = choose|l: int| 0 <= l < left.len() && (#[trigger] left[l]).overdue();
                assert(right[l].overdue());
            }
            if other.cleanup_due() {
                let l = choose|l: int| 0 <= l < right.len() && (#[trigger] right[l]).overdue();
                assert(left[l].overdue());
            }
        }
    }

    proof fn lemma_enlarged(slots: nat, reserve: ReserveFraction) {
        capacity::law_insertion_limit_bounds(0, reserve);
        if !(slots == 1 && reserve.d() == 1) {
            lemma_enlarged(slots, reserve);
            capacity::law_limit_of_twice_the_slots(slots, reserve);
        }
    }

    proof fn lemma_growth(slots: nat, needed: nat, reserve: ReserveFraction) {
        capacity::lemma_doubled_capacity_fits(
            if slots >= INITIAL_CAPACITY {
                slots
            } else {
                INITIAL_CAPACITY as nat
            },
            needed,
            reserve,
        );
    }

    #[inline]
    fn hasher(&self) -> (result: &S) {
        &self.hash_builder
    }

    #[inline]
    fn len(&self) -> (result: usize) {
        proof {
            self.lemma_len();
        }
        self.len
    }

    #[inline]
    fn capacity(&self) -> (result: usize) {
        self.max_insertions
    }

    #[inline]
    fn total_slots(&self) -> (result: usize) {
        self.total_slots
    }

    #[inline]
    fn reserve_config(&self) -> (result: ReserveFraction) {
        self.reserve_fraction
    }

    fn epoch_snapshot(&self) -> (result: EpochSnapshot) {
        proof {
            self.lemma_len();
        }
        self.epoch.snapshot(self.len)
    }

    #[inline]
    fn slot_ref(&self, loc: ElasticLocation) -> (result: &SlotEntry<K, V>) {
        proof {
            assert(cell(self.levels@, loc.level as int, loc.slot as int) is Some);
            assert(self.levels@[loc.level as int].wf());
        }
        self.levels[loc.level].storage.get_ref(loc.slot)
    }

    #[inline]
    fn pair_mut(&mut self, loc: ElasticLocation) -> (result: (&K, &mut V)) {
        let ghost before = *self;
        proof {
            let level = loc.level as int;
            let slot = loc.slot as int;
            assert(cell(self.levels@, level, slot) is Some);
            assert(self.levels@[level].wf());
            assert forall|after: Self, value: V| #[trigger]
                after.revalued(&before, level, slot, value) implies {
                &&& after.inv()
                &&& after.stored_entries() == before.stored_entries().insert(
                    cell(before.levels@, level, slot)->0.key,
                    value,
                )
                &&& after.cleanup_due() == before.cleanup_due()
                &&& forall|gone: Set<K>| #[trigger]
                    after.cleanup_due_without(gone) == before.cleanup_due_without(gone)
                &&& forall|other: ElasticLocation| #[trigger]
                    after.key_at(other) == before.key_at(other)
                &&& forall|scan: ElasticScan| #[trigger]
                    after.scanning(scan) == before.scanning(scan)
                &&& forall|scan: ElasticScan, key: K| #[trigger]
                    after.pending(scan, key) == before.pending(scan, key)
            } by {
                before.lemma_revalued(after, level, slot, value);
                before.lemma_rewritten(after);
            }
        }
        self.entry_pair(loc)
    }

    fn pairs_mut<'a>(&'a mut self, locs: &[Option<ElasticLocation>]) -> (result: Vec<
        Option<(&'a K, &'a mut V)>,
    >) {
        let ghost before = *self;
        proof {
            assert forall|after: Self| #[trigger] after.rewritten(&before) implies {
                &&& after.inv()
                &&& after.stored_entries().dom() == before.stored_entries().dom()
                &&& forall|key: K| #[trigger]
                    before.stored_entries().contains_key(key) ==> after.stored_entries()[key]
                        == cell(
                        after.levels@,
                        before.index@[key].0 as int,
                        before.index@[key].1 as int,
                    )->0.value
            } by {
                before.lemma_rewritten(after);
            }
            assert forall|i: int| 0 <= i < locs@.len() implies ((
            #[trigger] locs@[i]) matches Some(loc) ==> {
                let key = before.key_at(loc)->0;
                &&& in_range(before.levels@, loc.level as int, loc.slot as int)
                &&& cell(before.levels@, loc.level as int, loc.slot as int) is Some
                &&& before.stored_entries().contains_key(key)
                &&& before.index@[key] == (loc.level as nat, loc.slot as nat)
            }) by {
                if locs@[i] is Some {
                    let loc = locs@[i]->0;
                    assert(before.key_at(loc) is Some);
                    assert(cell(before.levels@, loc.level as int, loc.slot as int) is Some);
                }
            }
            assert forall|key: K| #[trigger] before.stored_entries().contains_key(key) implies {
                let place = before.index@[key];
                &&& in_range(before.levels@, place.0 as int, place.1 as int)
                &&& before.stored_entries()[key] == cell(
                    before.levels@,
                    place.0 as int,
                    place.1 as int,
                )->0.value
                &&& (forall|i: int|
                    0 <= i < locs@.len() && (#[trigger] locs@[i]) is Some ==> before.key_at(
                        locs@[i]->0,
                    ) != Some(key)) ==> !wanted_at(locs@, place.0 as int, place.1 as int)
            } by {
                let place = before.index@[key];
                assert(in_range(before.levels@, place.0 as int, place.1 as int));
                assert(cell(before.levels@, place.0 as int, place.1 as int)->0.key == key);
            }
        }
        self.entry_pairs(locs)
    }

    #[inline]
    fn find<Q: Equivalent<K>>(&self, key: &Q, hash: u64, fingerprint: u8) -> (result: Option<
        ElasticLocation,
    >) {
        let prepared: PreparedElasticKey = PreparedElasticKey::new(hash);
        assert(prepared.is_for(hash));
        let at = |level: usize, slot: usize, _entry: &SlotEntry<K, V>| -> (loc: ElasticLocation)
            ensures
                loc.level == level,
                loc.slot == slot,
            { ElasticLocation { level, slot } };
        self.find_by_exact_schedule(key, prepared, fingerprint, at)
    }

    fn takes_one_more(&self) -> (result: bool) {
        proof {
            self.lemma_len();
        }
        match BatchScheduler::on_insert(self.len, self.total_slots, self.max_insertions) {
            InsertAction::Continue => true,
            InsertAction::Resize(slots) => {
                if self.total_slots == 1 && self.reserve_fraction.exponent() == 1
                    || slots > max_elastic_slots() {
                    return false;
                }
                let region: Vec<usize> = vec![slots];
                proof {
                    let numbers = region@.map_values(|c: usize| c as nat);
                    partition::lemma_sum_push(Seq::empty(), slots as nat);
                    assert(numbers =~= Seq::<nat>::empty().push(slots as nat));
                }
                check_regions::<K, V>(region.as_slice(), slots).is_ok()
            },
        }
    }

    /// While there is room, the entry goes where the construction places it, and the
    /// filter records it there; where it has no place, the table is rebuilt for
    /// placement recovery. A rebuild leaves an exact filter, and an exact filter stays
    /// exact.
    fn insert_for_vacant(&mut self, key: K, value: V, hash: u64) -> (result: ElasticLocation)
        ensures
            old(self).entries().len() >= old(self).limit() || old(self).paper_place(hash) is None
                ==> final(self).stale() == 0 && final(self).filter_is_exact(),
            old(self).filter_is_exact() ==> final(self).filter_is_exact(),
            old(self).entries().len() < old(self).limit() ==> match old(self).paper_place(hash) {
                Some((level, slot, _)) => {
                    &&& result.level == level
                    &&& result.slot == slot
                    &&& final(self).lifecycle() == old(self).lifecycle()
                    &&& final(self).stale() == old(self).stale()
                    &&& elastic_filter::model(final(self).filter_words())
                        == elastic_filter::with_record(
                        elastic_filter::model(old(self).filter_words()),
                        elastic_filter::probe_of(hash).signature(),
                        level,
                    )
                },
                None => final(self).lifecycle() == old(self).lifecycle().recovered(
                    EpochTransition::PlacementRecovery,
                ),
            },
    {
        let prepared: PreparedElasticKey = PreparedElasticKey::new(hash);
        let key_fingerprint: u8 = control::control_fingerprint(hash);
        self.insert_for_vacant_entry_prepared(key, value, prepared, key_fingerprint, Ghost(hash))
    }

    /// While there is room, a new key goes where the construction places it, and the
    /// filter records it there; where it has no place, the table is rebuilt for
    /// placement recovery. A rebuild leaves an exact filter.
    fn insert(&mut self, key: K, value: V, hash: u64) -> (result: Option<V>)
        ensures
            table::stored(old(self).entries(), key) is None && (old(self).entries().len()
                >= old(self).limit() || old(self).paper_place(hash) is None)
                ==> final(self).stale() == 0 && final(self).filter_is_exact(),
            table::stored(old(self).entries(), key) is None && old(self).entries().len()
                < old(self).limit() ==> match old(self).paper_place(hash) {
                Some((level, slot, _)) => {
                    &&& final(self).key_at(
                        ElasticLocation { level: level as usize, slot: slot as usize },
                    ) == Some(key)
                    &&& final(self).lifecycle() == old(self).lifecycle()
                    &&& final(self).stale() == old(self).stale()
                    &&& elastic_filter::model(final(self).filter_words())
                        == elastic_filter::with_record(
                        elastic_filter::model(old(self).filter_words()),
                        elastic_filter::probe_of(hash).signature(),
                        level,
                    )
                },
                None => final(self).lifecycle() == old(self).lifecycle().recovered(
                    EpochTransition::PlacementRecovery,
                ),
            },
    {
        proof {
            self.lemma_key_query(key, hash);
        }
        let prepared: PreparedElasticKey = PreparedElasticKey::new(hash);
        let key_fingerprint: u8 = control::control_fingerprint(hash);
        match self.locate_by_exact_schedule(&key, prepared, key_fingerprint, Ghost(hash)) {
            Some((level, slot)) => Some(
                self.replace_value(ElasticLocation { level, slot }, value),
            ),
            None => {
                self.insert_for_vacant_entry_prepared(
                    key,
                    value,
                    prepared,
                    key_fingerprint,
                    Ghost(hash),
                );
                None
            },
        }
    }

    /// A removal that calls for no cleanup counts as stale in the filter, which is
    /// recorded anew from the live entries once the count passes its threshold. A
    /// cleanup leaves an exact filter.
    fn remove(&mut self, loc: ElasticLocation) -> (result: (K, V))
        ensures
            old(self).cleanup_after(loc) ==> final(self).stale() == 0
                && final(self).filter_is_exact(),
            !old(self).cleanup_after(loc) ==> {
                let stale = table::saturated(old(self).stale() + 1);
                if stale > old(self).limit() {
                    final(self).stale() == 0 && final(self).filter_is_exact()
                } else {
                    final(self).stale() == stale && final(self).filter_words()
                        == old(self).filter_words()
                }
            },
    {
        let removed: (K, V) = self.bury(loc);
        let needs_cleanup: bool = self.levels[loc.level].needs_cleanup();
        self.settle_after_deletes(needs_cleanup);
        removed
    }

    /// The removal counts as stale in the filter, whose words stay.
    fn extract_finish(&mut self, loc: ElasticLocation) -> (result: (K, V))
        ensures
            final(self).stale() == table::saturated(old(self).stale() + 1),
            final(self).filter_words() == old(self).filter_words(),
    {
        self.bury(loc)
    }

    /// Without a cleanup, the filter is recorded anew from the live entries if too
    /// many deletes are stale in it. A cleanup leaves an exact filter.
    fn finish_deferred_removals(&mut self)
        ensures
            old(self).cleanup_due() ==> final(self).stale() == 0 && final(self).filter_is_exact(),
            !old(self).cleanup_due() ==> if old(self).stale() > old(self).limit() {
                final(self).stale() == 0 && final(self).filter_is_exact()
            } else {
                *final(self) == *old(self)
            },
    {
        let needs_cleanup: bool = self.any_needs_cleanup();
        self.settle_after_deletes(needs_cleanup);
    }

    fn scan(&self) -> (result: ElasticScan) {
        let end: usize = if self.levels.len() == 0 {
            0
        } else {
            self.levels[0].capacity()
        };
        let scan: ElasticScan = ElasticScan { level_idx: 0, region: OccupiedSlots::over(end) };
        proof {
            if self.levels@.len() > 0 {
                assert(self.levels@[0].wf());
            }
            assert forall|key: K| #[trigger] self.pending(
                scan,
                key,
            ) <==> self.entries().contains_key(key) by {
                if self.index@.contains_key(key) {
                    let place = self.index@[key];
                    assert(cell(self.levels@, place.0 as int, place.1 as int) is Some);
                    assert(self.levels@[place.0 as int].wf());
                }
            }
        }
        scan
    }

    fn scan_next(&self, scan: &mut ElasticScan) -> (result: Option<ElasticLocation>) {
        let ghost start = *scan;
        loop
            invariant
                self.inv(),
                start == *old(scan),
                self.scanning(*scan),
                forall|key: K| #[trigger] self.pending(*scan, key) <==> self.pending(start, key),
            decreases self.levels@.len() - scan.level_idx,
        {
            if scan.level_idx >= self.levels.len() {
                proof {
                    assert forall|key: K| !#[trigger] self.pending(*scan, key) by {
                        if self.index@.contains_key(key) {
                            assert(in_range(
                                self.levels@,
                                self.index@[key].0 as int,
                                self.index@[key].1 as int,
                            ));
                        }
                    }
                    assert forall|key: K| !#[trigger] self.pending(start, key) by {
                        assert(self.pending(*scan, key) <==> self.pending(start, key));
                    }
                }
                return None;
            }
            let level: usize = scan.level_idx;
            let ghost before = *scan;
            proof {
                assert(self.levels@[level as int].wf());
            }
            let found: Option<usize> = scan.region.step(self.levels[level].storage.control_bytes());
            if let Some(slot) = found {
                proof {
                    self.lemma_scanned(before, *scan, slot as int);
                }
                return Some(ElasticLocation { level, slot });
            }
            scan.level_idx = level + 1;
            if scan.level_idx < self.levels.len() {
                scan.region = OccupiedSlots::over(self.levels[scan.level_idx].capacity());
            }
            proof {
                if scan.level_idx < self.levels@.len() {
                    assert(self.levels@[scan.level_idx as int].wf());
                }
                assert forall|key: K| #[trigger] self.pending(*scan, key) <==> self.pending(
                    before,
                    key,
                ) by {
                    if self.index@.contains_key(key) {
                        let place = self.index@[key];
                        assert(cell(self.levels@, place.0 as int, place.1 as int) is Some);
                        assert(self.levels@[place.0 as int].wf());
                    }
                }
                assert forall|key: K| #[trigger] self.pending(*scan, key) <==> self.pending(
                    start,
                    key,
                ) by {
                    assert(self.pending(before, key) <==> self.pending(start, key));
                }
            }
        }
    }

    fn grow_capacity_for(&self, needed: usize) -> (result: Option<usize>) {
        let start: usize = if self.total_slots >= INITIAL_CAPACITY {
            self.total_slots
        } else {
            INITIAL_CAPACITY
        };
        capacity::capacity_for(start, needed, self.reserve_fraction)
    }

    /// The filter is exact then.
    fn resize(&mut self, new_capacity: usize)
        ensures
            final(self).stale() == 0,
            final(self).filter_is_exact(),
    {
        proof {
            self.lemma_len();
        }
        self.resize_with_transition(new_capacity, EpochTransition::ExplicitResize);
    }

    /// The filter is exact on `Ok`.
    fn try_resize(&mut self, new_capacity: usize) -> (result: Result<(), TryReserveError>)
        ensures
            result is Ok ==> final(self).stale() == 0 && final(self).filter_is_exact(),
    {
        proof {
            self.lemma_len();
        }
        self.try_resize_exact(new_capacity)
    }

    /// The filter is exact if the table has shrunk.
    fn shrink_to(&mut self, min_capacity: usize)
        ensures
            final(self).slot_count() != old(self).slot_count() ==> final(self).stale() == 0
                && final(self).filter_is_exact(),
    {
        proof {
            self.lemma_len();
            capacity::law_insertion_limit_bounds(0, self.reserve_fraction);
        }
        if self.len == 0 && min_capacity == 0 {
            if self.total_slots > 0 {
                self.resize_with_transition(0, EpochTransition::ExplicitResize);
            }
            return;
        }
        let requested: usize = if self.len >= min_capacity {
            self.len
        } else {
            min_capacity
        };
        let lower: usize = if requested >= INITIAL_CAPACITY {
            requested
        } else {
            INITIAL_CAPACITY
        };
        proof {
            capacity::lemma_doubled_capacity_fits(
                INITIAL_CAPACITY as nat,
                lower as nat,
                self.reserve_fraction,
            );
        }
        if let Some(slots) = capacity::capacity_for(
            INITIAL_CAPACITY,
            lower,
            self.reserve_fraction,
        ) {
            if slots < self.total_slots {
                self.resize_with_transition(slots, EpochTransition::ExplicitResize);
            }
        }
    }

    /// The filter is exact then.
    fn clear(&mut self)
        ensures
            final(self).stale() == 0,
            final(self).filter_is_exact(),
    {
        self.wipe_all();
    }

    /// The filter is exact then.
    fn wipe_all(&mut self)
        ensures
            final(self).stale() == 0,
            final(self).filter_is_exact(),
    {
        self.clear_levels();
        self.len = 0;
        self.scheduler.reset();
        self.schedule.clear();
        self.exceptional_placement = false;
        self.metadata.clear();
        self.stale_membership = 0;
        self.epoch.start(EpochTransition::Clear);
        self.index = Ghost(Map::empty());
        proof {
            self.lemma_blank();
            self.lemma_blank_filter();
        }
    }

    fn with_capacity_and_reserve_and_hasher(
        capacity: usize,
        reserve: ReserveFraction,
        hash_builder: S,
    ) -> (result: Self)
        ensures
            result.stale() == 0,
            result.filter_is_exact(),
    {
        let geometry: ElasticGeometry = ElasticGeometry::for_insert_budget(
            capacity,
            reserve,
        ).unwrap();
        proof {
            lemma_budget(capacity as nat, reserve);
        }
        let parts: ElasticParts<K, V> = ElasticParts::allocate(&geometry);
        ElasticTable::from_parts(geometry, parts, reserve, hash_builder, EpochState::initial())
    }

    fn try_with_capacity_and_reserve_and_hasher(
        capacity: usize,
        reserve: ReserveFraction,
        hash_builder: S,
    ) -> (result: Result<Self, TryBuildError>)
        ensures
            result matches Ok(table) ==> table.stale() == 0 && table.filter_is_exact(),
    {
        proof {
            lemma_budget(capacity as nat, reserve);
        }
        let geometry: ElasticGeometry = match ElasticGeometry::for_insert_budget(
            capacity,
            reserve,
        ) {
            Some(geometry) => geometry,
            None => {
                return Err(TryBuildError::CapacityOverflow);
            },
        };
        match ElasticParts::try_allocate(&geometry, Ghost(reserve)) {
            Ok(parts) => Ok(
                ElasticTable::from_parts(
                    geometry,
                    parts,
                    reserve,
                    hash_builder,
                    EpochState::initial(),
                ),
            ),
            Err(error) => Err(TryBuildError::from(error)),
        }
    }

    /// The filter is copied.
    fn clone_table(&self) -> (result: Self) where K: Clone, V: Clone, S: Clone
        ensures
            result.stale() == self.stale(),
            result.filter_words() == self.filter_words(),
    {
        let hash_builder: S = self.hash_builder.clone();
        let levels: Vec<Level<SlotEntry<K, V>>> = clone_levels(&self.levels);
        let mut capacities: Vec<usize> = Vec::new();
        while capacities.len() < self.capacities.len()
            invariant
                capacities@.len() <= self.capacities@.len(),
                capacities@ == self.capacities@.take(capacities@.len() as int),
            decreases self.capacities@.len() - capacities@.len(),
        {
            proof {
                assert(self.capacities@.take(capacities@.len() as int + 1)
                    =~= self.capacities@.take(capacities@.len() as int).push(
                    self.capacities@[capacities@.len() as int],
                ));
            }
            capacities.push(self.capacities[capacities.len()]);
        }
        assert(self.capacities@.take(self.capacities@.len() as int) =~= self.capacities@);
        let mut result: Self = ElasticTable {
            levels,
            capacities,
            len: self.len,
            total_slots: self.total_slots,
            max_insertions: self.max_insertions,
            reserve_fraction: self.reserve_fraction,
            scheduler: self.scheduler.copy(),
            hash_builder,
            epoch: self.epoch,
            schedule: self.schedule.copy(),
            exceptional_placement: self.exceptional_placement,
            metadata: self.metadata.copy(),
            stale_membership: self.stale_membership,
            index: Ghost(Map::empty()),
        };
        proof {
            result.index@ = cloned_index(levels@);
            self.lemma_clone(result);
        }
        result
    }
}

impl<K: Eq, V, S: HashBuilder<K>> ElasticTable<K, V, S> {
    /// The key and, for change in place, the value of a live slot.
    fn entry_pair(&mut self, loc: ElasticLocation) -> (result: (&K, &mut V))
        requires
            old(self).shape_inv(),
            in_range(old(self).levels@, loc.level as int, loc.slot as int),
            cell(old(self).levels@, loc.level as int, loc.slot as int) is Some,
        ensures
            *result.0 == cell(old(self).levels@, loc.level as int, loc.slot as int)->0.key,
            *result.1 == cell(old(self).levels@, loc.level as int, loc.slot as int)->0.value,
            final(self).revalued(old(self), loc.level as int, loc.slot as int, *final(result.1)),
    {
        proof {
            assert(self.levels@[loc.level as int].wf());
        }
        self.levels[loc.level].pair_mut(loc.slot)
    }

    /// The keys and, for change in place, the values of several live slots.
    fn entry_pairs<'a>(&'a mut self, locs: &[Option<ElasticLocation>]) -> (result: Vec<
        Option<(&'a K, &'a mut V)>,
    >)
        requires
            old(self).shape_inv(),
            forall|i: int|
                0 <= i < locs@.len() ==> ((#[trigger] locs@[i]) matches Some(loc) ==> in_range(
                    old(self).levels@,
                    loc.level as int,
                    loc.slot as int,
                ) && cell(old(self).levels@, loc.level as int, loc.slot as int) is Some),
            forall|i: int, j: int|
                0 <= i < j < locs@.len() && (#[trigger] locs@[i]) is Some && (
                #[trigger] locs@[j]) is Some ==> locs@[i] != locs@[j],
        ensures
            result@.len() == locs@.len(),
            final(self).rewritten(old(self)),
            forall|l: int|
                0 <= l < old(self).levels@.len() ==> kept_but(
                    old(self).levels@[l],
                    #[trigger] final(self).levels@[l],
                    locs@,
                    l,
                ),
            forall|i: int|
                0 <= i < locs@.len() ==> match #[trigger] locs@[i] {
                    Some(loc) => {
                        &&& result@[i] is Some
                        &&& *(result@[i]->0).0 == cell(
                            old(self).levels@,
                            loc.level as int,
                            loc.slot as int,
                        )->0.key
                        &&& *(result@[i]->0).1 == cell(
                            old(self).levels@,
                            loc.level as int,
                            loc.slot as int,
                        )->0.value
                        &&& cell(final(self).levels@, loc.level as int, loc.slot as int)->0.value
                            == *final((result@[i]->0).1)
                    },
                    None => result@[i] is None,
                },
    {
        proof {
            assert forall|l: int| 0 <= l < self.levels@.len() implies (
            #[trigger] self.levels@[l]).wf() by {}
        }
        level_pairs_mut(self.levels.as_mut_slice(), 0, locs)
    }

    /// A step within a level takes one key off what is pending.
    proof fn lemma_scanned(&self, before: ElasticScan, after: ElasticScan, slot: int)
        requires
            self.inv(),
            self.scanning(before),
            before.level_idx < self.levels@.len(),
            after.level_idx == before.level_idx,
            after.region.wf(),
            after.region.limit() == before.region.limit(),
            before.region.pending(self.levels@[before.level_idx as int].controls(), slot),
            forall|other: int| #[trigger]
                after.region.pending(self.levels@[before.level_idx as int].controls(), other)
                    <==> before.region.pending(
                    self.levels@[before.level_idx as int].controls(),
                    other,
                ) && other != slot,
        ensures
            self.scanning(after),
            in_range(self.levels@, before.level_idx as int, slot),
            cell(self.levels@, before.level_idx as int, slot) is Some,
            self.pending(before, cell(self.levels@, before.level_idx as int, slot)->0.key),
            forall|key: K| #[trigger]
                self.pending(after, key) <==> self.pending(before, key) && key != cell(
                    self.levels@,
                    before.level_idx as int,
                    slot,
                )->0.key,
    {
        let level = before.level_idx as int;
        assert(self.levels@[level].wf());
        assert(in_range(self.levels@, level, slot));
        assert(cell(self.levels@, level, slot) is Some);
        let found = cell(self.levels@, level, slot)->0.key;
        assert(self.index@[found] == (level as nat, slot as nat));
        assert forall|key: K| #[trigger] self.pending(after, key) <==> self.pending(before, key)
            && key != found by {
            if self.index@.contains_key(key) {
                let place = self.index@[key];
                assert(cell(self.levels@, place.0 as int, place.1 as int)->0.key == key);
            }
        }
    }
}

/// Whether a level is another with values changed in place.
pub open spec fn rewritten_level<K, V>(
    before: Level<SlotEntry<K, V>>,
    after: Level<SlotEntry<K, V>>,
) -> bool {
    &&& after.wf()
    &&& after.live() == before.live()
    &&& after.buried() == before.buried()
    &&& after.controls() == before.controls()
    &&& after.values().len() == before.values().len()
    &&& forall|slot: int|
        0 <= slot < before.values().len() ==> match (
            before.values()[slot],
            #[trigger] after.values()[slot],
        ) {
            (Some(old_entry), Some(new_entry)) => old_entry.key == new_entry.key,
            (None, None) => true,
            _ => false,
        }
}

/// The slots wanted on one level.
pub open spec fn slots_on(locs: Seq<Option<ElasticLocation>>, level: nat) -> Seq<Option<usize>> {
    locs.map_values(
        |loc: Option<ElasticLocation>|
            match loc {
                Some(place) => if place.level == level {
                    Some(place.slot)
                } else {
                    None
                },
                None => None,
            },
    )
}

/// The slots wanted on one level.
fn slots_on_level(locs: &[Option<ElasticLocation>], level: usize) -> (result: Vec<Option<usize>>)
    ensures
        result@ == slots_on(locs@, level as nat),
{
    let mut slots: Vec<Option<usize>> = Vec::new();
    for i in 0..locs.len()
        invariant
            slots@ == slots_on(locs@, level as nat).take(i as int),
    {
        let wanted: Option<usize> = match locs[i] {
            Some(place) => if place.level == level {
                Some(place.slot)
            } else {
                None
            },
            None => None,
        };
        proof {
            assert(slots_on(locs@, level as nat).take(i + 1) =~= slots_on(
                locs@,
                level as nat,
            ).take(i as int).push(wanted));
        }
        slots.push(wanted);
    }
    proof {
        assert(slots_on(locs@, level as nat).take(locs@.len() as int) =~= slots_on(
            locs@,
            level as nat,
        ));
    }
    slots
}

/// Whether a slot of a level is wanted.
pub open spec fn wanted_at(locs: Seq<Option<ElasticLocation>>, level: int, slot: int) -> bool {
    exists|i: int|
        0 <= i < locs.len() && (#[trigger] locs[i]) is Some && locs[i]->0.level == level
            && locs[i]->0.slot == slot
}

/// Whether a level has the entries of another but for the wanted slots.
pub open spec fn kept_but<K, V>(
    before: Level<SlotEntry<K, V>>,
    after: Level<SlotEntry<K, V>>,
    locs: Seq<Option<ElasticLocation>>,
    level: int,
) -> bool {
    forall|slot: int|
        0 <= slot < before.values().len() && !wanted_at(locs, level, slot)
            ==> #[trigger] after.values()[slot] == before.values()[slot]
}

impl<K, V> Level<SlotEntry<K, V>> {
    /// Borrows several live slots at once.
    fn pairs_mut<'a>(&'a mut self, wants: &[Option<usize>]) -> (result: Vec<
        Option<(&'a K, &'a mut V)>,
    >)
        requires
            old(self).wf(),
            disjoint::all_distinct(wants@),
            disjoint::all_live(old(self).values(), 0, wants@),
        ensures
            result@.len() == wants@.len(),
            rewritten_level(*old(self), *final(self)),
            forall|i: int|
                0 <= i < wants@.len() ==> match #[trigger] wants@[i] {
                    Some(slot) => {
                        &&& result@[i] is Some
                        &&& *(result@[i]->0).0 == old(self).values()[slot as int]->0.key
                        &&& *(result@[i]->0).1 == old(self).values()[slot as int]->0.value
                        &&& final(self).values()[slot as int] == Some(
                            SlotEntry {
                                key: old(self).values()[slot as int]->0.key,
                                value: *final((result@[i]->0).1),
                            },
                        )
                    },
                    None => result@[i] is None,
                },
            forall|q: int|
                0 <= q < old(self).values().len() && !disjoint::wanted(wants@, q as nat)
                    ==> #[trigger] final(self).values()[q] == old(self).values()[q],
    {
        self.storage.pairs_mut(wants)
    }
}

/// Borrows several live slots of a run of levels that starts at level `base`.
fn level_pairs_mut<'a, K, V>(
    levels: &'a mut [Level<SlotEntry<K, V>>],
    base: usize,
    locs: &[Option<ElasticLocation>],
) -> (result: Vec<Option<(&'a K, &'a mut V)>>)
    requires
        base + old(levels)@.len() <= usize::MAX,
        forall|l: int| 0 <= l < old(levels)@.len() ==> (#[trigger] old(levels)@[l]).wf(),
        forall|i: int|
            0 <= i < locs@.len() ==> ((#[trigger] locs@[i]) matches Some(loc) ==> (loc.level >= base
                ==> in_range(old(levels)@, loc.level - base, loc.slot as int) && cell(
                old(levels)@,
                loc.level - base,
                loc.slot as int,
            ) is Some)),
        forall|i: int, j: int|
            0 <= i < j < locs@.len() && (#[trigger] locs@[i]) is Some && (
            #[trigger] locs@[j]) is Some ==> locs@[i] != locs@[j],
    ensures
        result@.len() == locs@.len(),
        final(levels)@.len() == old(levels)@.len(),
        forall|l: int|
            0 <= l < old(levels)@.len() ==> rewritten_level(
                old(levels)@[l],
                #[trigger] final(levels)@[l],
            ) && kept_but(old(levels)@[l], final(levels)@[l], locs@, base + l),
        forall|i: int|
            0 <= i < locs@.len() ==> match #[trigger] locs@[i] {
                Some(loc) => if loc.level >= base {
                    &&& result@[i] is Some
                    &&& *(result@[i]->0).0 == cell(
                        old(levels)@,
                        loc.level - base,
                        loc.slot as int,
                    )->0.key
                    &&& *(result@[i]->0).1 == cell(
                        old(levels)@,
                        loc.level - base,
                        loc.slot as int,
                    )->0.value
                    &&& cell(final(levels)@, loc.level - base, loc.slot as int)->0.value
                        == *final((result@[i]->0).1)
                } else {
                    result@[i] is None
                },
                None => result@[i] is None,
            },
    decreases old(levels)@.len(),
{
    if levels.len() == 0 {
        return disjoint::no_pairs(locs.len());
    }
    let wants: Vec<Option<usize>> = slots_on_level(locs, base);
    proof {
        assert(levels@[0].wf());
        assert forall|i: int| 0 <= i < wants@.len() implies ((
        #[trigger] wants@[i]) matches Some(slot) ==> (slot >= 0 ==> slot < levels@[0].values().len()
            && levels@[0].values()[slot as int] is Some)) by {
            assert(locs@[i] is Some ==> in_range(
                levels@,
                locs@[i]->0.level - base,
                locs@[i]->0.slot as int,
            ) || locs@[i]->0.level < base);
        }
        assert(disjoint::all_distinct(wants@)) by {
            assert forall|i: int, j: int|
                0 <= i < j < wants@.len() && (#[trigger] wants@[i]) is Some && (
                #[trigger] wants@[j]) is Some implies wants@[i] != wants@[j] by {
                assert(locs@[i] is Some && locs@[j] is Some);
                assert(locs@[i] != locs@[j]);
            }
        }
    }
    proof {
        assert forall|s: nat| #[trigger] disjoint::wanted(wants@, s) implies wanted_at(
            locs@,
            base as int,
            s as int,
        ) by {
            let i = choose|i: int|
                0 <= i < wants@.len() && (#[trigger] wants@[i]) is Some && wants@[i]->0 == s;
            assert(locs@[i] is Some);
        }
    }
    let (first, rest) = levels.split_at_mut(1);
    let mut pairs = level_pairs_mut(rest, base + 1, locs);
    let mut here = first.first_mut().unwrap().pairs_mut(wants.as_slice());
    let ghost all_here = here@;
    let ghost beyond = pairs@;
    let mut i: usize = locs.len();
    while i > 0
        invariant
            i <= locs@.len(),
            here@ == all_here.take(i as int),
            all_here.len() == locs@.len(),
            pairs@.len() == locs@.len(),
            beyond.len() == locs@.len(),
            forall|j: int| 0 <= j < i ==> #[trigger] pairs@[j] == beyond[j],
            forall|j: int|
                i <= j < locs@.len() ==> #[trigger] pairs@[j] == if all_here[j] is Some {
                    all_here[j]
                } else {
                    beyond[j]
                },
        decreases i,
    {
        i = i - 1;
        if let Some(item) = here.pop() {
            if item.is_some() {
                pairs.set(i, item);
            }
        }
    }
    proof {
        assert forall|j: int| 0 <= j < locs@.len() implies #[trigger] pairs@[j]
            == if wants@[j] is Some {
            all_here[j]
        } else {
            beyond[j]
        } by {}
    }
    pairs
}

/// What a budget gives takes as many insertions.
proof fn lemma_budget(requested: nat, reserve: ReserveFraction)
    requires
        reserve.wf(),
    ensures
        elastic_geometry::budget_slots(requested, reserve) matches Some(slots)
            ==> capacity::insertion_limit(slots, reserve) >= requested,
{
    capacity::law_insertion_limit_bounds(0, reserve);
    capacity::lemma_doubled_capacity_fits(INITIAL_CAPACITY as nat, requested, reserve);
}

/// Whether levels hold clones of the entries of other levels, slot by slot.
spec fn levels_cloned<K: Clone, V: Clone>(
    from: Seq<Level<SlotEntry<K, V>>>,
    to: Seq<Level<SlotEntry<K, V>>>,
) -> bool {
    &&& from.len() == to.len()
    &&& forall|l: int|
        0 <= l < to.len() ==> {
            &&& (#[trigger] to[l]).wf()
            &&& to[l].controls() == from[l].controls()
            &&& to[l].values().len() == from[l].values().len()
            &&& to[l].live() == from[l].live()
        }
    &&& forall|l: int, s: int|
        in_range(to, l, s) ==> match (cell(from, l, s), #[trigger] cell(to, l, s)) {
            (Some(value), Some(copy)) => cloned::<SlotEntry<K, V>>(value, copy),
            (None, None) => true,
            _ => false,
        }
}

/// Clones every level.
fn clone_levels<K: Clone, V: Clone>(levels: &Vec<Level<SlotEntry<K, V>>>) -> (result: Vec<
    Level<SlotEntry<K, V>>,
>)
    requires
        forall|l: int| 0 <= l < levels@.len() ==> (#[trigger] levels@[l]).wf(),
    ensures
        levels_cloned(levels@, result@),
{
    let mut copies: Vec<Level<SlotEntry<K, V>>> = Vec::new();
    while copies.len() < levels.len()
        invariant
            copies@.len() <= levels@.len(),
            forall|l: int| 0 <= l < levels@.len() ==> (#[trigger] levels@[l]).wf(),
            levels_cloned(levels@.take(copies@.len() as int), copies@),
        decreases levels@.len() - copies@.len(),
    {
        let level = &levels[copies.len()];
        let ghost held = copies@;
        assert(levels@[held.len() as int].wf());
        let copy: Level<SlotEntry<K, V>> = Level {
            storage: level.storage.clone_region(),
            len: level.len,
            tombstones: level.tombstones,
        };
        copies.push(copy);
        proof {
            let from = levels@.take(held.len() as int);
            let longer = levels@.take(copies@.len() as int);
            assert forall|l: int| 0 <= l < copies@.len() implies ({
                &&& (#[trigger] copies@[l]).wf()
                &&& copies@[l].controls() == longer[l].controls()
                &&& copies@[l].values().len() == longer[l].values().len()
                &&& copies@[l].live() == longer[l].live()
            }) by {
                if l < held.len() {
                    assert(copies@[l] == held[l]);
                    assert(longer[l] == from[l]);
                }
            }
            assert forall|l: int, s: int| in_range(copies@, l, s) implies match (
                cell(longer, l, s),
                #[trigger] cell(copies@, l, s),
            ) {
                (Some(value), Some(copied)) => cloned::<SlotEntry<K, V>>(value, copied),
                (None, None) => true,
                _ => false,
            } by {
                if l < held.len() {
                    assert(copies@[l] == held[l]);
                    assert(longer[l] == from[l]);
                    assert(in_range(held, l, s));
                    assert(cell(held, l, s) == cell(copies@, l, s));
                } else {
                    assert(copies@[l] == copy);
                    assert(copy.storage.values()[s] == cell(copies@, l, s));
                }
            }
        }
    }
    assert(levels@.take(levels@.len() as int) =~= levels@);
    copies
}

/// Whether a slot holds a key.
pub open spec fn holds_key<K, V>(
    levels: Seq<Level<SlotEntry<K, V>>>,
    level: int,
    slot: int,
    key: K,
) -> bool {
    in_range(levels, level, slot) && (cell(levels, level, slot) matches Some(entry) && entry.key
        == key)
}

/// The index of levels without duplicate keys.
spec fn cloned_index<K, V>(levels: Seq<Level<SlotEntry<K, V>>>) -> Map<K, (nat, nat)> {
    Map::new(
        |key: K| exists|l: int, s: int| holds_key(levels, l, s, key),
        |key: K|
            {
                let (l, s) = choose|l: int, s: int| holds_key(levels, l, s, key);
                (l as nat, s as nat)
            },
    )
}

impl<K: Eq + Clone, V: Clone, S: HashBuilder<K> + Clone> ElasticTable<K, V, S> {
    /// Clones of equal keys in the same slots make a table.
    proof fn lemma_clone(&self, copy: Self)
        requires
            self.inv(),
            table::clones_are_equal::<K>(),
            table::clones_hash_alike::<K, S>(self.hash_builder),
            cloned::<S>(self.hash_builder, copy.hash_builder),
            copy.capacities@ == self.capacities@,
            copy.total_slots == self.total_slots,
            copy.max_insertions == self.max_insertions,
            copy.reserve_fraction == self.reserve_fraction,
            levels_cloned(self.levels@, copy.levels@),
            copy.len == self.len,
            copy.scheduler.wf(),
            copy.scheduler.ends() == self.scheduler.ends(),
            copy.schedule.steps() == self.schedule.steps(),
            copy.schedule.high() == self.schedule.high(),
            copy.metadata@ == self.metadata@,
            copy.exceptional_placement == self.exceptional_placement,
            copy.index@ == cloned_index(copy.levels@),
        ensures
            copy.inv(),
            table::all_cloned(self.stored_entries(), copy.stored_entries()),
    {
        let from = self.levels@;
        let to = copy.levels@;
        assert forall|l: int, s: int| in_range(to, l, s) && (
        #[trigger] cell(to, l, s)) is Some implies in_range(from, l, s) && cell(from, l, s) is Some
            && cloned::<K>(cell(from, l, s)->0.key, cell(to, l, s)->0.key) && cloned::<V>(
            cell(from, l, s)->0.value,
            cell(to, l, s)->0.value,
        ) && hashing::same_key(cell(from, l, s)->0.key, cell(to, l, s)->0.key) by {
            assert(to[l].values().len() == from[l].values().len());
            assert(cloned::<SlotEntry<K, V>>(cell(from, l, s)->0, cell(to, l, s)->0));
        }
        assert forall|l: int, s: int, m: int, t: int|
            in_range(to, l, s) && in_range(to, m, t) && (#[trigger] cell(to, l, s)) is Some && (
            #[trigger] cell(to, m, t)) is Some && hashing::same_key(
                cell(to, l, s)->0.key,
                cell(to, m, t)->0.key,
            ) implies l == m && s == t by {
            let first = cell(from, l, s)->0.key;
            let second = cell(from, m, t)->0.key;
            assert(hashing::same_key(first, cell(to, l, s)->0.key));
            assert(hashing::same_key(first, cell(to, m, t)->0.key));
            assert(hashing::same_key(second, cell(to, m, t)->0.key));
            assert(hashing::same_key(cell(to, m, t)->0.key, second));
            assert(hashing::same_key(first, second));
        }
        assert forall|key: K| #[trigger] copy.index@.contains_key(key) implies holds_key(
            to,
            copy.index@[key].0 as int,
            copy.index@[key].1 as int,
            key,
        ) by {
            let (l, s) = choose|l: int, s: int| holds_key(to, l, s, key);
            assert(holds_key(to, l, s, key));
        }
        assert forall|l: int, s: int| in_range(to, l, s) && (
        #[trigger] cell(to, l, s)) is Some implies copy.index@.contains_key(
            cell(to, l, s)->0.key,
        ) && copy.index@[cell(to, l, s)->0.key] == (l as nat, s as nat) by {
            let key = cell(to, l, s)->0.key;
            assert(holds_key(to, l, s, key));
            assert(copy.index@.contains_key(key));
            let place = copy.index@[key];
            assert(holds_key(to, place.0 as int, place.1 as int, key));
            assert(hashing::same_key(key, key));
            assert(cell(to, place.0 as int, place.1 as int) is Some);
        }
        assert(indexes(copy.index@, to));
        assert(copy.index_inv()) by {
            assert forall|left: K, right: K|
                copy.index@.contains_key(left) && copy.index@.contains_key(right)
                    && #[trigger] hashing::same_key(left, right) implies left == right by {
                let a = copy.index@[left];
                let b = copy.index@[right];
                assert(cell(to, a.0 as int, a.1 as int) is Some);
                assert(cell(to, b.0 as int, b.1 as int) is Some);
            }
        }
        assert forall|l: int| 0 <= l < from.len() implies (#[trigger] to[l]).wf()
            && to[l].values().len() == from[l].values().len() by {
            assert(from[l].wf());
        }
        self.lemma_same_shape(copy);
        assert(copy.order_inv());
        assert forall|l: int, s: int| in_range(to, l, s) && (
        #[trigger] cell(to, l, s)) is Some implies copy.well_placed(
            l,
            s,
            cell(to, l, s)->0.key,
        ) by {
            let original = cell(from, l, s)->0.key;
            let hash = copy.hash_builder.hash_of(cell(to, l, s)->0.key);
            assert(self.well_placed(l, s, original));
            assert(hashing::same_key(original, cell(to, l, s)->0.key));
            assert(self.hash_builder.hash_of(original) == hash);
            assert(to[l].controls() == from[l].controls());
        }
        assert(copy.placement_inv());
        lemma_same_total(from, to);
        self.lemma_clone_counts(copy);
        assert(copy.counts_inv());
    }

    /// The clone has as many entries, one for one.
    proof fn lemma_clone_counts(&self, copy: Self)
        requires
            self.inv(),
            levels_cloned(self.levels@, copy.levels@),
            forall|l: int, s: int|
                in_range(copy.levels@, l, s) && (#[trigger] cell(copy.levels@, l, s)) is Some
                    ==> cloned::<K>(
                    cell(self.levels@, l, s)->0.key,
                    cell(copy.levels@, l, s)->0.key,
                ) && cloned::<V>(
                    cell(self.levels@, l, s)->0.value,
                    cell(copy.levels@, l, s)->0.value,
                ),
            indexes(copy.index@, copy.levels@),
        ensures
            copy.index@.dom().finite(),
            copy.index@.len() == self.index@.len(),
            table::all_cloned(self.stored_entries(), copy.stored_entries()),
    {
        let from = self.levels@;
        let to = copy.levels@;
        let renamed = |key: K|
            cell(to, self.index@[key].0 as int, self.index@[key].1 as int)->0.key;
        assert forall|l: int, s: int| in_range(from, l, s) <==> in_range(to, l, s) by {
            if 0 <= l < to.len() {
                assert(to[l].values().len() == from[l].values().len());
            }
        }
        assert forall|key: K| #[trigger] self.index@.contains_key(key) implies ({
            let l = self.index@[key].0 as int;
            let s = self.index@[key].1 as int;
            &&& in_range(to, l, s)
            &&& cell(from, l, s) is Some && cell(from, l, s)->0.key == key
            &&& cell(to, l, s) is Some
            &&& copy.index@.contains_key(renamed(key))
            &&& copy.index@[renamed(key)] == self.index@[key]
            &&& cloned::<K>(key, renamed(key))
        }) by {
            let l = self.index@[key].0 as int;
            let s = self.index@[key].1 as int;
            assert(in_range(from, l, s));
            assert(in_range(to, l, s));
            assert(cell(to, l, s) is Some);
        }
        assert forall|left: K, right: K|
            self.index@.dom().contains(left) && self.index@.dom().contains(right)
                && #[trigger] renamed(left) == #[trigger] renamed(right) implies left == right by {
            assert(self.index@.contains_key(left) && self.index@.contains_key(right));
        }
        assert forall|copied: K| #[trigger] copy.index@.contains_key(copied) implies ({
            let l = copy.index@[copied].0 as int;
            let s = copy.index@[copied].1 as int;
            let key = cell(from, l, s)->0.key;
            &&& self.index@.contains_key(key)
            &&& renamed(key) == copied
        }) by {
            let l = copy.index@[copied].0 as int;
            let s = copy.index@[copied].1 as int;
            assert(in_range(to, l, s) && cell(to, l, s) is Some);
            assert(in_range(from, l, s));
            assert(cell(from, l, s) is Some);
        }
        assert(copy.index@.dom() =~= self.index@.dom().map(renamed)) by {
            assert forall|copied: K| copy.index@.dom().contains(
                copied,
            ) implies self.index@.dom().map(renamed).contains(copied) by {
                assert(copy.index@.contains_key(copied));
                let place = copy.index@[copied];
                let key = cell(from, place.0 as int, place.1 as int)->0.key;
                assert(self.index@.dom().contains(key) && renamed(key) == copied);
            }
            assert forall|copied: K| self.index@.dom().map(renamed).contains(
                copied,
            ) implies copy.index@.dom().contains(copied) by {
                let key = choose|key: K| self.index@.dom().contains(key) && renamed(key) == copied;
                assert(self.index@.contains_key(key));
            }
        }
        vstd::set_lib::lemma_map_size(self.index@.dom(), copy.index@.dom(), renamed);
        let before = self.stored_entries();
        let after = copy.stored_entries();
        assert(before.dom() =~= self.index@.dom());
        assert(after.dom() =~= copy.index@.dom());
        assert forall|key: K| #[trigger] before.contains_key(key) implies exists|copied: K|
            after.contains_key(copied) && #[trigger] cloned::<K>(key, copied) && cloned::<V>(
                before[key],
                after[copied],
            ) by {
            assert(self.index@.contains_key(key));
            assert(cloned::<K>(key, renamed(key)));
            let place = self.index@[key];
            assert(cell(to, place.0 as int, place.1 as int) is Some);
        }
        assert forall|copied: K| #[trigger] after.contains_key(copied) implies exists|key: K|
            before.contains_key(key) && #[trigger] cloned::<K>(key, copied) && cloned::<V>(
                before[key],
                after[copied],
            ) by {
            assert(copy.index@.contains_key(copied));
            let place = copy.index@[copied];
            let key = cell(from, place.0 as int, place.1 as int)->0.key;
            assert(self.index@.contains_key(key));
            assert(cloned::<K>(key, copied));
            assert(cell(to, place.0 as int, place.1 as int) is Some);
        }
    }
}

/// Levels with the same counts hold as many entries.
proof fn lemma_same_total<T>(left: Seq<Level<T>>, right: Seq<Level<T>>)
    requires
        left.len() == right.len(),
        forall|l: int| 0 <= l < left.len() ==> (#[trigger] right[l]).live() == left[l].live(),
    ensures
        total_live(left) == total_live(right),
    decreases left.len(),
{
    if left.len() > 0 {
        assert(right[left.len() - 1].live() == left[left.len() - 1].live());
        assert forall|l: int| 0 <= l < left.drop_last().len() implies (
        #[trigger] right.drop_last()[l]).live() == left.drop_last()[l].live() by {
            assert(right[l].live() == left[l].live());
        }
        lemma_same_total(left.drop_last(), right.drop_last());
    }
}

impl<K: Eq, V, S: HashBuilder<K>> ElasticTable<K, V, S> {
    /// A table of an exact number of slots.
    pub fn try_with_slots_and_reserve_fraction_and_hasher(
        total_slots: usize,
        reserve_fraction: ReserveFraction,
        hash_builder: S,
    ) -> (result: Result<Self, TryReserveError>)
        requires
            reserve_fraction.wf(),
            hashing::lawful_keys::<K>(),
            hashing::lawful_hashing::<K, S>(hash_builder),
        ensures
            match result {
                Ok(table) => {
                    &&& table_refusal::<K, V>(total_slots as nat) is None
                    &&& table.wf()
                    &&& table.entries() == Map::<K, V>::empty()
                    &&& table.slot_count() == total_slots
                    &&& table.fraction() == reserve_fraction
                    &&& table.builder() == hash_builder
                    &&& table.lifecycle() == EpochModel::fresh()
                    &&& !table.exceptional()
                    &&& forall|loc: ElasticLocation| !#[trigger] table.buried_at(loc)
                    &&& table.stale() == 0
                    &&& table.filter_is_exact()
                },
                Err(error) => match table_refusal::<K, V>(total_slots as nat) {
                    Some(refusal) => error == refusal,
                    None => total_slots > 0 && error == TryReserveError::AllocError,
                },
            },
    {
        if total_slots > elastic_geometry::max_elastic_slots() {
            return Err(TryReserveError::CapacityOverflow);
        }
        let geometry: ElasticGeometry = ElasticGeometry::for_slots(total_slots, reserve_fraction);
        match ElasticParts::try_allocate(&geometry, Ghost(reserve_fraction)) {
            Ok(parts) => Ok(
                ElasticTable::from_parts(
                    geometry,
                    parts,
                    reserve_fraction,
                    hash_builder,
                    EpochState::initial(),
                ),
            ),
            Err(error) => Err(error),
        }
    }

    /// Number of levels.
    pub fn level_count(&self) -> (result: usize)
        requires
            self.wf(),
        ensures
            result == elastic_geometry::level_lengths(self.slot_count(), self.fraction()).len(),
    {
        self.levels.len()
    }

    /// Slots of a level.
    pub fn level_capacity(&self, level: usize) -> (result: usize)
        requires
            self.wf(),
            level < elastic_geometry::level_lengths(self.slot_count(), self.fraction()).len(),
        ensures
            result == elastic_geometry::level_lengths(
                self.slot_count(),
                self.fraction(),
            )[level as int],
    {
        self.capacities[level]
    }

    /// Live entries of a level.
    pub fn level_len(&self, level: usize) -> (result: usize)
        requires
            self.wf(),
            level < elastic_geometry::level_lengths(self.slot_count(), self.fraction()).len(),
        ensures
            result == self.view_levels()[level as int].live(),
            result <= elastic_geometry::level_lengths(
                self.slot_count(),
                self.fraction(),
            )[level as int],
    {
        proof {
            assert(self.levels@[level as int].wf());
            slots::lemma_counts_bounds(self.levels@[level as int].storage.controls(), 0);
        }
        self.levels[level].len
    }

    /// The control byte of a slot: the fingerprint of the key there, or a free
    /// one.
    pub fn control_at(&self, loc: ElasticLocation) -> (result: u8)
        requires
            self.wf(),
            loc.level < elastic_geometry::level_lengths(self.slot_count(), self.fraction()).len(),
            loc.slot < elastic_geometry::level_lengths(
                self.slot_count(),
                self.fraction(),
            )[loc.level as int],
        ensures
            match self.key_at(loc) {
                Some(key) => result == control::fingerprint(self.builder().hash_of(key)),
                None => !control::occupied(result),
            },
    {
        proof {
            assert(self.levels@[loc.level as int].wf());
            if self.key_at(loc) is Some {
                assert(self.well_placed(
                    loc.level as int,
                    loc.slot as int,
                    cell(self.levels@, loc.level as int, loc.slot as int)->0.key,
                ));
            }
        }
        self.levels[loc.level].storage.control_at(loc.slot)
    }

    /// The filter words.
    pub closed spec fn filter_words(&self) -> Seq<ElasticMetadataWord> {
        self.metadata@
    }

    /// What the filter knows of a hash: it passes every stored key.
    pub fn route_filter(&self, prepared: PreparedElasticKey) -> (result: ElasticRouteFilter)
        requires
            self.wf(),
            prepared.wf(),
        ensures
            result.maybe_present == elastic_filter::may_hold(self.filter_words(), prepared.sign()),
            result.level_mask == elastic_filter::levels_of(self.filter_words(), prepared.sign()),
            forall|key: K| #[trigger]
                self.entries().contains_key(key) && prepared.is_for(self.builder().hash_of(key))
                    ==> result.maybe_present,
    {
        proof {
            assert forall|key: K| #[trigger]
                self.entries().contains_key(key) && prepared.is_for(
                    self.builder().hash_of(key),
                ) implies elastic_filter::may_hold(self.metadata@, prepared.sign()) by {
                let place = self.index@[key];
                assert(cell(self.levels@, place.0 as int, place.1 as int) is Some);
                assert(self.well_placed(place.0 as int, place.1 as int, key));
            }
        }
        self.metadata.route_filter(prepared)
    }

    /// Whether some entry stands off its probe order.
    pub fn has_exceptional_placement(&self) -> (result: bool)
        ensures
            result == self.exceptional(),
    {
        self.exceptional_placement
    }

    /// Deletes since the filter last matched the live entries.
    pub fn stale_membership(&self) -> (result: usize)
        ensures
            result == self.stale(),
    {
        self.stale_membership
    }

    /// Deletes since the filter last matched the live entries.
    pub closed spec fn stale(&self) -> nat {
        self.stale_membership as nat
    }

    /// The levels that the next new key is for.
    pub fn next_batch_target(&self) -> (result: BatchTarget)
        requires
            self.wf(),
        ensures
            result == self.upcoming_target(),
    {
        proof {
            self.lemma_len();
        }
        let mut scheduler: BatchScheduler = self.scheduler.copy();
        let target: BatchTarget = scheduler.target(self.len);
        proof {
            batch::law_target_is_unique(
                self.scheduler.ends(),
                self.len as nat,
                target,
                self.upcoming_target(),
            );
        }
        target
    }
}

/// The slots of a level that hold tombstones.
pub open spec fn tombstones_of<K: Eq, V, S: HashBuilder<K>>(
    table: ElasticTable<K, V, S>,
    level: int,
) -> Set<int> {
    Set::new(
        |slot: int|
            0 <= slot < table.lengths()[level] && table.buried_at(
                ElasticLocation { level: level as usize, slot: slot as usize },
            ),
    )
}

/// The slots of a level that hold entries.
pub open spec fn filled_slots_of<K: Eq, V, S: HashBuilder<K>>(
    table: ElasticTable<K, V, S>,
    level: int,
) -> Set<int> {
    Set::new(
        |slot: int|
            0 <= slot < table.lengths()[level] && table.key_at(
                ElasticLocation { level: level as usize, slot: slot as usize },
            ) is Some,
    )
}

impl<K: Eq, V, S: HashBuilder<K>> ElasticTable<K, V, S> {
    /// The slots of each level.
    pub open spec fn lengths(&self) -> Seq<nat> {
        elastic_geometry::level_lengths(self.slot_count(), self.fraction())
    }

    /// The free slots of a level, tombstones among them.
    pub open spec fn free_on(&self, level: int) -> int {
        self.lengths()[level] - filled_slots_of(*self, level).len()
    }

    /// The counters of a level are those of its tombstones and entries.
    proof fn lemma_level_counters(&self, level: int)
        requires
            self.inv(),
            0 <= level < self.levels@.len(),
        ensures
            self.lengths().len() == self.levels@.len(),
            self.lengths()[level] == self.levels@[level].values().len(),
            self.levels@[level].controls().len() == self.levels@[level].values().len(),
            tombstones_of(*self, level).finite(),
            tombstones_of(*self, level).len() == self.levels@[level].buried(),
            filled_slots_of(*self, level).finite(),
            filled_slots_of(*self, level).len() == self.levels@[level].live(),
            self.free_on(level) == free_in(self.levels@[level]),
    {
        let controls = self.levels@[level].controls();
        assert(self.levels@[level].wf());
        assert(self.capacities@[level] as nat == self.lengths()[level]);
        slots::law_counts_count_the_slots(controls);
        slots::lemma_counts_bounds(controls, 0);
        assert(tombstones_of(*self, level) =~= Set::new(
            |slot: int| 0 <= slot < controls.len() && controls[slot] == CTRL_TOMBSTONE,
        ));
        assert forall|slot: int| filled_slots_of(*self, level).contains(slot) == (0 <= slot
            < controls.len() && control::occupied(controls[slot])) by {
            if 0 <= slot < controls.len() {
                assert(control::occupied(controls[slot]) <==> cell(
                    self.levels@,
                    level,
                    slot,
                ) is Some);
            }
        }
        assert(filled_slots_of(*self, level) =~= Set::new(
            |slot: int| 0 <= slot < controls.len() && control::occupied(controls[slot]),
        ));
    }
}

/// An Elastic cleanup is due only when more than half of the slots of some level hold
/// tombstones, and at the latest when more than three quarters of one do. A removal, which
/// leaves one more, calls for a cleanup by the tombstones of its own level; from 256 slots
/// on, when they are 64 more than half.
pub proof fn law_elastic_cleanup_waits_for_half<K: Eq, V, S: HashBuilder<K>>(
    table: ElasticTable<K, V, S>,
    loc: ElasticLocation,
)
    requires
        table.wf(),
        loc.level < table.lengths().len(),
    ensures
        table.cleanup_due() ==> exists|level: int|
            0 <= level < table.lengths().len() && 2 * (#[trigger] tombstones_of(table, level)).len()
                > table.lengths()[level],
        (exists|level: int|
            0 <= level < table.lengths().len() && 4 * (#[trigger] tombstones_of(table, level)).len()
                > 3 * table.lengths()[level]) ==> table.cleanup_due(),
        ({
            let n = table.lengths()[loc.level as int];
            let dead = tombstones_of(table, loc.level as int).len();
            &&& table.cleanup_after(loc) ==> 2 * (dead + 1) > n
            &&& 4 * (dead + 1) > 3 * n ==> table.cleanup_after(loc)
            &&& 256 <= n && 3 * n <= usize::MAX ==> (table.cleanup_after(loc) <==> dead + 1 > n / 2
                + 64)
        }),
{
    assert forall|level: int| 0 <= level < table.lengths().len() implies ({
        &&& table.levels@[level].overdue() ==> 2 * (#[trigger] tombstones_of(table, level)).len()
            > table.lengths()[level]
        &&& 4 * tombstones_of(table, level).len() > 3 * table.lengths()[level]
            ==> table.levels@[level].overdue()
    }) by {
        table.lemma_level_counters(level);
        capacity::law_cleanup_waits_for_half(
            table.lengths()[level],
            table.levels@[level].buried(),
        );
    }
    if table.cleanup_due() {
        let level = choose|l: int| 0 <= l < table.levels@.len() && (#[trigger] table.levels@[l]).overdue();
        assert(2 * tombstones_of(table, level).len() > table.lengths()[level]);
    }
    if exists|level: int|
        0 <= level < table.lengths().len() && 4 * (#[trigger] tombstones_of(table, level)).len() > 3
            * table.lengths()[level] {
        let level = choose|level: int|
            0 <= level < table.lengths().len() && 4 * (#[trigger] tombstones_of(table, level)).len()
                > 3 * table.lengths()[level];
        assert(table.levels@[level].overdue());
    }
    table.lemma_level_counters(loc.level as int);
    capacity::law_cleanup_waits_for_half(
        table.lengths()[loc.level as int],
        table.levels@[loc.level as int].buried() + 1,
    );
}

/// A removal from an Elastic table starts an epoch only if more than half of the slots of
/// its level hold tombstones then, and at the latest when more than three quarters do.
/// Else the removed key leaves a tombstone, and the epoch only records the deletion.
pub proof fn law_elastic_removal_keeps_the_epoch<K: Eq, V, S: HashBuilder<K>>(
    before: ElasticTable<K, V, S>,
    after: ElasticTable<K, V, S>,
    loc: ElasticLocation,
)
    requires
        before.wf(),
        before.key_at(loc) is Some,
        after.removed_from(&before, loc),
    ensures
        loc.level < before.lengths().len(),
        ({
            let n = before.lengths()[loc.level as int];
            let dead = tombstones_of(before, loc.level as int).len() + 1;
            &&& 2 * dead <= n ==> {
                &&& after.lifecycle().generation == before.lifecycle().generation
                &&& after.lifecycle().transition == before.lifecycle().transition
                &&& after.lifecycle().recoveries == before.lifecycle().recoveries
                &&& after.lifecycle().had_delete
                &&& before.lifecycle().deletions < usize::MAX ==> after.lifecycle().deletions
                    == before.lifecycle().deletions + 1
                &&& forall|other: ElasticLocation| #[trigger]
                    after.buried_at(other) == (other == loc || before.buried_at(other))
            }
            &&& 4 * dead > 3 * n ==> {
                &&& after.lifecycle().transition == EpochTransition::TombstoneCleanup
                &&& forall|other: ElasticLocation| !#[trigger] after.buried_at(other)
            }
        }),
{
    before.lemma_level_counters(loc.level as int);
    law_elastic_cleanup_waits_for_half(before, loc);
    if before.cleanup_after(loc) {
        let left = choose|left: ElasticTable<K, V, S>| #[trigger]
            left.lost(&before, loc) && after.rebuilt_from(
                &left,
                before.slot_count(),
                EpochTransition::TombstoneCleanup,
            );
        placement::lemma_refilled_without_tombstones::<K, V, ElasticTable<K, V, S>>(
            left,
            after,
            before.slot_count(),
        );
    } else {
        before.lemma_one_place(loc);
        assert(after.key_at(loc) is None);
        assert forall|other: ElasticLocation| #[trigger]
            after.buried_at(other) == (other == loc || before.buried_at(other)) by {
            if before.key_at(other) is Some && after.key_at(other) is None {
                before.lemma_one_place(other);
            }
        }
    }
}

impl<K: Eq, V, S: HashBuilder<K>> ElasticTable<K, V, S> {
    /// The key of a live slot stands nowhere else.
    proof fn lemma_one_place(&self, loc: ElasticLocation)
        requires
            self.inv(),
            self.key_at(loc) is Some,
        ensures
            self.entries().contains_key(self.key_at(loc)->0),
            forall|other: ElasticLocation| #[trigger]
                self.key_at(other) == self.key_at(loc) ==> other == loc,
    {
        assert(cell(self.levels@, loc.level as int, loc.slot as int) is Some);
        assert forall|other: ElasticLocation| #[trigger]
            self.key_at(other) == self.key_at(loc) implies other == loc by {
            assert(cell(self.levels@, other.level as int, other.slot as int) is Some);
        }
    }
}

/// The slot of a level that the words of a logical probe choose for a hash, if one of the
/// first eight does.
pub open spec fn choice(hash: u64, level: nat, logical: nat, upper: nat) -> Option<nat> {
    match reduction::reduced(
        probe::oracle_words(
            CounterPrf { seed: elastic_filter::ELASTIC_PROBE_SEED },
            hash,
            ProbeDomain::ElasticOrdinary { level: level as u64 },
            logical as u64,
        ),
        upper,
        8,
    ) {
        Ok(found) => Some(found.index as nat),
        Err(_) => None,
    }
}

/// A logical probe leads to the slot that its words choose.
proof fn lemma_choice(hash: u64, level: nat, logical: nat, upper: nat)
    ensures
        slot_of(hash, level, logical, upper) == choice(hash, level, logical, upper),
{
    probe::law_prepared_elastic_reduction_matches_the_mixer(
        CounterPrf { seed: elastic_filter::ELASTIC_PROBE_SEED },
        hash,
        level as u64,
        logical as u64,
        upper,
        RANGE_WORD_CAP,
    );
}

/// A probe whose level and number are small is one that lookups visit.
pub proof fn law_near_probes_are_visited(level: nat, logical: nat)
    requires
        16 * ((level + 1) * ((logical + 1) * (logical + 1))) <= 1_000_000,
    ensures
        elastic_schedule::position(level, logical) <= QUERY_POSITION_CAP,
{
    phi::law_phi_bound(level + 1, logical + 1);
}

impl<K: Eq, V, S: HashBuilder<K>> ElasticTable<K, V, S> {
    /// Whether a logical probe of a level finds no vacancy: no word of it is accepted, or
    /// the slot holds an entry.
    pub open spec fn is_taken(&self, hash: u64, level: nat, logical: nat) -> bool {
        match choice(hash, level, logical, self.lengths()[level as int]) {
            Some(slot) => self.key_at(
                ElasticLocation { level: level as usize, slot: slot as usize },
            ) is Some,
            None => true,
        }
    }

    /// Whether the probes of a level below a number find no vacancy.
    pub open spec fn all_taken(&self, hash: u64, level: nat, below: nat) -> bool {
        forall|logical: nat| logical < below ==> #[trigger] self.is_taken(hash, level, logical)
    }

    /// Whether the searched probes of a level that lookups visit find no vacancy.
    pub open spec fn visited_taken(&self, hash: u64, level: nat) -> bool {
        forall|logical: nat|
            logical < UNIFORM_SEARCH_CAP && elastic_schedule::position(level, logical)
                <= QUERY_POSITION_CAP ==> #[trigger] self.is_taken(hash, level, logical)
    }

    /// Whether a slot of a level is the first vacancy of a hash there, at a logical probe
    /// that lookups visit.
    pub open spec fn is_first_vacancy(
        &self,
        hash: u64,
        level: nat,
        slot: nat,
        logical: nat,
    ) -> bool {
        &&& level < self.lengths().len()
        &&& slot < self.lengths()[level as int]
        &&& choice(hash, level, logical, self.lengths()[level as int]) == Some(slot)
        &&& self.key_at(ElasticLocation { level: level as usize, slot: slot as usize }) is None
        &&& self.all_taken(hash, level, logical)
    }

    /// What a search of a level for a vacancy finds.
    proof fn lemma_vacancy_found(&self, hash: u64, level: nat, from: nat, limit: nat)
        requires
            self.inv(),
            level < self.levels@.len(),
            self.all_taken(hash, level, from),
        ensures
            match vacancy_from(self.levels@[level as int].controls(), hash, level, from, limit) {
                Some((slot, logical)) => from <= logical < limit && self.is_first_vacancy(
                    hash,
                    level,
                    slot,
                    logical,
                ),
                None => from <= limit ==> self.all_taken(hash, level, limit),
            },
        decreases limit - from,
    {
        self.lemma_level_counters(level as int);
        let held = self.levels@[level as int];
        let length = self.lengths()[level as int];
        assert(held.wf());
        if from < limit {
            lemma_choice(hash, level, from, length);
            law_probes_stay_in_their_level(hash, level, from, length);
            match slot_of(hash, level, from, length) {
                Some(slot) => {
                    assert(control::occupied(held.controls()[slot as int]) <==> cell(
                        self.levels@,
                        level as int,
                        slot as int,
                    ) is Some);
                    if control::occupied(held.controls()[slot as int]) {
                        assert(self.is_taken(hash, level, from));
                    }
                },
                None => {
                    assert(self.is_taken(hash, level, from));
                },
            }
            if self.is_taken(hash, level, from) {
                assert forall|logical: nat| logical < from + 1 implies #[trigger] self.is_taken(
                    hash,
                    level,
                    logical,
                ) by {
                    if logical < from {
                        assert(self.is_taken(hash, level, logical));
                    }
                }
                self.lemma_vacancy_found(hash, level, from + 1, limit);
            }
        }
    }

    /// What the search of a level among all searched probes finds, as far as lookups visit
    /// it.
    proof fn lemma_uniform_found(&self, hash: u64, level: nat)
        requires
            self.inv(),
            level < self.levels@.len(),
        ensures
            match uniform_place(self.levels@, hash, level) {
                Some((at, slot, logical)) => {
                    &&& at == level
                    &&& logical < UNIFORM_SEARCH_CAP
                    &&& self.is_first_vacancy(hash, level, slot, logical)
                    &&& elastic_schedule::position(level, logical) > QUERY_POSITION_CAP
                        ==> self.visited_taken(hash, level)
                },
                None => self.visited_taken(hash, level),
            },
    {
        self.lemma_vacancy_found(hash, level, 0, UNIFORM_SEARCH_CAP as nat);
        if let Some((_, slot, logical)) = uniform_place(self.levels@, hash, level) {
            if elastic_schedule::position(level, logical) > QUERY_POSITION_CAP {
                assert forall|other: nat|
                    other < UNIFORM_SEARCH_CAP && elastic_schedule::position(level, other)
                        <= QUERY_POSITION_CAP implies #[trigger] self.is_taken(
                    hash,
                    level,
                    other,
                ) by {
                    if other > logical {
                        phi::law_phi_increases_with_probe(level + 1, logical + 1, other + 1);
                    }
                }
            }
        }
    }
}

/// Whether a level is so full that it is left alone: at most half of the reserve share of
/// its slots is free.
pub open spec fn is_nearly_full<K: Eq, V, S: HashBuilder<K>>(
    table: ElasticTable<K, V, S>,
    level: int,
) -> bool {
    table.free_on(level) * vstd::arithmetic::power2::pow2(table.fraction().d() as nat + 1)
        <= table.lengths()[level]
}

/// A new key whose batch fills the first level goes to its first vacancy there, if lookups
/// visit that probe; else the construction has no place for it.
pub proof fn law_bootstrap_keys_go_to_the_first_level<K: Eq, V, S: HashBuilder<K>>(
    table: ElasticTable<K, V, S>,
    hash: u64,
)
    requires
        table.wf(),
        table.slot_count() > 0,
        table.upcoming_target() == BatchTarget::Bootstrap,
    ensures
        match table.paper_place(hash) {
            Some((level, slot, logical)) => {
                &&& level == 0
                &&& table.is_first_vacancy(hash, 0, slot, logical)
                &&& elastic_schedule::position(0, logical) <= QUERY_POSITION_CAP
            },
            None => table.visited_taken(hash, 0),
        },
{
    table.lemma_uniform_found(hash, 0);
}

/// Where a new key of a later batch goes, for a pair of levels of any size.
///
/// If the current level is nearly full, the key never goes there: it takes its first
/// vacancy on the next. Else, if at most a quarter of the next level is free, the key never
/// goes to the next: it takes its first vacancy on the current. Else the current level gets
/// `8 min(k^2, d)` probes, where `k` is the least with `slots <= free 2^k`, and if they find
/// no vacancy, the key takes its first vacancy on the next level. The construction has no
/// place for the key only if these probes find no vacancy that lookups visit.
pub proof fn law_later_keys_choose_between_two_levels<K: Eq, V, S: HashBuilder<K>>(
    table: ElasticTable<K, V, S>,
    hash: u64,
    current: usize,
    exponent: nat,
)
    requires
        table.wf(),
        table.upcoming_target() == BatchTarget::LevelPair(current),
        current + 1 < table.lengths().len(),
        !is_nearly_full(table, current as int) ==> {
            &&& table.lengths()[current as int] <= table.free_on(current as int)
                * vstd::arithmetic::power2::pow2(exponent)
            &&& exponent > 0 ==> table.lengths()[current as int] > table.free_on(current as int)
                * vstd::arithmetic::power2::pow2((exponent - 1) as nat)
        },
        4 * table.lengths()[current + 1] <= usize::MAX,
    ensures
        ({
            let now = current as nat;
            let next = current as nat + 1;
            let d = table.fraction().d() as nat;
            let budget = 8 * (if exponent * exponent < d {
                exponent * exponent
            } else {
                d
            });
            match table.paper_place(hash) {
                Some((level, slot, logical)) => {
                    &&& table.is_first_vacancy(hash, level, slot, logical)
                    &&& elastic_schedule::position(level, logical) <= QUERY_POSITION_CAP
                    &&& level == now || level == next
                    &&& is_nearly_full(table, now as int) ==> level == next
                    &&& !is_nearly_full(table, now as int) && 4 * table.free_on(next as int)
                        <= table.lengths()[next as int] ==> level == now
                    &&& !is_nearly_full(table, now as int) && 4 * table.free_on(next as int)
                        > table.lengths()[next as int] ==> if level == now {
                        logical < budget
                    } else {
                        table.all_taken(hash, now, budget)
                    }
                },
                None => {
                    &&& is_nearly_full(table, now as int) ==> table.visited_taken(hash, next)
                    &&& !is_nearly_full(table, now as int) && 4 * table.free_on(next as int)
                        <= table.lengths()[next as int] ==> table.visited_taken(hash, now)
                    &&& !is_nearly_full(table, now as int) && 4 * table.free_on(next as int)
                        > table.lengths()[next as int] && table.all_taken(hash, now, budget)
                        ==> table.visited_taken(hash, next)
                    &&& !is_nearly_full(table, now as int) && 4 * table.free_on(next as int)
                        > table.lengths()[next as int] ==> forall|logical: nat|
                        logical < budget && elastic_schedule::position(now, logical)
                            <= QUERY_POSITION_CAP ==> #[trigger] table.is_taken(hash, now, logical)
                },
            }
        }),
{
    let now = current as nat;
    let next = current as nat + 1;
    let d = table.fraction().d() as nat;
    let levels = table.levels@;
    table.lemma_level_counters(now as int);
    table.lemma_level_counters(next as int);
    table.lemma_uniform_found(hash, now);
    table.lemma_uniform_found(hash, next);
    assert(levels[now as int].wf() && levels[next as int].wf());
    slots::lemma_counts_bounds(levels[now as int].controls(), 0);
    slots::lemma_counts_bounds(levels[next as int].controls(), 0);
    let free = free_in(levels[now as int]);
    let length = levels[now as int].values().len();
    let wide = vstd::arithmetic::power2::pow2(d + 1) as int;
    vstd::arithmetic::power2::lemma_pow2_pos(d + 1);
    vstd::arithmetic::div_mod::lemma_fundamental_div_mod(length as int, wide);
    vstd::arithmetic::div_mod::lemma_mod_bound(length as int, wide);
    let share = length as int / wide;
    assert(free <= share <==> free * wide <= length) by (nonlinear_arith)
        requires
            length == wide * share + length as int % wide,
            0 <= length as int % wide < wide,
    ;
    assert(is_nearly_full(table, now as int) <==> free <= length / vstd::arithmetic::power2::pow2(
        d + 1,
    ));
    if !is_nearly_full(table, now as int) {
        assert(free > 0) by {
            if free == 0 {
                assert(0 * wide == 0) by (nonlinear_arith);
            }
        }
        phi::law_fill_exponent_is_unique(free, length, exponent);
        let budget = phi::dyadic_budget(free, length, d, ELASTIC_PROBE_BUDGET_C as nat);
        table.lemma_vacancy_found(hash, now, 0, budget);
        if let Some((slot, logical)) = vacancy_from(
            levels[now as int].controls(),
            hash,
            now,
            0,
            budget,
        ) {
            assert forall|other: nat|
                other < budget && elastic_schedule::position(now, other) <= QUERY_POSITION_CAP
                    && elastic_schedule::position(now, logical)
                    > QUERY_POSITION_CAP implies #[trigger] table.is_taken(hash, now, other) by {
                if other > logical {
                    phi::law_phi_increases_with_probe(now + 1, logical + 1, other + 1);
                }
            }
            assert(!table.is_taken(hash, now, logical));
        }
    }
}

/// The batch of the next new key is decided by the live entries: the first batch lasts
/// until three quarters of the first level are filled, and batch `i` until the levels
/// before `i` are filled up to half of their reserve share and three quarters of level `i`
/// are. A key of batch `i` is for the levels `i - 1` and `i`; the last batch takes the rest.
pub proof fn law_batches_last_until_their_levels_are_filled<K: Eq, V, S: HashBuilder<K>>(
    table: ElasticTable<K, V, S>,
)
    requires
        table.wf(),
        table.slot_count() >= 2,
        table.entries().len() < table.limit(),
    ensures
        ({
            let live = table.entries().len();
            let lengths = table.lengths();
            let d = table.fraction().d() as nat;
            match table.upcoming_target() {
                BatchTarget::Bootstrap => lengths.len() == 1 || live
                    < elastic_geometry::filled_by_batch(lengths, d, 0),
                BatchTarget::LevelPair(current) => {
                    &&& current + 1 < lengths.len()
                    &&& live >= elastic_geometry::filled_by_batch(lengths, d, current as nat)
                    &&& current + 2 == lengths.len() || live < elastic_geometry::filled_by_batch(
                        lengths,
                        d,
                        current as nat + 1,
                    )
                },
            }
        }),
{
    let slots = table.slot_count();
    let reserve = table.fraction();
    let ends = elastic_geometry::batch_ends(slots, reserve);
    table.lemma_len();
    elastic_geometry::law_levels_tile_the_slots(slots, reserve);
    batch::lemma_target_exists(ends, table.entries().len());
    let target = table.upcoming_target();
    assert(batch::is_target(ends, table.entries().len(), target));
    assert(ends.len() == table.lengths().len());
    match target {
        BatchTarget::Bootstrap => {
            elastic_geometry::law_batch_ends_are_the_filled_slots(slots, reserve, 0);
        },
        BatchTarget::LevelPair(current) => {
            elastic_geometry::law_batch_ends_are_the_filled_slots(slots, reserve, current as nat);
            elastic_geometry::law_batch_ends_are_the_filled_slots(
                slots,
                reserve,
                current as nat + 1,
            );
            assert(ends[current as int] <= table.entries().len());
        },
    }
}

/// The construction places a key where it places the key's hash, in a slot of the table.
pub proof fn law_elastic_keys_are_placed_by_their_hash<K: Eq, V, S: HashBuilder<K>>(
    table: ElasticTable<K, V, S>,
    key: K,
)
    requires
        table.wf(),
    ensures
        match table.paper_place(table.builder().hash_of(key)) {
            Some((level, slot, _)) => table.place_of_new(key) matches Some(loc) && loc.level
                == level && loc.slot == slot && level < table.lengths().len() && slot
                < table.lengths()[level as int],
            None => table.place_of_new(key) is None,
        },
{
    table.lemma_place(table.hash_builder.hash_of(key), table.upcoming_target());
    if let Some((level, slot, _)) = table.paper_place(table.builder().hash_of(key)) {
        table.lemma_level_counters(level as int);
        assert(table.levels@[level as int].wf());
    }
}

/// Whether a location comes before another: on an earlier level, or earlier on the same.
pub open spec fn comes_before(left: ElasticLocation, right: ElasticLocation) -> bool {
    left.level < right.level || left.level == right.level && left.slot < right.slot
}

/// The entries of levels are listed in the order of their places.
proof fn lemma_live_ordered<K, V>(
    levels: Seq<Level<SlotEntry<K, V>>>,
    index: Map<K, (nat, nat)>,
    from: nat,
)
    requires
        from <= levels.len(),
        indexes(index, levels),
    ensures
        ({
            let live = live_all(levels, from);
            forall|i: int, j: int|
                0 <= i < j < live.len() ==> {
                    let left = index[(#[trigger] live[i]).key];
                    let right = index[(#[trigger] live[j]).key];
                    left.0 < right.0 || left.0 == right.0 && left.1 < right.1
                }
        }),
    decreases levels.len() - from,
{
    let live = live_all(levels, from);
    if from < levels.len() {
        lemma_live_ordered(levels, index, from + 1);
        lemma_live_from(levels, index, from + 1);
        let region = levels[from as int].storage;
        let here = region.live_from(0);
        let rest = live_all(levels, from + 1);
        let places = listing::live_slots(region.values(), 0);
        listing::lemma_live_slots(region, 0);
        assert(live =~= here + rest);
        assert forall|i: int| 0 <= i < here.len() implies index[(#[trigger] here[i]).key] == (
            from,
            places[i],
        ) by {
            assert(cell(levels, from as int, places[i] as int) == Some(here[i]));
        }
        assert forall|i: int, j: int| 0 <= i < j < live.len() implies ({
            let left = index[(#[trigger] live[i]).key];
            let right = index[(#[trigger] live[j]).key];
            left.0 < right.0 || left.0 == right.0 && left.1 < right.1
        }) by {
            if j < here.len() {
                assert(live[i] == here[i] && live[j] == here[j]);
                assert(places[i] < places[j]);
            } else {
                assert(live[j] == rest[j - here.len()]);
                if i < here.len() {
                    assert(live[i] == here[i]);
                } else {
                    assert(live[i] == rest[i - here.len()]);
                }
            }
        }
    }
}

/// An Elastic table lists each of its entries once, level by level in the order of their
/// slots.
pub proof fn law_elastic_entries_are_listed_in_slot_order<K: Eq, V, S: HashBuilder<K>>(
    table: ElasticTable<K, V, S>,
    left: ElasticLocation,
    right: ElasticLocation,
    i: int,
    j: int,
)
    requires
        table.wf(),
        0 <= i < table.listed().len(),
        0 <= j < table.listed().len(),
        table.key_at(left) == Some(table.listed()[i].key),
        table.key_at(right) == Some(table.listed()[j].key),
    ensures
        i < j <==> comes_before(left, right),
        table.listed().len() == table.entries().len(),
        table.entries().contains_key(table.listed()[i].key),
        table.entries()[table.listed()[i].key] == table.listed()[i].value,
{
    let live = live_all(table.levels@, 0);
    table.lemma_live_entries();
    listing::lemma_lists_len(live, table.stored_entries());
    lemma_live_ordered(table.levels@, table.index@, 0);
    assert(cell(table.levels@, left.level as int, left.slot as int) is Some);
    assert(cell(table.levels@, right.level as int, right.slot as int) is Some);
    assert(table.index@[live[i].key] == (left.level as nat, left.slot as nat));
    assert(table.index@[live[j].key] == (right.level as nat, right.slot as nat));
}

/// The first free slot of an Elastic table is the one without an entry that comes before
/// all others without.
pub proof fn law_first_free_elastic_slot<K: Eq, V, S: HashBuilder<K>>(
    table: ElasticTable<K, V, S>,
    loc: ElasticLocation,
)
    requires
        table.wf(),
    ensures
        table.is_first_free(loc) <==> {
            &&& loc.level < table.lengths().len()
            &&& loc.slot < table.lengths()[loc.level as int]
            &&& table.key_at(loc) is None
            &&& forall|other: ElasticLocation|
                comes_before(other, loc) && other.slot < table.lengths()[other.level as int] ==> (
                #[trigger] table.key_at(other)) is Some
        },
{
    let levels = table.levels@;
    assert forall|l: int| 0 <= l < levels.len() implies (#[trigger] levels[l]).values().len()
        == table.lengths()[l] by {
        table.lemma_level_counters(l);
    }
    assert(table.lengths().len() == levels.len());
    if table.is_first_free(loc) {
        assert(levels[loc.level as int].values().len() == table.lengths()[loc.level as int]);
        assert forall|other: ElasticLocation|
            comes_before(other, loc) && other.slot < table.lengths()[other.level as int] implies (
        #[trigger] table.key_at(other)) is Some by {
            assert(levels[other.level as int].values().len()
                == table.lengths()[other.level as int]);
            assert(cell(levels, other.level as int, other.slot as int) is Some);
        }
    }
    if loc.level < table.lengths().len() && loc.slot < table.lengths()[loc.level as int]
        && table.key_at(loc) is None && (forall|other: ElasticLocation|
        comes_before(other, loc) && other.slot < table.lengths()[other.level as int] ==> (
        #[trigger] table.key_at(other)) is Some) {
        assert(levels[loc.level as int].values().len() == table.lengths()[loc.level as int]);
        assert forall|level: int, slot: int|
            in_range(levels, level, slot) && (level < loc.level || level == loc.level && slot
                < loc.slot) implies (#[trigger] cell(levels, level, slot)) is Some by {
            assert(levels[level].values().len() == table.lengths()[level]);
            assert(levels[level].wf());
            let other = ElasticLocation { level: level as usize, slot: slot as usize };
            assert(table.key_at(other) is Some);
        }
    }
}

/// Unless some entry was placed off its probe order, every key of an Elastic table stands
/// where some probe of its level leads its hash that lookups visit.
pub proof fn law_elastic_keys_stand_on_their_probe_order<K: Eq, V, S: HashBuilder<K>>(
    table: ElasticTable<K, V, S>,
    loc: ElasticLocation,
)
    requires
        table.wf(),
        !table.exceptional(),
        table.key_at(loc) is Some,
    ensures
        exists|logical: nat| #[trigger] leads_to(table, loc, logical),
{
    let key = table.key_at(loc)->0;
    let hash = table.hash_builder.hash_of(key);
    table.lemma_level_counters(loc.level as int);
    assert(cell(table.levels@, loc.level as int, loc.slot as int) is Some);
    assert(table.well_placed(loc.level as int, loc.slot as int, key));
    let logical = choose|logical: nat| #[trigger]
        reached_by(
            table.schedule.steps(),
            table.capacities@,
            hash,
            loc.level as nat,
            loc.slot as nat,
            logical,
        );
    assert(reached_by(
        table.schedule.steps(),
        table.capacities@,
        hash,
        loc.level as nat,
        loc.slot as nat,
        logical,
    ));
    assert(table.capacities@[loc.level as int] as nat == table.lengths()[loc.level as int]);
    lemma_choice(hash, loc.level as nat, logical, table.lengths()[loc.level as int]);
    assert(leads_to(table, loc, logical));
}

/// Whether a searched logical probe of its level leads the key at a location there.
pub open spec fn leads_to<K: Eq, V, S: HashBuilder<K>>(
    table: ElasticTable<K, V, S>,
    loc: ElasticLocation,
    logical: nat,
) -> bool {
    &&& logical < UNIFORM_SEARCH_CAP
    &&& choice(
        table.builder().hash_of(table.key_at(loc)->0),
        loc.level as nat,
        logical,
        table.lengths()[loc.level as int],
    ) == Some(loc.slot as nat)
}

} // verus!
