//! Funnel placement with explicit dynamic-map epochs.

use vstd::prelude::*;

use crate::config::GROUP_SIZE;
use crate::control::{self, ControlByte, CTRL_EMPTY, CTRL_TOMBSTONE};
use crate::capacity;
use crate::epoch::{EpochModel, EpochSnapshot, EpochState, EpochTransition};
use crate::error::{self, TryBuildError, TryReserveError};
use crate::funnel_scan::{self, scan_clean_funnel_bucket, scan_funnel_bucket, BucketScanResult};
use crate::funnel_search::{self, sample, SearchResult, FUNNEL_PROBE_SEED};
use crate::funnel_shape::{self, FunnelShape, LevelShape};
use crate::hashing::{self, DefaultHashBuilder, Equivalent, HashBuilder};
use crate::layout::{self, layout_for_extents, BlockLayout};
use crate::listing;
use crate::placement;
use crate::probe::{self, FunnelPrf, PreparedFastFunnelProbe, ProbeDomain};
use crate::reserve::ReserveFraction;
use crate::slots::{self, SlotEntry, Slots};
use crate::table::{self, TableBackend, TableFacts, TableModel};

verus! {

/// Funnel hashing with dynamic allocation epochs for the ordinary map API.
/// Deletion, growth, and exceptional collision recovery are explicit
/// extensions around each fixed-size insertion epoch.
#[verifier::reject_recursive_types(K)]
pub struct FunnelTable<K: Eq, V, S: HashBuilder<K> = DefaultHashBuilder> {
    shape: FunnelShape,
    storage: Slots<SlotEntry<K, V>>,
    len: usize,
    tombstones: usize,
    reserve_fraction: ReserveFraction,
    hash_builder: S,
    epoch: EpochState,
    exceptional_placement: bool,
    /// The slot of each stored key.
    index: Ghost<Map<K, nat>>,
}

/// Whether an index holds the slot of each stored key, and nothing else.
pub open spec fn indexes<K, V>(
    index: Map<K, nat>,
    values: Seq<Option<SlotEntry<K, V>>>,
) -> bool {
    &&& forall|key: K| #[trigger]
        index.contains_key(key) ==> index[key] < values.len() && (values[index[key] as int] matches Some(
            entry,
        ) && entry.key == key)
    &&& forall|slot: int|
        0 <= slot < values.len() && (#[trigger] values[slot]) is Some ==> index.contains_key(
            values[slot]->0.key,
        ) && index[values[slot]->0.key] == slot
}

/// The entries that an index leads to.
pub open spec fn entries_of<K, V>(
    index: Map<K, nat>,
    values: Seq<Option<SlotEntry<K, V>>>,
) -> Map<K, V> {
    Map::new(
        |key: K| index.contains_key(key),
        |key: K| values[index[key] as int]->0.value,
    )
}

/// The control bytes of so many slots, with room to read a group at each.
pub open spec fn control_bytes(n: nat) -> nat {
    if n == 0 {
        0
    } else {
        (n + GROUP_SIZE - 1) as nat
    }
}

/// The slots of the smallest layout that takes `requested` insertions.
pub open spec fn budget_slots(requested: nat, reserve: ReserveFraction) -> Option<nat> {
    if requested == 0 {
        Some(0)
    } else if reserve.d() < usize::BITS && exists|n: nat| #[trigger]
        funnel_shape::is_least_serving(n, requested, reserve) {
        Some(choose|n: nat| #[trigger] funnel_shape::is_least_serving(n, requested, reserve))
    } else {
        None
    }
}

/// Why the storage of `n` slots cannot be had, if it cannot.
pub open spec fn storage_refusal<K, V>(n: nat) -> Option<TryReserveError> {
    if n == 0 {
        None
    } else if control_bytes(n) > usize::MAX {
        Some(TryReserveError::CapacityOverflow)
    } else if !layout::has_block(
        control_bytes(n),
        n,
        vstd::layout::size_of::<SlotEntry<K, V>>(),
        vstd::layout::align_of::<SlotEntry<K, V>>(),
    ) {
        Some(TryReserveError::AllocError)
    } else {
        None
    }
}

/// Why a table of `n` slots cannot be laid out, if it cannot.
pub open spec fn table_refusal<K, V>(n: nat, reserve: ReserveFraction) -> Option<TryReserveError> {
    if n > 0 && !funnel_shape::has_layout(n, reserve) {
        Some(TryReserveError::CapacityOverflow)
    } else {
        storage_refusal::<K, V>(n)
    }
}

/// An empty table needs no slots, whatever the entries.
pub proof fn law_empty_table_builds<K: Eq, V, S: HashBuilder<K>>(reserve: ReserveFraction)
    requires
        reserve.d() >= 3,
    ensures
        <FunnelTable<K, V, S> as TableModel<K, V>>::build_slots(0, reserve) == Ok::<
            nat,
            TryBuildError,
        >(0),
{
}

/// At most one slot count is the smallest.
proof fn lemma_budget_slots(n: nat, requested: nat, reserve: ReserveFraction)
    requires
        requested > 0,
        reserve.d() < usize::BITS,
        funnel_shape::is_least_serving(n, requested, reserve),
    ensures
        budget_slots(requested, reserve) == Some(n),
{
    let chosen = choose|n: nat| #[trigger] funnel_shape::is_least_serving(n, requested, reserve);
    assert(funnel_shape::is_least_serving(chosen, requested, reserve));
    assert(funnel_shape::serves(n, requested, reserve));
    assert(funnel_shape::serves(chosen, requested, reserve));
}

/// The control bytes and the block of the storage of `n` slots.
fn funnel_layout<K, V>(n: usize) -> (result: Result<(BlockLayout, usize, usize), TryReserveError>)
    ensures
        match result {
            Ok((block, offset, bytes)) => {
                &&& storage_refusal::<K, V>(n as nat) is None
                &&& bytes == control_bytes(n as nat)
                &&& layout::is_layout_of::<K, V>(bytes as nat, n as nat, Ok((block, offset)))
            },
            Err(error) => storage_refusal::<K, V>(n as nat) == Some(error),
        },
{
    let bytes: usize = if n == 0 {
        0
    } else {
        match n.checked_add(GROUP_SIZE - 1) {
            Some(bytes) => bytes,
            None => {
                return Err(TryReserveError::CapacityOverflow);
            },
        }
    };
    match layout_for_extents::<K, V>(bytes, n) {
        Ok((block, offset)) => Ok((block, offset, bytes)),
        Err(error) => Err(error),
    }
}

/// Empty storage of `n` slots, or why it cannot be had.
fn try_allocate_storage<K, V>(n: usize) -> (result: Result<
    Slots<SlotEntry<K, V>>,
    TryReserveError,
>)
    ensures
        match result {
            Ok(storage) => storage_refusal::<K, V>(n as nat) is None && storage.is_blank(
                n as nat,
                (control_bytes(n as nat) - n) as nat,
            ),
            Err(error) => n > 0 && match storage_refusal::<K, V>(n as nat) {
                Some(refusal) => error == refusal,
                None => error == TryReserveError::AllocError,
            },
        },
{
    match funnel_layout::<K, V>(n) {
        Ok((_, _, bytes)) => Slots::try_new(n, bytes - n),
        Err(error) => Err(error),
    }
}

/// The layout and empty storage of `n` slots, or why they cannot be had. A
/// layout that does not exist is reported as such even where memory is short.
fn try_lay_out<K, V>(n: usize, reserve: ReserveFraction) -> (result: Result<
    (FunnelShape, Slots<SlotEntry<K, V>>),
    TryReserveError,
>)
    requires
        reserve.wf(),
    ensures
        match result {
            Ok((shape, storage)) => {
                &&& table_refusal::<K, V>(n as nat, reserve) is None
                &&& shape.wf()
                &&& shape.n == n
                &&& shape.is_for(n as nat, reserve)
                &&& n > 0 ==> funnel_shape::has_layout(n as nat, reserve)
                &&& storage.is_blank(n as nat, (control_bytes(n as nat) - n) as nat)
            },
            Err(error) => n > 0 && match table_refusal::<K, V>(n as nat, reserve) {
                Some(refusal) => error == refusal,
                None => error == TryReserveError::AllocError,
            },
        },
{
    match FunnelShape::from_slots(n, reserve) {
        Ok(shape) => match try_allocate_storage::<K, V>(n) {
            Ok(storage) => Ok((shape, storage)),
            Err(error) => Err(error),
        },
        Err(TryReserveError::CapacityOverflow) => Err(TryReserveError::CapacityOverflow),
        Err(TryReserveError::AllocError) => match funnel_layout::<K, V>(n) {
            Ok(_) => Err(TryReserveError::AllocError),
            Err(error) => Err(error),
        },
    }
}

/// Empty storage of `n` slots.
fn allocate_storage<K, V>(n: usize) -> (result: Slots<SlotEntry<K, V>>)
    requires
        control_bytes(n as nat) <= usize::MAX,
    ensures
        result.is_blank(n as nat, (control_bytes(n as nat) - n) as nat),
{
    let padding: usize = if n == 0 {
        0
    } else {
        GROUP_SIZE - 1
    };
    Slots::new(n, padding)
}

impl<K: Eq, V, S: HashBuilder<K>> FunnelTable<K, V, S> {
    /// The control bytes.
    pub closed spec fn controls(&self) -> Seq<u8> {
        self.storage.controls()
    }

    /// The slots.
    pub closed spec fn values(&self) -> Seq<Option<SlotEntry<K, V>>> {
        self.storage.values()
    }

    /// The slot layout.
    pub closed spec fn layout(&self) -> FunnelShape {
        self.shape
    }

    /// Whether the key in a slot matches a lookup value.
    pub closed spec fn matcher<Q: Equivalent<K>>(&self, query: Q) -> spec_fn(int) -> bool {
        |slot: int| query.stands_for(self.storage.values()[slot]->0.key)
    }

    /// The layout and the storage belong together.
    closed spec fn storage_inv(&self) -> bool {
        &&& self.shape.wf()
        &&& self.storage.wf()
        &&& self.storage.values().len() == self.shape.n
        &&& self.storage.controls().len() == control_bytes(self.shape.n as nat)
        &&& self.storage.controls().len() <= usize::MAX
    }

    /// Every live slot is stamped with its key's fingerprint and, unless some
    /// entry was placed off its probe order, within reach of a search.
    closed spec fn placement_inv(&self) -> bool {
        forall|slot: int|
            0 <= slot < self.shape.n && (#[trigger] self.storage.values()[slot]) is Some ==> {
                let key = self.storage.values()[slot]->0.key;
                let hash = self.hash_builder.hash_of(key);
                &&& self.storage.controls()[slot] == control::fingerprint(hash)
                &&& self.exceptional_placement || funnel_search::reaches(
                    self.storage.controls(),
                    funnel_search::trail(self.shape, hash).cells,
                    slot as nat,
                )
            }
    }

    /// The counters count.
    closed spec fn counts_inv(&self) -> bool {
        &&& self.len == slots::occupied_count(self.storage.controls())
        &&& self.tombstones == slots::tombstone_count(self.storage.controls())
        &&& self.len <= self.shape.max_insertions
        &&& self.index@.dom().finite()
        &&& self.index@.len() == self.len
    }

    /// The keys are lawful and distinct, and the index leads to them.
    closed spec fn index_inv(&self) -> bool {
        &&& hashing::lawful_keys::<K>()
        &&& hashing::lawful_hashing::<K, S>(self.hash_builder)
        &&& indexes(self.index@, self.storage.values())
        &&& forall|left: K, right: K|
            self.index@.contains_key(left) && self.index@.contains_key(right)
                && #[trigger] hashing::same_key(left, right) ==> left == right
    }

    /// The layout is that of the slot count.
    closed spec fn shape_inv(&self) -> bool {
        &&& self.reserve_fraction.wf()
        &&& self.reserve_fraction.d() >= 3
        &&& self.shape.is_for(self.shape.n as nat, self.reserve_fraction)
        &&& self.shape.n > 0 ==> funnel_shape::has_layout(
            self.shape.n as nat,
            self.reserve_fraction,
        )
        &&& self.shape.max_insertions == capacity::insertion_limit(
            self.shape.n as nat,
            self.reserve_fraction,
        )
    }

    /// The table's invariant.
    pub closed spec fn inv(&self) -> bool {
        &&& self.shape_inv()
        &&& self.storage_inv()
        &&& self.placement_inv()
        &&& self.counts_inv()
        &&& self.index_inv()
    }

    /// Reads one slot as a scan does.
    #[inline]
    fn inspect_slot<Q: Equivalent<K>>(
        &self,
        slot: usize,
        key_fingerprint: u8,
        key: &Q,
        first_tombstone: &mut Option<usize>,
    ) -> (result: BucketScanResult)
        requires
            self.storage_inv(),
            slot < self.shape.n,
            control::occupied(key_fingerprint),
            Q::obeys(),
        ensures
            forall|cells: Seq<nat>, from: nat|
                from < cells.len() && cells[from as int] == slot ==> #[trigger] funnel_scan::scan_from(
                    self.controls(),
                    key_fingerprint,
                    self.matcher(*key),
                    cells,
                    from,
                    *old(first_tombstone),
                ) == if result == BucketScanResult::Full {
                    funnel_scan::scan_from(
                        self.controls(),
                        key_fingerprint,
                        self.matcher(*key),
                        cells,
                        from + 1,
                        *final(first_tombstone),
                    )
                } else {
                    funnel_scan::Scan { result, tombstone: *final(first_tombstone) }
                },
    {
        let control: u8 = self.storage.control_at(slot);
        if control == CTRL_TOMBSTONE {
            if first_tombstone.is_none() {
                *first_tombstone = Some(slot);
            }
            return BucketScanResult::Full;
        }
        if control == CTRL_EMPTY {
            return BucketScanResult::Empty(
                match *first_tombstone {
                    Some(first) => first,
                    None => slot,
                },
            );
        }
        if control == key_fingerprint {
            let entry = self.storage.get_ref(slot);
            if key.equivalent(&entry.key) {
                return BucketScanResult::Hit(slot);
            }
        }
        BucketScanResult::Full
    }

    /// Scans one bucket for a key.
    #[inline]
    fn scan_bucket<Q: Equivalent<K>>(
        &self,
        start: usize,
        length: usize,
        key: &Q,
        key_fingerprint: u8,
        clean_epoch: bool,
        first_tombstone: &mut Option<usize>,
    ) -> (result: BucketScanResult)
        requires
            self.storage_inv(),
            start + length <= self.shape.n,
            length > 0,
            control::occupied(key_fingerprint),
            Q::obeys(),
            clean_epoch ==> slots::tombstone_count(self.controls()) == 0 && *old(
                first_tombstone,
            ) is None,
        ensures
            (funnel_scan::Scan { result, tombstone: *final(first_tombstone) })
                == funnel_scan::scan_from(
                self.controls(),
                key_fingerprint,
                self.matcher(*key),
                funnel_scan::bucket_cells(start as nat, length as nat),
                0,
                *old(first_tombstone),
            ),
            clean_epoch ==> *final(first_tombstone) is None,
    {
        let ghost matching = self.matcher(*key);
        let inspect = |slot: usize| -> (answer: bool)
            requires
                self.storage_inv(),
                slot < self.shape.n,
                control::occupied(self.controls()[slot as int]),
                Q::obeys(),
            ensures
                answer == matching(slot as int),
            {
                let entry = self.storage.get_ref(slot);
                key.equivalent(&entry.key)
            };
        assert(funnel_scan::inspects(inspect, matching));
        if clean_epoch {
            proof {
                slots::lemma_no_tombstones(self.controls());
            }
            scan_clean_funnel_bucket(
                self.storage.control_bytes(),
                start,
                length,
                key_fingerprint,
                inspect,
            )
        } else {
            scan_funnel_bucket(
                self.storage.control_bytes(),
                start,
                length,
                key_fingerprint,
                first_tombstone,
                inspect,
            )
        }
    }

    /// Searches along a key's probe order; with `clean_epoch` the table holds no
    /// tombstones.
    fn search_exact_with_clean_scan<Q: Equivalent<K>>(
        &self,
        key: &Q,
        key_hash: u64,
        key_fingerprint: u8,
        clean_epoch: bool,
    ) -> (result: SearchResult)
        requires
            self.storage_inv(),
            control::occupied(key_fingerprint),
            Q::obeys(),
            clean_epoch ==> slots::tombstone_count(self.controls()) == 0,
        ensures
            result == funnel_search::search(
                self.controls(),
                key_fingerprint,
                self.matcher(*key),
                funnel_search::trail(self.shape, key_hash),
                None,
            ),
    {
        if self.shape.n == 0 {
            return SearchResult::Full;
        }
        let ghost controls = self.controls();
        let ghost matching = self.matcher(*key);
        let key_probe: PreparedFastFunnelProbe = FunnelPrf::new(FUNNEL_PROBE_SEED).prepare(
            key_hash,
        );
        let ghost whole = funnel_search::trail(self.shape, key_hash);
        let mut first_tombstone: Option<usize> = None;

        let mut level_index: usize = 0;
        while level_index < self.shape.levels.len()
            invariant
                self.storage_inv(),
                self.shape.n > 0,
                controls == self.controls(),
                matching == self.matcher(*key),
                control::occupied(key_fingerprint),
                Q::obeys(),
                clean_epoch ==> slots::tombstone_count(controls) == 0 && first_tombstone is None,
                key_probe == probe::prepared_funnel(FUNNEL_PROBE_SEED, key_hash),
                whole == funnel_search::trail(self.shape, key_hash),
                level_index <= self.shape.levels@.len(),
                funnel_search::search(controls, key_fingerprint, matching, whole, None)
                    == funnel_search::search(
                    controls,
                    key_fingerprint,
                    matching,
                    funnel_search::level_trail(self.shape, key_probe, level_index as nat),
                    first_tombstone,
                ),
            decreases self.shape.levels@.len() - level_index,
        {
            let level: LevelShape = self.shape.levels[level_index];
            let level_probe = key_probe.prepare_counter_base(level.ordinary_counter_base);
            let bucket: usize = match sample(&level_probe, 0, level.bucket_range) {
                Some(bucket) => bucket,
                None => {
                    return SearchResult::RangeFailure;
                },
            };
            proof {
                funnel_search::lemma_bucket_within(
                    bucket as nat,
                    level.bucket_range.upper as nat,
                    self.shape.beta as nat,
                );
                funnel_search::lemma_mul_nonnegative(
                    self.shape.fallback_bucket_range.upper as int,
                    self.shape.fallback_bucket_width as int,
                );
                funnel_search::lemma_search_after(
                    controls,
                    key_fingerprint,
                    matching,
                    funnel_scan::bucket_cells(
                        (level.offset + bucket * self.shape.beta) as nat,
                        self.shape.beta as nat,
                    ),
                    funnel_search::level_trail(self.shape, key_probe, level_index as nat + 1),
                    first_tombstone,
                );
            }
            let start: usize = level.offset + bucket * self.shape.beta;
            match self.scan_bucket(
                start,
                self.shape.beta,
                key,
                key_fingerprint,
                clean_epoch,
                &mut first_tombstone,
            ) {
                BucketScanResult::Hit(slot) => {
                    return SearchResult::Hit(slot);
                },
                BucketScanResult::Empty(slot) => {
                    return SearchResult::Vacant(slot);
                },
                BucketScanResult::Full => {},
            }
            level_index = level_index + 1;
        }
        self.search_special(key, key_probe, key_fingerprint, first_tombstone)
    }

    /// Searches the special array: the primary probes, then the two fallback
    /// buckets in turn.
    fn search_special<Q: Equivalent<K>>(
        &self,
        key: &Q,
        key_probe: PreparedFastFunnelProbe,
        key_fingerprint: u8,
        seen_tombstone: Option<usize>,
    ) -> (result: SearchResult)
        requires
            self.storage_inv(),
            self.shape.n > 0,
            control::occupied(key_fingerprint),
            Q::obeys(),
        ensures
            result == funnel_search::search(
                self.controls(),
                key_fingerprint,
                self.matcher(*key),
                funnel_search::primary_trail(self.shape, key_probe, 0),
                seen_tombstone,
            ),
    {
        let ghost controls = self.controls();
        let ghost matching = self.matcher(*key);
        let mut first_tombstone: Option<usize> = seen_tombstone;
        let primary_probe = key_probe.prepare_domain(ProbeDomain::FunnelSpecialPrimary).unwrap();
        let mut logical_probe: usize = 0;
        proof {
            funnel_search::lemma_mul_nonnegative(
                self.shape.fallback_bucket_range.upper as int,
                self.shape.fallback_bucket_width as int,
            );
        }
        while logical_probe < self.shape.loglog_ceiling
            invariant
                self.storage_inv(),
                self.shape.n > 0,
                self.shape.fallback_bucket_range.upper * self.shape.fallback_bucket_width >= 0,
                controls == self.controls(),
                matching == self.matcher(*key),
                control::occupied(key_fingerprint),
                Q::obeys(),
                primary_probe == key_probe.in_domain(ProbeDomain::FunnelSpecialPrimary),
                logical_probe <= self.shape.loglog_ceiling,
                funnel_search::search(
                    controls,
                    key_fingerprint,
                    matching,
                    funnel_search::primary_trail(self.shape, key_probe, 0),
                    seen_tombstone,
                ) == funnel_search::search(
                    controls,
                    key_fingerprint,
                    matching,
                    funnel_search::primary_trail(self.shape, key_probe, logical_probe as nat),
                    first_tombstone,
                ),
            decreases self.shape.loglog_ceiling - logical_probe,
        {
            let local: usize = match sample(
                &primary_probe,
                logical_probe as u64,
                self.shape.primary_range,
            ) {
                Some(local) => local,
                None => {
                    return SearchResult::RangeFailure;
                },
            };
            let slot: usize = self.shape.primary_offset + local;
            let ghost cells = seq![slot as nat];
            proof {
                funnel_search::lemma_search_after(
                    controls,
                    key_fingerprint,
                    matching,
                    cells,
                    funnel_search::primary_trail(
                        self.shape,
                        key_probe,
                        logical_probe as nat + 1,
                    ),
                    first_tombstone,
                );
            }
            let ghost before = first_tombstone;
            let inspected = self.inspect_slot(slot, key_fingerprint, key, &mut first_tombstone);
            assert(cells[0] == slot);
            assert(funnel_scan::scan_from(
                controls,
                key_fingerprint,
                matching,
                cells,
                0,
                before,
            ) == (funnel_scan::Scan { result: inspected, tombstone: first_tombstone }));
            match inspected {
                BucketScanResult::Hit(slot) => {
                    return SearchResult::Hit(slot);
                },
                BucketScanResult::Empty(slot) => {
                    return SearchResult::Vacant(slot);
                },
                BucketScanResult::Full => {},
            }
            logical_probe = logical_probe + 1;
        }
        self.search_fallback(key, key_probe, key_fingerprint, first_tombstone)
    }

    /// Searches the two fallback buckets, slot by slot in turn.
    fn search_fallback<Q: Equivalent<K>>(
        &self,
        key: &Q,
        key_probe: PreparedFastFunnelProbe,
        key_fingerprint: u8,
        seen_tombstone: Option<usize>,
    ) -> (result: SearchResult)
        requires
            self.storage_inv(),
            self.shape.n > 0,
            control::occupied(key_fingerprint),
            Q::obeys(),
        ensures
            result == funnel_search::search(
                self.controls(),
                key_fingerprint,
                self.matcher(*key),
                funnel_search::fallback_trail(self.shape, key_probe),
                seen_tombstone,
            ),
    {
        let ghost controls = self.controls();
        let ghost matching = self.matcher(*key);
        let mut first_tombstone: Option<usize> = seen_tombstone;
        let fallback_a_probe = key_probe.prepare_domain(
            ProbeDomain::FunnelSpecialFallbackChoiceA,
        ).unwrap();
        let bucket_a: usize = match sample(
            &fallback_a_probe,
            0,
            self.shape.fallback_bucket_range,
        ) {
            Some(bucket) => bucket,
            None => {
                return SearchResult::RangeFailure;
            },
        };
        let fallback_b_probe = key_probe.prepare_domain(
            ProbeDomain::FunnelSpecialFallbackChoiceB,
        ).unwrap();
        let bucket_b: usize = match sample(
            &fallback_b_probe,
            0,
            self.shape.fallback_bucket_range,
        ) {
            Some(bucket) => bucket,
            None => {
                return SearchResult::RangeFailure;
            },
        };
        let width: usize = self.shape.fallback_bucket_width;
        let ghost cells = funnel_search::fallback_cells(
            self.shape.fallback_offset as nat,
            width as nat,
            bucket_a as nat,
            bucket_b as nat,
        );
        proof {
            funnel_search::lemma_bucket_within(
                bucket_a as nat,
                self.shape.fallback_bucket_range.upper as nat,
                width as nat,
            );
            funnel_search::lemma_bucket_within(
                bucket_b as nat,
                self.shape.fallback_bucket_range.upper as nat,
                width as nat,
            );
        }
        let start_a: usize = self.shape.fallback_offset + bucket_a * width;
        let start_b: usize = self.shape.fallback_offset + bucket_b * width;
        let mut slot_in_bucket: usize = 0;
        while slot_in_bucket < width
            invariant
                self.storage_inv(),
                self.shape.n > 0,
                controls == self.controls(),
                matching == self.matcher(*key),
                control::occupied(key_fingerprint),
                Q::obeys(),
                slot_in_bucket <= width,
                start_a + width <= self.shape.n,
                start_b + width <= self.shape.n,
                start_a == self.shape.fallback_offset + bucket_a * width,
                start_b == self.shape.fallback_offset + bucket_b * width,
                cells == funnel_search::fallback_cells(
                    self.shape.fallback_offset as nat,
                    width as nat,
                    bucket_a as nat,
                    bucket_b as nat,
                ),
                funnel_scan::scan_from(
                    controls,
                    key_fingerprint,
                    matching,
                    cells,
                    0,
                    seen_tombstone,
                ) == funnel_scan::scan_from(
                    controls,
                    key_fingerprint,
                    matching,
                    cells,
                    2 * slot_in_bucket as nat,
                    first_tombstone,
                ),
                funnel_search::fallback_trail(self.shape, key_probe) == (funnel_search::Trail {
                    cells,
                    complete: true,
                }),
            decreases width - slot_in_bucket,
        {
            let slot_a: usize = start_a + slot_in_bucket;
            let slot_b: usize = start_b + slot_in_bucket;
            proof {
                let even = 2 * slot_in_bucket as nat;
                assert(cells[even as int] == slot_a);
                assert(cells[even as int + 1] == slot_b);
            }
            match self.inspect_slot(slot_a, key_fingerprint, key, &mut first_tombstone) {
                BucketScanResult::Hit(slot) => {
                    return SearchResult::Hit(slot);
                },
                BucketScanResult::Empty(slot) => {
                    return SearchResult::Vacant(slot);
                },
                BucketScanResult::Full => {},
            }
            match self.inspect_slot(slot_b, key_fingerprint, key, &mut first_tombstone) {
                BucketScanResult::Hit(slot) => {
                    return SearchResult::Hit(slot);
                },
                BucketScanResult::Empty(slot) => {
                    return SearchResult::Vacant(slot);
                },
                BucketScanResult::Full => {},
            }
            slot_in_bucket = slot_in_bucket + 1;
        }
        match first_tombstone {
            Some(slot) => SearchResult::Vacant(slot),
            None => SearchResult::Full,
        }
    }
}

impl<K: Eq, V, S: HashBuilder<K>> FunnelTable<K, V, S> {
    /// Searches for a key.
    fn search_exact<Q: Equivalent<K>>(&self, key: &Q, key_hash: u64, key_fingerprint: u8) -> (result:
        SearchResult)
        requires
            self.storage_inv(),
            control::occupied(key_fingerprint),
            Q::obeys(),
        ensures
            result == funnel_search::search(
                self.controls(),
                key_fingerprint,
                self.matcher(*key),
                funnel_search::trail(self.shape, key_hash),
                None,
            ),
    {
        self.search_exact_with_clean_scan(key, key_hash, key_fingerprint, false)
    }

    /// Searches for a key and the slot to fill, taking the clean path where the
    /// table holds no tombstones.
    fn search_exact_for_insert<Q: Equivalent<K>>(
        &self,
        key: &Q,
        key_hash: u64,
        key_fingerprint: u8,
    ) -> (result: SearchResult)
        requires
            self.storage_inv(),
            self.counts_inv(),
            control::occupied(key_fingerprint),
            Q::obeys(),
        ensures
            result == funnel_search::search(
                self.controls(),
                key_fingerprint,
                self.matcher(*key),
                funnel_search::trail(self.shape, key_hash),
                None,
            ),
    {
        self.search_exact_with_clean_scan(key, key_hash, key_fingerprint, self.tombstones == 0)
    }

    /// Finds a key by reading every slot.
    fn find_by_full_scan<Q: Equivalent<K>>(&self, key: &Q, key_fingerprint: u8) -> (result: Option<
        usize,
    >)
        requires
            self.storage_inv(),
            control::occupied(key_fingerprint),
            Q::obeys(),
        ensures
            match result {
                Some(slot) => slot < self.shape.n && self.controls()[slot as int] == key_fingerprint
                    && self.matcher(*key)(slot as int),
                None => forall|slot: int|
                    0 <= slot < self.shape.n && #[trigger] self.controls()[slot] == key_fingerprint
                        ==> !self.matcher(*key)(slot),
            },
    {
        let mut slot: usize = 0;
        while slot < self.shape.n
            invariant
                self.storage_inv(),
                control::occupied(key_fingerprint),
                Q::obeys(),
                slot <= self.shape.n,
                forall|other: int|
                    0 <= other < slot && #[trigger] self.controls()[other] == key_fingerprint
                        ==> !self.matcher(*key)(other),
            decreases self.shape.n - slot,
        {
            if self.storage.control_at(slot) == key_fingerprint {
                let entry = self.storage.get_ref(slot);
                if key.equivalent(&entry.key) {
                    return Some(slot);
                }
            }
            slot = slot + 1;
        }
        None
    }

    /// The first free slot.
    fn first_free_global(&self) -> (result: Option<usize>)
        requires
            self.storage_inv(),
        ensures
            match result {
                Some(slot) => slot < self.shape.n && !control::occupied(
                    self.controls()[slot as int],
                ) && forall|earlier: int|
                    0 <= earlier < slot ==> control::occupied(#[trigger] self.controls()[earlier]),
                None => forall|slot: int|
                    0 <= slot < self.shape.n ==> control::occupied(#[trigger] self.controls()[slot]),
            },
    {
        let mut slot: usize = 0;
        while slot < self.shape.n
            invariant
                self.storage_inv(),
                slot <= self.shape.n,
                forall|earlier: int|
                    0 <= earlier < slot ==> control::occupied(#[trigger] self.controls()[earlier]),
            decreases self.shape.n - slot,
        {
            if self.storage.control_at(slot).is_free() {
                return Some(slot);
            }
            slot = slot + 1;
        }
        None
    }

    /// The slot of the stored key that a lookup value stands for.
    pub closed spec fn slot_for<Q: Equivalent<K>>(&self, query: Q) -> Option<nat> {
        match table::stored(entries_of(self.index@, self.storage.values()), query) {
            Some(key) => Some(self.index@[key]),
            None => None,
        }
    }

    /// A live slot whose key matches is the slot of the stored key.
    proof fn lemma_match_is_stored<Q: Equivalent<K>>(&self, query: Q, hash: u64, slot: int)
        requires
            self.storage_inv(),
            self.index_inv(),
            table::hashes_to::<K, Q, S>(self.hash_builder, query, hash),
            0 <= slot < self.shape.n,
            self.storage.values()[slot] is Some,
            query.stands_for(self.storage.values()[slot]->0.key),
        ensures
            table::stored(entries_of(self.index@, self.storage.values()), query) == Some(
                self.storage.values()[slot]->0.key,
            ),
            self.slot_for(query) == Some(slot as nat),
    {
        let entries = entries_of(self.index@, self.storage.values());
        let key = self.storage.values()[slot]->0.key;
        assert(entries.contains_key(key));
        let chosen = choose|chosen: K|
            entries.contains_key(chosen) && #[trigger] query.stands_for(chosen);
        assert(query.stands_for(chosen) && query.stands_for(key));
        assert(hashing::same_key(chosen, key));
    }

    /// No stored key matches where no live slot does.
    proof fn lemma_no_match_is_absent<Q: Equivalent<K>>(&self, query: Q)
        requires
            self.storage_inv(),
            self.index_inv(),
            forall|slot: int|
                0 <= slot < self.shape.n && (#[trigger] self.storage.values()[slot]) is Some
                    ==> !query.stands_for(self.storage.values()[slot]->0.key),
        ensures
            table::stored(entries_of(self.index@, self.storage.values()), query) is None,
    {
        let entries = entries_of(self.index@, self.storage.values());
        assert forall|key: K| entries.contains_key(key) implies !#[trigger] query.stands_for(
            key,
        ) by {
            let slot = self.index@[key] as int;
            assert(self.storage.values()[slot] is Some);
        }
    }

    /// A search that is no hit shows a key absent, unless some entry is off its
    /// probe order.
    proof fn lemma_search_is_complete<Q: Equivalent<K>>(&self, query: Q, hash: u64)
        requires
            self.inv(),
            table::hashes_to::<K, Q, S>(self.hash_builder, query, hash),
        ensures
            ({
                let found = funnel_search::search(
                    self.controls(),
                    control::fingerprint(hash),
                    self.matcher(query),
                    funnel_search::trail(self.shape, hash),
                    None,
                );
                &&& found matches SearchResult::Hit(slot) ==> slot < self.shape.n
                    && self.slot_for(query) == Some(slot as nat)
                    && self.storage.values()[slot as int] is Some && table::stored(
                    entries_of(self.index@, self.storage.values()),
                    query,
                ) == Some(self.storage.values()[slot as int]->0.key)
                &&& !(found is Hit) && !self.exceptional_placement ==> table::stored(
                    entries_of(self.index@, self.storage.values()),
                    query,
                ) is None
                &&& found matches SearchResult::Vacant(slot) ==> slot < self.shape.n
                    && !control::occupied(self.controls()[slot as int]) && funnel_search::reaches(
                    self.controls(),
                    funnel_search::trail(self.shape, hash).cells,
                    slot as nat,
                )
            }),
    {
        let controls = self.controls();
        let fingerprint = control::fingerprint(hash);
        let matching = self.matcher(query);
        let along = funnel_search::trail(self.shape, hash);
        control::law_sentinels_are_not_fingerprints(hash);
        funnel_search::law_trail_stays_in_the_table(self.shape, hash);
        assert(funnel_search::within(along.cells, controls.len())) by {
            assert(self.shape.n <= controls.len());
        }
        funnel_search::lemma_search_outcome(controls, fingerprint, matching, along);
        let found = funnel_search::search(controls, fingerprint, matching, along, None);
        match found {
            SearchResult::Hit(slot) => {
                assert(slot < self.shape.n) by {
                    if slot >= self.shape.n {
                        assert(controls[slot as int] == CTRL_EMPTY);
                    }
                }
                self.lemma_match_is_stored(query, hash, slot as int);
            },
            SearchResult::Vacant(slot) => {
                let position = choose|position: int| #[trigger]
                    funnel_search::reaches_at(controls, along.cells, slot as nat, position);
                assert(along.cells[position] < self.shape.n);
            },
            _ => {},
        }
        if !(found is Hit) && !self.exceptional_placement {
            assert forall|slot: int|
                0 <= slot < self.shape.n && (
                #[trigger] self.storage.values()[slot]) is Some implies !query.stands_for(
                self.storage.values()[slot]->0.key,
            ) by {
                let key = self.storage.values()[slot]->0.key;
                if query.stands_for(key) {
                    assert(self.hash_builder.hash_of(key) == hash);
                    assert(funnel_search::reaches(controls, along.cells, slot as nat));
                    let position = choose|position: int| #[trigger]
                        funnel_search::reaches_at(controls, along.cells, slot as nat, position);
                    assert forall|other: int|
                        0 <= other < controls.len() && #[trigger] controls[other] == fingerprint
                            && matching(other) implies other == slot by {
                        assert(other < self.shape.n);
                        assert(self.storage.values()[other] is Some);
                        self.lemma_match_is_stored(query, hash, other);
                        self.lemma_match_is_stored(query, hash, slot);
                    }
                    funnel_search::lemma_scan_finds(
                        controls,
                        fingerprint,
                        matching,
                        along.cells,
                        0,
                        None,
                        slot as nat,
                        position,
                    );
                }
            }
            self.lemma_no_match_is_absent(query);
        }
    }

    /// The slot of a key.
    fn find_location<Q: Equivalent<K>>(&self, key: &Q, key_hash: u64, key_fingerprint: u8) -> (result:
        Option<usize>)
        requires
            self.inv(),
            table::hashes_to::<K, Q, S>(self.hash_builder, *key, key_hash),
            key_fingerprint == control::fingerprint(key_hash),
        ensures
            match result {
                Some(slot) => slot < self.shape.n && self.storage.values()[slot as int] is Some
                    && table::stored(entries_of(self.index@, self.storage.values()), *key) == Some(
                    self.storage.values()[slot as int]->0.key,
                ),
                None => table::stored(
                    entries_of(self.index@, self.storage.values()),
                    *key,
                ) is None,
            },
    {
        proof {
            control::law_sentinels_are_not_fingerprints(key_hash);
            self.lemma_search_is_complete(*key, key_hash);
        }
        match self.search_exact(key, key_hash, key_fingerprint) {
            SearchResult::Hit(slot) => Some(slot),
            _ => {
                if self.exceptional_placement {
                    let found = self.find_by_full_scan(key, key_fingerprint);
                    proof {
                        self.lemma_full_scan(*key, key_hash, found);
                    }
                    found
                } else {
                    None
                }
            },
        }
    }

    /// A full scan finds the stored key.
    proof fn lemma_full_scan<Q: Equivalent<K>>(&self, query: Q, hash: u64, found: Option<usize>)
        requires
            self.inv(),
            table::hashes_to::<K, Q, S>(self.hash_builder, query, hash),
            match found {
                Some(slot) => slot < self.shape.n && self.controls()[slot as int]
                    == control::fingerprint(hash) && self.matcher(query)(slot as int),
                None => forall|slot: int|
                    0 <= slot < self.shape.n && #[trigger] self.controls()[slot]
                        == control::fingerprint(hash) ==> !self.matcher(query)(slot),
            },
        ensures
            match found {
                Some(slot) => self.storage.values()[slot as int] is Some && table::stored(
                    entries_of(self.index@, self.storage.values()),
                    query,
                ) == Some(self.storage.values()[slot as int]->0.key),
                None => table::stored(
                    entries_of(self.index@, self.storage.values()),
                    query,
                ) is None,
            },
    {
        control::law_sentinels_are_not_fingerprints(hash);
        match found {
            Some(slot) => {
                self.lemma_match_is_stored(query, hash, slot as int);
            },
            None => {
                assert forall|slot: int|
                    0 <= slot < self.shape.n && (
                    #[trigger] self.storage.values()[slot]) is Some implies !query.stands_for(
                    self.storage.values()[slot]->0.key,
                ) by {
                    let key = self.storage.values()[slot]->0.key;
                    if query.stands_for(key) {
                        assert(self.controls()[slot] == control::fingerprint(hash));
                        assert(self.matcher(query)(slot));
                    }
                }
                self.lemma_no_match_is_absent(query);
            },
        }
    }

    /// Fills a free slot with an entry whose key is absent.
    fn place_new_entry(
        &mut self,
        slot: usize,
        key: K,
        value: V,
        key_fingerprint: u8,
        exceptional: bool,
    )
        requires
            old(self).inv(),
            slot < old(self).shape.n,
            !control::occupied(old(self).controls()[slot as int]),
            key_fingerprint == control::fingerprint(old(self).hash_builder.hash_of(key)),
            old(self).len < old(self).shape.max_insertions,
            table::stored(
                entries_of(old(self).index@, old(self).storage.values()),
                key,
            ) is None,
            exceptional || funnel_search::reaches(
                old(self).controls(),
                funnel_search::trail(
                    old(self).shape,
                    old(self).hash_builder.hash_of(key),
                ).cells,
                slot as nat,
            ),
        ensures
            final(self).inv(),
            final(self).shape == old(self).shape,
            final(self).reserve_fraction == old(self).reserve_fraction,
            final(self).hash_builder == old(self).hash_builder,
            final(self).epoch == old(self).epoch,
            final(self).len == old(self).len + 1,
            final(self).exceptional_placement == (old(self).exceptional_placement || exceptional),
            final(self).controls() == old(self).controls().update(slot as int, key_fingerprint),
            final(self).storage.values() == old(self).storage.values().update(
                slot as int,
                Some(SlotEntry { key, value }),
            ),
            final(self).index@ == old(self).index@.insert(key, slot as nat),
            entries_of(final(self).index@, final(self).storage.values()) == entries_of(
                old(self).index@,
                old(self).storage.values(),
            ).insert(key, value),
    {
        let ghost before = *self;
        let ghost hash = self.hash_builder.hash_of(key);
        proof {
            control::law_sentinels_are_not_fingerprints(hash);
            slots::lemma_counts_after_update(self.controls(), slot as int, key_fingerprint);
        }
        let was_tombstone: bool = self.storage.control_at(slot) == CTRL_TOMBSTONE;
        self.storage.write_with_control(slot, SlotEntry { key, value }, key_fingerprint);
        self.len = self.len + 1;
        if was_tombstone {
            self.tombstones = self.tombstones - 1;
        }
        if exceptional {
            self.exceptional_placement = true;
        }
        proof {
            let entries = entries_of(before.index@, before.storage.values());
            assert(!before.index@.contains_key(key)) by {
                if before.index@.contains_key(key) {
                    assert(entries.contains_key(key));
                    assert(hashing::same_key(key, key));
                    assert(key.stands_for(key));
                }
            }
            self.index@ = before.index@.insert(key, slot as nat);
            before.lemma_after_placing(*self, slot as int, key, value, hash);
        }
    }

    /// Filling a free slot keeps the invariant.
    proof fn lemma_after_placing(
        &self,
        after: Self,
        slot: int,
        key: K,
        value: V,
        hash: u64,
    )
        requires
            self.inv(),
            0 <= slot < self.shape.n,
            !control::occupied(self.controls()[slot]),
            hash == self.hash_builder.hash_of(key),
            !self.index@.contains_key(key),
            self.len < self.shape.max_insertions,
            table::stored(entries_of(self.index@, self.storage.values()), key) is None,
            after.exceptional_placement || funnel_search::reaches(
                self.controls(),
                funnel_search::trail(self.shape, hash).cells,
                slot as nat,
            ),
            self.exceptional_placement ==> after.exceptional_placement,
            after.shape == self.shape,
            after.reserve_fraction == self.reserve_fraction,
            after.hash_builder == self.hash_builder,
            after.len == self.len + 1,
            after.storage.wf(),
            after.controls() == self.controls().update(slot, control::fingerprint(hash)),
            after.storage.values() == self.storage.values().update(
                slot,
                Some(SlotEntry { key, value }),
            ),
            after.index@ == self.index@.insert(key, slot as nat),
            after.tombstones == slots::tombstone_count(after.controls()),
            after.len == slots::occupied_count(after.controls()),
        ensures
            after.inv(),
            entries_of(after.index@, after.storage.values()) == entries_of(
                self.index@,
                self.storage.values(),
            ).insert(key, value),
    {
        let old_values = self.storage.values();
        let new_values = after.storage.values();
        let entries = entries_of(self.index@, old_values);
        control::law_sentinels_are_not_fingerprints(hash);
        assert(old_values[slot] is None);
        assert(funnel_search::still_filled(self.controls(), after.controls()));
        assert forall|other: int|
            0 <= other < after.shape.n && (#[trigger] new_values[other]) is Some implies ({
            let other_key = new_values[other]->0.key;
            let other_hash = after.hash_builder.hash_of(other_key);
            &&& after.controls()[other] == control::fingerprint(other_hash)
            &&& after.exceptional_placement || funnel_search::reaches(
                after.controls(),
                funnel_search::trail(after.shape, other_hash).cells,
                other as nat,
            )
        }) by {
            let other_key = new_values[other]->0.key;
            let other_hash = after.hash_builder.hash_of(other_key);
            let cells = funnel_search::trail(after.shape, other_hash).cells;
            if other != slot {
                assert(old_values[other] is Some);
            }
            if !after.exceptional_placement {
                funnel_search::law_trail_stays_in_the_table(after.shape, other_hash);
                assert(funnel_search::within(cells, self.controls().len())) by {
                    assert(self.shape.n <= self.controls().len());
                }
                funnel_search::lemma_reach_survives(
                    self.controls(),
                    after.controls(),
                    cells,
                    other as nat,
                );
            }
        }
        assert forall|stored_key: K| #[trigger]
            after.index@.contains_key(stored_key) implies after.index@[stored_key]
            < new_values.len() && (new_values[after.index@[stored_key] as int] matches Some(
            entry,
        ) && entry.key == stored_key) by {
            if stored_key != key {
                assert(self.index@.contains_key(stored_key));
            }
        }
        assert forall|other: int|
            0 <= other < new_values.len() && (
            #[trigger] new_values[other]) is Some implies after.index@.contains_key(
            new_values[other]->0.key,
        ) && after.index@[new_values[other]->0.key] == other by {
            if other != slot {
                assert(old_values[other] is Some);
            }
        }
        assert forall|left: K, right: K|
            after.index@.contains_key(left) && after.index@.contains_key(right)
                && #[trigger] hashing::same_key(left, right) implies left == right by {
            if left != right {
                assert(hashing::same_key(right, left));
                if left == key {
                    assert(entries.contains_key(right));
                    assert(key.stands_for(right));
                } else if right == key {
                    assert(entries.contains_key(left));
                    assert(key.stands_for(left));
                }
            }
        }
        assert(entries_of(after.index@, new_values) =~= entries.insert(key, value)) by {
            assert forall|stored_key: K| #[trigger]
                entries_of(after.index@, new_values).contains_key(stored_key) implies entries_of(
                after.index@,
                new_values,
            )[stored_key] == entries.insert(key, value)[stored_key] by {
                if stored_key != key {
                    assert(self.index@.contains_key(stored_key));
                }
            }
        }
    }
}

impl<K: Eq, V, S: HashBuilder<K>> FunnelTable<K, V, S> {
    /// The entries.
    pub closed spec fn stored_entries(&self) -> Map<K, V> {
        entries_of(self.index@, self.storage.values())
    }

    /// A table over new storage.
    fn from_shape(
        shape: FunnelShape,
        storage: Slots<SlotEntry<K, V>>,
        reserve_fraction: ReserveFraction,
        hash_builder: S,
        epoch: EpochState,
    ) -> (result: Self)
        requires
            reserve_fraction.wf(),
            reserve_fraction.d() >= 3,
            shape.wf(),
            shape.is_for(shape.n as nat, reserve_fraction),
            shape.n > 0 ==> funnel_shape::has_layout(shape.n as nat, reserve_fraction),
            storage.is_blank(shape.n as nat, (control_bytes(shape.n as nat) - shape.n) as nat),
            control_bytes(shape.n as nat) <= usize::MAX,
            hashing::lawful_keys::<K>(),
            hashing::lawful_hashing::<K, S>(hash_builder),
        ensures
            result.inv(),
            result.stored_entries() == Map::<K, V>::empty(),
            result.shape == shape,
            result.reserve_fraction == reserve_fraction,
            result.hash_builder == hash_builder,
            result.epoch == epoch,
            !result.exceptional_placement,
            result.len == 0,
            forall|loc: usize| !#[trigger] result.buried_at(loc),
    {
        let table: Self = FunnelTable {
            shape,
            storage,
            len: 0,
            tombstones: 0,
            reserve_fraction,
            hash_builder,
            epoch,
            exceptional_placement: false,
            index: Ghost(Map::empty()),
        };
        proof {
            slots::lemma_counts_of_empty(table.storage.controls());
            lemma_shape_limit(table.shape, reserve_fraction);
            assert forall|slot: int| 0 <= slot < table.shape.n implies (
            #[trigger] table.storage.values()[slot]) is None by {
                assert(table.storage.controls()[slot] == CTRL_EMPTY);
            }
            assert(table.stored_entries() =~= Map::<K, V>::empty());
        }
        table
    }

    /// Stores an entry whose key is absent where the construction places it, or in
    /// the first free slot if there is no such place, and says which.
    fn insert_unique(&mut self, key: K, value: V) -> (result: bool)
        requires
            old(self).inv(),
            old(self).len < old(self).shape.max_insertions,
            table::stored(old(self).stored_entries(), key) is None,
        ensures
            final(self).inv(),
            final(self).stored_entries() == old(self).stored_entries().insert(key, value),
            final(self).same_setting(old(self)),
            final(self).epoch == old(self).epoch,
            final(self).len == old(self).len + 1,
            final(self).exceptional_placement == (old(self).exceptional_placement || result),
            final(self).gained(old(self), key, value),
            result == (old(self).place_of_new(key) is None),
    {
        let key_hash: u64 = self.hash_builder.hash_one(&key);
        proof {
            control::law_sentinels_are_not_fingerprints(key_hash);
        }
        let key_fingerprint: u8 = control::control_fingerprint(key_hash);
        let exact: SearchResult = self.search_exact_for_insert(&key, key_hash, key_fingerprint);
        let (_, exceptional) = self.place_after_search(
            key,
            value,
            key_hash,
            key_fingerprint,
            exact,
        );
        exceptional
    }

    /// Whether the layout, the reserve fraction and the hash builder are as in
    /// another table.
    closed spec fn same_setting(&self, other: &Self) -> bool {
        &&& self.shape == other.shape
        &&& self.reserve_fraction == other.reserve_fraction
        &&& self.hash_builder == other.hash_builder
    }

    /// Fills the slot that a search for an absent key chose, or the first free
    /// slot where it chose none.
    fn place_after_search(
        &mut self,
        key: K,
        value: V,
        key_hash: u64,
        key_fingerprint: u8,
        exact: SearchResult,
    ) -> (result: (usize, bool))
        requires
            old(self).inv(),
            old(self).len < old(self).shape.max_insertions,
            key_hash == old(self).hash_builder.hash_of(key),
            key_fingerprint == control::fingerprint(key_hash),
            table::stored(old(self).stored_entries(), key) is None,
            exact == funnel_search::search(
                old(self).controls(),
                key_fingerprint,
                old(self).matcher(key),
                funnel_search::trail(old(self).shape, key_hash),
                None,
            ),
        ensures
            final(self).inv(),
            final(self).stored_entries() == old(self).stored_entries().insert(key, value),
            final(self).same_setting(old(self)),
            final(self).epoch == old(self).epoch,
            final(self).len == old(self).len + 1,
            final(self).exceptional_placement == (old(self).exceptional_placement || result.1),
            result.1 == !(exact is Vacant),
            match exact {
                SearchResult::Vacant(slot) => result.0 == slot,
                _ => old(self).is_first_free(result.0),
            },
            result.0 < final(self).shape.n,
            final(self).storage.values()[result.0 as int] == Some(SlotEntry { key, value }),
            final(self).gained(old(self), key, value),
    {
        let ghost before = *self;
        proof {
            self.lemma_key_query(key, key_hash);
            self.lemma_search_is_complete(key, key_hash);
            slots::lemma_counts_bounds(self.storage.controls(), self.shape.n as nat);
        }
        let slot: usize = match exact {
            SearchResult::Vacant(slot) => {
                self.place_new_entry(slot, key, value, key_fingerprint, false);
                assert(self.gained_at(&before, key, slot));
                return (slot, false);
            },
            _ => self.first_free_global().unwrap(),
        };
        self.place_new_entry(slot, key, value, key_fingerprint, true);
        assert(before.is_first_free(slot) && self.gained_at(&before, key, slot));
        (slot, true)
    }

    /// A key is a lookup value with its own hash.
    proof fn lemma_key_query(&self, key: K, hash: u64)
        requires
            self.index_inv(),
            hash == self.hash_builder.hash_of(key),
        ensures
            table::hashes_to::<K, K, S>(self.hash_builder, key, hash),
    {
        assert forall|other: K| #[trigger] key.stands_for(other) implies self.hash_builder.hash_of(
            other,
        ) == hash by {
            assert(hashing::same_key(key, other));
        }
        assert forall|left: K, right: K|
            (#[trigger] key.stands_for(left) && #[trigger] key.stands_for(
                right,
            )) implies hashing::same_key(left, right) by {
            assert(hashing::same_key(key, left) && hashing::same_key(key, right));
            assert(hashing::same_key(left, key));
        }
    }
}

/// A layout's insertion limit is all but the reserved slots.
proof fn lemma_shape_limit(shape: FunnelShape, reserve: ReserveFraction)
    requires
        reserve.wf(),
        shape.is_for(shape.n as nat, reserve),
    ensures
        shape.max_insertions == capacity::insertion_limit(shape.n as nat, reserve),
{
    if shape.n == 0 {
        vstd::arithmetic::power2::lemma_pow2_pos(reserve.d() as nat);
    }
}

impl<K: Eq, V, S: HashBuilder<K>> FunnelTable<K, V, S> {
    /// The live slots, in order, list the entries.
    proof fn lemma_live_entries(&self)
        requires
            self.storage_inv(),
            self.index_inv(),
        ensures
            listing::lists(self.storage.live_from(0), self.stored_entries()),
            self.stored_entries().dom() == self.index@.dom(),
    {
        let live = self.storage.live_from(0);
        let values = self.storage.values();
        let entries = self.stored_entries();
        let places = listing::live_slots(values, 0);
        listing::lemma_live_slots(self.storage, 0);
        assert(entries.dom() =~= self.index@.dom());
        assert forall|i: int| 0 <= i < live.len() implies entries.contains_key(
            (#[trigger] live[i]).key,
        ) && entries[live[i].key] == live[i].value by {
            assert(values[places[i] as int] == Some(live[i]));
        }
        assert forall|key: K| #[trigger] entries.contains_key(key) implies listing::listed_at(
            live,
            key,
        ) by {
            let slot = self.index@[key];
            assert(values[slot as int] is Some);
            assert(places.contains(slot));
            let i = choose|i: int| 0 <= i < places.len() && places[i] == slot;
            assert(values[places[i] as int] == Some(live[i]));
            assert(live[i].key == key);
        }
        assert forall|i: int, j: int| 0 <= i < j < live.len() implies (#[trigger] live[i]).key != (
        #[trigger] live[j]).key by {
            assert(values[places[i] as int] == Some(live[i]));
            assert(values[places[j] as int] == Some(live[j]));
            assert(places[i] < places[j]);
        }
    }

    /// The table counts its entries.
    proof fn lemma_len(&self)
        requires
            self.inv(),
        ensures
            self.entries().dom().finite(),
            self.entries().len() == self.len,
    {
        self.lemma_live_entries();
        assert(self.entries().dom() == self.index@.dom());
    }

    /// Moves every entry into new storage, in slot order, and says whether one had
    /// to be placed off its probe order.
    fn rebuild(&mut self, shape: FunnelShape, storage: Slots<SlotEntry<K, V>>) -> (result: bool)
        requires
            old(self).inv(),
            shape.wf(),
            shape.is_for(shape.n as nat, old(self).reserve_fraction),
            shape.n > 0 ==> funnel_shape::has_layout(shape.n as nat, old(self).reserve_fraction),
            storage.is_blank(shape.n as nat, (control_bytes(shape.n as nat) - shape.n) as nat),
            control_bytes(shape.n as nat) <= usize::MAX,
            shape.max_insertions >= old(self).len,
        ensures
            final(self).inv(),
            final(self).stored_entries() == old(self).stored_entries(),
            final(self).shape == shape,
            final(self).reserve_fraction == old(self).reserve_fraction,
            final(self).hash_builder == old(self).hash_builder,
            final(self).epoch == old(self).epoch,
            final(self).len == old(self).len,
            final(self).exceptional_placement == result,
            final(self).refilled(old(self), shape.n as nat),
    {
        let ghost before = *self;
        let ghost entries = self.stored_entries();
        proof {
            self.lemma_live_entries();
            listing::lemma_lists_len(self.storage.live_from(0), entries);
            slots::lemma_counts_of_empty(storage.controls());
            lemma_shape_limit(shape, self.reserve_fraction);
        }
        let mut previous: Slots<SlotEntry<K, V>> = storage;
        core::mem::swap(&mut self.storage, &mut previous);
        self.shape = shape;
        self.len = 0;
        self.tombstones = 0;
        self.exceptional_placement = false;
        self.index = Ghost(Map::empty());
        proof {
            assert forall|slot: int| 0 <= slot < self.shape.n implies (
            #[trigger] self.storage.values()[slot]) is None by {
                assert(self.storage.controls()[slot] == CTRL_EMPTY);
            }
            assert(self.stored_entries() =~= Map::<K, V>::empty());
        }
        let drained: Vec<SlotEntry<K, V>> = previous.drain_values_and_clear();
        let ghost listed = drained@;
        let ghost mut stages: Seq<Self> = seq![*self];
        let mut recovered: bool = false;
        for entry in iter: drained.into_iter()
            invariant
                self.inv(),
                self.shape == shape,
                self.reserve_fraction == before.reserve_fraction,
                self.hash_builder == before.hash_builder,
                self.epoch == before.epoch,
                self.len == iter.index(),
                self.exceptional_placement == recovered,
                before.inv(),
                entries == before.stored_entries(),
                listed == iter.seq(),
                listed.len() == before.len,
                shape.max_insertions >= before.len,
                listing::lists(listed, entries),
                listing::lists(listed.take(iter.index()), self.stored_entries()),
                stages.len() == iter.index() + 1,
                stages[iter.index() as int] == *self,
                stages[0].blank_like(&before, shape.n as nat),
                forall|i: int|
                    0 <= i < iter.index() ==> #[trigger] Self::fills_at(stages, listed, i),
        {
            let ghost earlier = stages;
            proof {
                let i = iter.index();
                assert(entry == listed[i]);
                listing::lemma_next_is_absent(listed, i, entries, self.stored_entries());
                assert(!self.stored_entries().contains_key(entry.key)) by {
                    assert(hashing::same_key(entry.key, entry.key));
                    if self.stored_entries().contains_key(entry.key) {
                        assert(entry.key.stands_for(entry.key));
                    }
                }
                listing::lemma_lists_push(listed.take(i), self.stored_entries(), entry);
                assert(listed.take(i + 1) =~= listed.take(i).push(entry));
            }
            let exceptional: bool = self.insert_unique(entry.key, entry.value);
            if exceptional {
                recovered = true;
            }
            proof {
                stages = earlier.push(*self);
                assert forall|i: int| 0 <= i < iter.index() + 1 implies #[trigger] Self::fills_at(
                    stages,
                    listed,
                    i,
                ) by {
                    if i < iter.index() {
                        assert(Self::fills_at(earlier, listed, i));
                    }
                }
            }
        }
        proof {
            assert(listed.take(listed.len() as int) =~= listed);
            listing::lemma_lists_unique(listed, entries, self.stored_entries());
            assert(Self::fills(stages, before.listed()));
        }
        recovered
    }
}

impl<K: Eq, V, S: HashBuilder<K>> FunnelTable<K, V, S> {
    /// The slots to grow to for `needed` entries.
    fn next_growth_slots(&self, needed: usize) -> (result: Option<usize>)
        requires
            self.inv(),
        ensures
            match result {
                Some(n) => funnel_growth(
                    self.shape.n as nat,
                    needed as nat,
                    self.reserve_fraction,
                ) == Some(n as nat),
                None => funnel_growth(
                    self.shape.n as nat,
                    needed as nat,
                    self.reserve_fraction,
                ) is None,
            },
    {
        if needed >= isize::MAX as usize {
            return None;
        }
        let doubled: usize = match self.shape.max_insertions.checked_mul(2) {
            Some(doubled) => doubled,
            None => usize::MAX,
        };
        let requested: usize = if needed >= doubled {
            needed
        } else {
            doubled
        };
        insert_budget_slots(requested, self.reserve_fraction)
    }

    /// Rebuilds with `slots` slots and starts an epoch.
    fn resize_with_transition(&mut self, slots: usize, transition: EpochTransition)
        requires
            old(self).inv(),
            slots > 0 ==> funnel_shape::has_layout(slots as nat, old(self).reserve_fraction),
            control_bytes(slots as nat) <= usize::MAX,
            capacity::insertion_limit(slots as nat, old(self).reserve_fraction) >= old(self).len,
        ensures
            final(self).inv(),
            final(self).stored_entries() == old(self).stored_entries(),
            final(self).shape.n == slots,
            final(self).reserve_fraction == old(self).reserve_fraction,
            final(self).hash_builder == old(self).hash_builder,
            final(self).len == old(self).len,
            final(self).rebuilt_from(old(self), slots as nat, transition),
    {
        let ghost before = *self;
        let shape: FunnelShape = FunnelShape::of_slots(slots, self.reserve_fraction);
        proof {
            lemma_shape_limit(shape, self.reserve_fraction);
        }
        let storage: Slots<SlotEntry<K, V>> = allocate_storage(slots);
        let recovered: bool = self.rebuild(shape, storage);
        let ghost moved = *self;
        self.start_rebuilt_epoch(transition, recovered);
        proof {
            table::lemma_refilled_alike::<K, V, Self>(before, moved, *self, slots as nat);
        }
    }

    /// Starts the epoch after a rebuild.
    fn start_rebuilt_epoch(&mut self, transition: EpochTransition, recovered: bool)
        requires
            old(self).inv(),
        ensures
            final(self).inv(),
            final(self).stored_entries() == old(self).stored_entries(),
            final(self).same_setting(old(self)),
            final(self).len == old(self).len,
            final(self).exceptional_placement == old(self).exceptional_placement,
            final(self).epoch@ == table::rebuilt(old(self).epoch@, transition, recovered),
            final(self).same_storage(old(self)),
    {
        if recovered {
            self.epoch.start_with_placement_recovery(transition);
        } else {
            self.epoch.start(transition);
        }
    }

    /// Rebuilds with `slots` slots unless the storage cannot be had, in which
    /// case nothing changes.
    fn try_resize_exact(&mut self, slots: usize) -> (result: Result<(), TryReserveError>)
        requires
            old(self).inv(),
            capacity::insertion_limit(slots as nat, old(self).reserve_fraction) >= old(self).len,
        ensures
            match result {
                Ok(_) => {
                    &&& table_refusal::<K, V>(slots as nat, old(self).reserve_fraction) is None
                    &&& final(self).rebuilt_from(
                        old(self),
                        slots as nat,
                        EpochTransition::ExplicitResize,
                    )
                },
                Err(error) => *final(self) == *old(self) && match table_refusal::<K, V>(
                    slots as nat,
                    old(self).reserve_fraction,
                ) {
                    Some(refusal) => error == refusal,
                    None => slots > 0 && error == TryReserveError::AllocError,
                },
            },
    {
        match try_lay_out::<K, V>(slots, self.reserve_fraction) {
            Ok((shape, storage)) => {
                proof {
                    lemma_shape_limit(shape, self.reserve_fraction);
                }
                let ghost before = *self;
                let recovered: bool = self.rebuild(shape, storage);
                let ghost moved = *self;
                self.start_rebuilt_epoch(EpochTransition::ExplicitResize, recovered);
                proof {
                    table::lemma_refilled_alike::<K, V, Self>(before, moved, *self, slots as nat);
                }
                Ok(())
            },
            Err(error) => Err(error),
        }
    }

    /// Moves the entry out of a live slot and leaves a tombstone.
    fn bury(&mut self, slot: usize) -> (result: (K, V))
        requires
            old(self).inv(),
            slot < old(self).shape.n,
            old(self).storage.values()[slot as int] is Some,
        ensures
            final(self).inv(),
            final(self).same_setting(old(self)),
            final(self).len == old(self).len - 1,
            final(self).tombstones == old(self).tombstones + 1,
            final(self).exceptional_placement == old(self).exceptional_placement,
            final(self).epoch@ == old(self).epoch@.deleted(),
            old(self).storage.values()[slot as int] == Some(
                SlotEntry { key: result.0, value: result.1 },
            ),
            old(self).stored_entries().contains_key(result.0),
            old(self).stored_entries()[result.0] == result.1,
            final(self).stored_entries() == old(self).stored_entries().remove(result.0),
            final(self).index@ == old(self).index@.remove(result.0),
            final(self).storage.values() == old(self).storage.values().update(slot as int, None),
            final(self).lost(old(self), slot),
    {
        let ghost before = *self;
        proof {
            slots::lemma_counts_after_update(self.controls(), slot as int, CTRL_TOMBSTONE);
            slots::lemma_occupied_counts(self.controls(), slot as int);
            slots::lemma_counts_bounds(
                self.controls().update(slot as int, CTRL_TOMBSTONE),
                0,
            );
        }
        let entry: SlotEntry<K, V> = self.storage.take(slot);
        self.len = self.len - 1;
        self.tombstones = self.tombstones + 1;
        self.epoch.note_delete();
        proof {
            self.index@ = before.index@.remove(entry.key);
            before.lemma_after_burying(*self, slot as int);
            assert forall|other: usize| #[trigger]
                self.key_at(other) == match before.key_at(other) {
                    Some(key) => if self.entries().contains_key(key) {
                        Some(key)
                    } else {
                        None
                    },
                    None => None,
                } by {
                if before.key_at(other) is Some {
                    assert(before.storage.values()[other as int] is Some);
                    assert(before.storage.values()[slot as int] is Some);
                }
            }
        }
        (entry.key, entry.value)
    }

    /// Leaving a tombstone keeps the invariant.
    proof fn lemma_after_burying(&self, after: Self, slot: int)
        requires
            self.inv(),
            0 <= slot < self.shape.n,
            self.storage.values()[slot] is Some,
            after.same_setting(self),
            after.exceptional_placement == self.exceptional_placement,
            after.len == self.len - 1,
            after.storage.wf(),
            after.controls() == self.controls().update(slot, CTRL_TOMBSTONE),
            after.storage.values() == self.storage.values().update(slot, None),
            after.index@ == self.index@.remove(self.storage.values()[slot]->0.key),
            after.tombstones == slots::tombstone_count(after.controls()),
            after.len == slots::occupied_count(after.controls()),
        ensures
            after.inv(),
            after.stored_entries() == self.stored_entries().remove(
                self.storage.values()[slot]->0.key,
            ),
    {
        let old_values = self.storage.values();
        let new_values = after.storage.values();
        let gone = old_values[slot]->0.key;
        assert(funnel_search::still_filled(self.controls(), after.controls()));
        assert forall|other: int|
            0 <= other < after.shape.n && (#[trigger] new_values[other]) is Some implies ({
            let other_hash = after.hash_builder.hash_of(new_values[other]->0.key);
            &&& after.controls()[other] == control::fingerprint(other_hash)
            &&& after.exceptional_placement || funnel_search::reaches(
                after.controls(),
                funnel_search::trail(after.shape, other_hash).cells,
                other as nat,
            )
        }) by {
            let other_hash = after.hash_builder.hash_of(new_values[other]->0.key);
            let cells = funnel_search::trail(after.shape, other_hash).cells;
            assert(old_values[other] is Some);
            if !after.exceptional_placement {
                funnel_search::law_trail_stays_in_the_table(after.shape, other_hash);
                assert(funnel_search::within(cells, self.controls().len())) by {
                    assert(self.shape.n <= self.controls().len());
                }
                funnel_search::lemma_reach_survives(
                    self.controls(),
                    after.controls(),
                    cells,
                    other as nat,
                );
            }
        }
        assert forall|key: K| #[trigger] after.index@.contains_key(key) implies after.index@[key]
            < new_values.len() && (new_values[after.index@[key] as int] matches Some(entry)
            && entry.key == key) by {
            assert(self.index@.contains_key(key));
            assert(old_values[self.index@[key] as int]->0.key == key);
            assert(self.index@[key] != slot);
        }
        assert forall|other: int|
            0 <= other < new_values.len() && (
            #[trigger] new_values[other]) is Some implies after.index@.contains_key(
            new_values[other]->0.key,
        ) && after.index@[new_values[other]->0.key] == other by {
            assert(old_values[other] is Some);
            assert(old_values[slot] is Some);
        }
        assert(after.stored_entries() =~= self.stored_entries().remove(gone)) by {
            assert forall|key: K| #[trigger]
                after.stored_entries().contains_key(key) implies after.stored_entries()[key]
                == self.stored_entries()[key] by {
                assert(after.index@.contains_key(key));
            }
        }
    }

    /// Rebuilds at the same size if the table holds too many tombstones.
    fn settle(&mut self)
        requires
            old(self).inv(),
        ensures
            final(self).inv(),
            final(self).stored_entries() == old(self).stored_entries(),
            final(self).shape.n == old(self).shape.n,
            final(self).reserve_fraction == old(self).reserve_fraction,
            final(self).hash_builder == old(self).hash_builder,
            final(self).cleaned_from(old(self)),
    {
        if self.tombstones > capacity::tombstone_cleanup_threshold(self.shape.n) {
            self.resize_with_transition(self.shape.n, EpochTransition::TombstoneCleanup);
        }
    }
}

/// The slots that a table of `slots` slots grows to for `needed` entries: the
/// smallest layout for twice its limit, or for more where more is needed.
pub open spec fn funnel_growth(slots: nat, needed: nat, reserve: ReserveFraction) -> Option<nat> {
    if needed >= isize::MAX {
        None
    } else {
        let doubled = table::saturated(
            (2 * capacity::insertion_limit(slots, reserve)) as nat,
        );
        budget_slots(
            if needed >= doubled {
                needed
            } else {
                doubled
            },
            reserve,
        )
    }
}

/// The slots of the smallest layout that takes `requested` insertions.
fn insert_budget_slots(requested: usize, reserve: ReserveFraction) -> (result: Option<usize>)
    requires
        reserve.wf(),
    ensures
        match result {
            Some(n) => budget_slots(requested as nat, reserve) == Some(n as nat)
                && capacity::insertion_limit(n as nat, reserve) >= requested && (n > 0
                ==> funnel_shape::has_layout(n as nat, reserve)),
            None => budget_slots(requested as nat, reserve) is None,
        },
{
    if requested == 0 {
        proof {
            capacity::law_insertion_limit_bounds(0, reserve);
        }
        return Some(0);
    }
    let found: Option<usize> = funnel_shape::least_serving_slots(requested, reserve);
    proof {
        match found {
            Some(n) => {
                lemma_budget_slots(n as nat, requested as nat, reserve);
            },
            None => {
                if budget_slots(requested as nat, reserve) is Some {
                    let n = choose|n: nat| #[trigger]
                        funnel_shape::is_least_serving(n, requested as nat, reserve);
                    assert(funnel_shape::serves(n, requested as nat, reserve));
                }
            },
        }
    }
    found
}

impl<K: Eq, V, S: HashBuilder<K>> TableModel<K, V> for FunnelTable<K, V, S> {
    type Location = usize;

    type Hasher = S;

    type Scan = usize;

    closed spec fn wf(&self) -> bool {
        self.inv()
    }

    closed spec fn entries(&self) -> Map<K, V> {
        self.stored_entries()
    }

    closed spec fn key_at(&self, loc: usize) -> Option<K> {
        if loc < self.shape.n {
            match self.storage.values()[loc as int] {
                Some(entry) => Some(entry.key),
                None => None,
            }
        } else {
            None
        }
    }

    closed spec fn buried_at(&self, loc: usize) -> bool {
        loc < self.shape.n && self.storage.controls()[loc as int] == CTRL_TOMBSTONE
    }

    closed spec fn builder(&self) -> S {
        self.hash_builder
    }

    closed spec fn slot_count(&self) -> nat {
        self.shape.n as nat
    }

    closed spec fn fraction(&self) -> ReserveFraction {
        self.reserve_fraction
    }

    closed spec fn lifecycle(&self) -> EpochModel {
        self.epoch@
    }

    open spec fn refusal(slots: nat, reserve: ReserveFraction) -> Option<TryReserveError> {
        table_refusal::<K, V>(slots, reserve)
    }

    open spec fn build_slots(capacity: nat, reserve: ReserveFraction) -> Result<
        nat,
        TryBuildError,
    > {
        if reserve.d() < 3 {
            Err(TryBuildError::FunnelDeltaLog2BelowMinimum { delta_log2: reserve.d(), minimum: 3 })
        } else {
            match budget_slots(capacity, reserve) {
                Some(n) => match table_refusal::<K, V>(n, reserve) {
                    Some(refusal) => Err(error::build_error_of(refusal)),
                    None => Ok(n),
                },
                None => Err(TryBuildError::CapacityOverflow),
            }
        }
    }

    open spec fn growth(slots: nat, needed: nat, reserve: ReserveFraction) -> Option<nat> {
        funnel_growth(slots, needed, reserve)
    }

    open spec fn enlarged(slots: nat, reserve: ReserveFraction) -> Option<nat> {
        funnel_growth(slots, (capacity::insertion_limit(slots, reserve) + 1) as nat, reserve)
    }

    open spec fn shrunk(requested: nat, reserve: ReserveFraction) -> Option<nat> {
        budget_slots(requested, reserve)
    }

    closed spec fn exceptional(&self) -> bool {
        self.exceptional_placement
    }

    closed spec fn listed(&self) -> Seq<SlotEntry<K, V>> {
        self.storage.live_from(0)
    }

    open spec fn is_first_free(&self, loc: usize) -> bool {
        &&& loc < self.slot_count()
        &&& !control::occupied(self.controls()[loc as int])
        &&& forall|earlier: int|
            0 <= earlier < loc ==> control::occupied(#[trigger] self.controls()[earlier])
    }

    open spec fn rebuilds_to_recover() -> bool {
        false
    }

    open spec fn place_of_new(&self, key: K) -> Option<usize> {
        match self.paper_search(key, self.builder().hash_of(key)) {
            SearchResult::Vacant(slot) => Some(slot),
            _ => None,
        }
    }

    closed spec fn cleanup_after(&self, loc: usize) -> bool {
        self.tombstones + 1 > capacity::cleanup_threshold(self.shape.n as nat)
    }

    closed spec fn cleanup_due(&self) -> bool {
        self.tombstones > capacity::cleanup_threshold(self.shape.n as nat)
    }

    closed spec fn cleanup_due_without(&self, gone: Set<K>) -> bool {
        self.tombstones + gone.len() > capacity::cleanup_threshold(self.shape.n as nat)
    }

    closed spec fn scanning(&self, scan: usize) -> bool {
        scan <= self.shape.n
    }

    closed spec fn pending(&self, scan: usize, key: K) -> bool {
        self.index@.contains_key(key) && self.index@[key] >= scan
    }
}

/// What a budget gives takes as many insertions, in as few slots as `usize` holds.
proof fn lemma_budget(requested: nat, reserve: ReserveFraction)
    requires
        reserve.wf(),
    ensures
        budget_slots(requested, reserve) matches Some(n) ==> capacity::insertion_limit(n, reserve)
            >= requested && n <= usize::MAX && (n > 0 ==> funnel_shape::has_layout(n, reserve)),
{
    capacity::law_insertion_limit_bounds(0, reserve);
    if let Some(n) = budget_slots(requested, reserve) {
        if requested > 0 {
            assert(funnel_shape::is_least_serving(n, requested, reserve));
            assert(funnel_shape::serves(n, requested, reserve));
        }
    }
}

impl<K: Eq, V, S: HashBuilder<K>> TableBackend<K, V> for FunnelTable<K, V, S> {
    proof fn lemma_wf(&self) {
        self.lemma_len();
    }

    proof fn lemma_cleanup(&self) {
        assert forall|loc: usize|
            #![trigger self.cleanup_after(loc)]
            self.key_at(loc) is Some implies self.cleanup_due_without(
            set![self.key_at(loc)->0],
        ) == (self.cleanup_due() || self.cleanup_after(loc)) by {
            assert(set![self.key_at(loc)->0].len() == 1);
        }
    }

    proof fn lemma_lost(&self, before: &Self, loc: usize) {
        lemma_counters(*self);
        lemma_counters(*before);
        before.lemma_one_place(loc);
        assert forall|slot: usize| #[trigger]
            self.buried_at(slot) == (before.buried_at(slot) || slot == loc) by {
            if before.key_at(slot) is Some && self.key_at(slot) is None {
                before.lemma_one_place(slot);
            }
        }
        assert(tombstones_of(*self) =~= tombstones_of(*before).insert(loc as int));
    }

    proof fn lemma_clean(&self) {
        lemma_counters(*self);
        assert(tombstones_of(*self) =~= Set::<int>::empty());
    }

    proof fn lemma_storage_decides(&self, other: &Self) {
        let left = self.storage.values();
        let right = other.storage.values();
        funnel_shape::law_layout_is_unique(
            self.shape,
            other.shape,
            self.shape.n as nat,
            self.reserve_fraction,
        );
        assert forall|slot: int| 0 <= slot < left.len() implies #[trigger] left[slot]
            == right[slot] && self.controls()[slot] == other.controls()[slot] by {
            let loc = slot as usize;
            assert(self.key_at(loc) == other.key_at(loc));
            assert(self.buried_at(loc) == other.buried_at(loc));
            if left[slot] is Some {
                let key = left[slot]->0.key;
                assert(right[slot] is Some);
                assert(self.stored_entries()[key] == left[slot]->0.value);
                assert(other.stored_entries()[key] == right[slot]->0.value);
            } else {
                assert(right[slot] is None);
                assert(!control::occupied(self.controls()[slot]));
                assert(!control::occupied(other.controls()[slot]));
            }
        }
        assert(left =~= right);
        assert(self.controls() =~= other.controls());
        assert(self.index@ =~= other.index@) by {
            assert forall|key: K| #[trigger]
                self.index@.contains_key(key) implies other.index@.contains_key(key)
                && other.index@[key] == self.index@[key] by {
                assert(right[self.index@[key] as int] is Some);
            }
            assert forall|key: K| #[trigger]
                other.index@.contains_key(key) implies self.index@.contains_key(key) by {
                assert(left[other.index@[key] as int] is Some);
            }
        }
        slots::lemma_same_live(self.storage, other.storage, 0);
        assert forall|key: K| #[trigger] self.place_of_new(key) == other.place_of_new(key) by {
            let hash = self.hash_builder.hash_of(key);
            funnel_search::lemma_same_trail(self.shape, other.shape, hash);
            funnel_search::law_trail_stays_in_the_table(self.shape, hash);
            let cells = funnel_search::trail(self.shape, hash).cells;
            assert forall|i: int|
                0 <= i < cells.len() && self.controls()[#[trigger] cells[i] as int]
                    == control::fingerprint(hash) implies (self.matcher(key))(cells[i] as int) == (
            other.matcher(key))(cells[i] as int) by {
                assert(left[cells[i] as int] == right[cells[i] as int]);
            }
            funnel_scan::lemma_scan_alike(
                self.controls(),
                control::fingerprint(hash),
                self.matcher(key),
                other.matcher(key),
                cells,
                0,
                None,
            );
        }
        assert forall|first: usize, second: usize| #[trigger] self.is_first_free(
            first,
        ) && #[trigger] self.is_first_free(second) implies first == second by {
            assert(!control::occupied(self.controls()[first as int]));
            assert(!control::occupied(self.controls()[second as int]));
        }
    }

    proof fn lemma_enlarged(slots: nat, reserve: ReserveFraction) {
        capacity::law_insertion_limit_bounds(slots, reserve);
        Self::lemma_growth(
            slots,
            (capacity::insertion_limit(slots, reserve) + 1) as nat,
            reserve,
        );
        lemma_budget((2 * capacity::insertion_limit(slots, reserve)) as nat, reserve);
    }

    proof fn lemma_growth(slots: nat, needed: nat, reserve: ReserveFraction) {
        capacity::law_insertion_limit_bounds(slots, reserve);
        let doubled = table::saturated((2 * capacity::insertion_limit(slots, reserve)) as nat);
        lemma_budget(
            if needed >= doubled {
                needed
            } else {
                doubled
            },
            reserve,
        );
    }

    #[inline]
    fn hasher(&self) -> (result: &S) {
        &self.hash_builder
    }

    #[inline]
    fn len(&self) -> (result: usize) {
        proof {
            self.lemma_len();
        }
        self.len
    }

    #[inline]
    fn capacity(&self) -> (result: usize) {
        self.shape.max_insertions
    }

    #[inline]
    fn total_slots(&self) -> (result: usize) {
        self.shape.n
    }

    #[inline]
    fn reserve_config(&self) -> (result: ReserveFraction) {
        self.reserve_fraction
    }

    fn epoch_snapshot(&self) -> (result: EpochSnapshot) {
        proof {
            self.lemma_len();
        }
        self.epoch.snapshot(self.len)
    }

    #[inline]
    fn slot_ref(&self, loc: usize) -> (result: &SlotEntry<K, V>) {
        self.storage.get_ref(loc)
    }

    #[inline]
    fn pair_mut(&mut self, loc: usize) -> (result: (&K, &mut V)) {
        let entry = self.storage.get_mut(loc);
        (&entry.key, &mut entry.value)
    }

    fn pairs_mut<'a>(&'a mut self, locs: &[Option<usize>]) -> (result: Vec<
        Option<(&'a K, &'a mut V)>,
    >) {
        self.storage.pairs_mut(locs)
    }

    #[inline]
    fn find<Q: Equivalent<K>>(&self, key: &Q, hash: u64, fingerprint: u8) -> (result: Option<usize>) {
        self.find_location(key, hash, fingerprint)
    }

    fn takes_one_more(&self) -> (result: bool) {
        proof {
            self.lemma_len();
            Self::lemma_growth(self.slot_count(), self.len as nat + 1, self.reserve_fraction);
        }
        if self.len < self.shape.max_insertions {
            return true;
        }
        match self.next_growth_slots(self.len.saturating_add(1)) {
            Some(slots) => {
                proof {
                    self.lemma_grown_layout(slots as nat);
                }
                funnel_layout::<K, V>(slots).is_ok()
            },
            None => false,
        }
    }

    /// While there is room, the entry goes to the first free slot of its probe
    /// order; where there is none, to the first free slot of the table, which counts
    /// as a placement recovery.
    fn insert_for_vacant(&mut self, key: K, value: V, hash: u64) -> (result: usize)
        ensures
            old(self).entries().len() < old(self).limit() ==> match old(self).paper_search(
                key,
                hash,
            ) {
                SearchResult::Vacant(slot) => {
                    &&& result == slot
                    &&& final(self).lifecycle() == old(self).lifecycle()
                },
                _ => {
                    &&& old(self).is_first_free(result)
                    &&& final(self).lifecycle() == old(self).lifecycle().recovered(
                        EpochTransition::PlacementRecovery,
                    )
                },
            },
    {
        let ghost before = *self;
        self.prepare_vacant_insert();
        let ghost grown = *self;
        proof {
            control::law_sentinels_are_not_fingerprints(hash);
        }
        let fingerprint: u8 = control::control_fingerprint(hash);
        let exact: SearchResult = self.search_exact_for_insert(&key, hash, fingerprint);
        let slot: usize = self.place_absent_after_search(key, value, hash, fingerprint, exact);
        proof {
            before.lemma_placed(grown, *self, key, value);
        }
        slot
    }

    /// While there is room, a new key goes to the first free slot of its probe order;
    /// where there is none, to the first free slot of the table, which counts as a
    /// placement recovery.
    fn insert(&mut self, key: K, value: V, hash: u64) -> (result: Option<V>)
        ensures
            table::stored(old(self).entries(), key) is None && old(self).entries().len()
                < old(self).limit() ==> match old(self).paper_search(key, hash) {
                SearchResult::Vacant(slot) => {
                    &&& final(self).key_at(slot) == Some(key)
                    &&& final(self).lifecycle() == old(self).lifecycle()
                },
                _ => {
                    &&& exists|slot: usize| #[trigger]
                        old(self).is_first_free(slot) && final(self).key_at(slot) == Some(key)
                    &&& final(self).lifecycle() == old(self).lifecycle().recovered(
                        EpochTransition::PlacementRecovery,
                    )
                },
            },
    {
        proof {
            control::law_sentinels_are_not_fingerprints(hash);
            self.lemma_key_query(key, hash);
            self.lemma_search_is_complete(key, hash);
        }
        let fingerprint: u8 = control::control_fingerprint(hash);
        let mut exact: SearchResult = self.search_exact_for_insert(&key, hash, fingerprint);
        if let SearchResult::Hit(slot) = exact {
            return Some(self.replace_value(slot, value));
        }
        if self.exceptional_placement {
            let found: Option<usize> = self.find_by_full_scan(&key, fingerprint);
            proof {
                self.lemma_full_scan(key, hash, found);
            }
            if let Some(slot) = found {
                return Some(self.replace_value(slot, value));
            }
        }
        let ghost before = *self;
        if self.prepare_vacant_insert() {
            exact = self.search_exact_for_insert(&key, hash, fingerprint);
        }
        let ghost grown = *self;
        self.place_absent_after_search(key, value, hash, fingerprint, exact);
        proof {
            before.lemma_placed(grown, *self, key, value);
        }
        None
    }

    fn remove(&mut self, loc: usize) -> (result: (K, V)) {
        let removed: (K, V) = self.bury(loc);
        self.settle();
        removed
    }

    fn extract_finish(&mut self, loc: usize) -> (result: (K, V)) {
        let removed: (K, V) = self.bury(loc);
        proof {
            self.lemma_len();
            assert forall|gone: Set<K>| gone.subset_of(
                self.entries().dom(),
            ) implies #[trigger] self.cleanup_due_without(gone) == old(self).cleanup_due_without(
                gone.insert(removed.0),
            ) by {
                vstd::set_lib::lemma_set_subset_finite(self.entries().dom(), gone);
            }
        }
        removed
    }

    fn finish_deferred_removals(&mut self) {
        self.settle();
    }

    #[inline]
    fn scan(&self) -> (result: usize) {
        0
    }

    fn scan_next(&self, scan: &mut usize) -> (result: Option<usize>) {
        let ghost start = *scan;
        while *scan < self.shape.n
            invariant
                self.inv(),
                start == *old(scan),
                start <= *scan <= self.shape.n,
                forall|slot: int|
                    start <= slot < *scan ==> (#[trigger] self.storage.values()[slot]) is None,
            decreases self.shape.n - *scan,
        {
            let slot: usize = *scan;
            *scan = slot + 1;
            if self.storage.control_at(slot).is_occupied() {
                proof {
                    assert forall|key: K| #[trigger] self.pending(*scan, key) <==> self.pending(
                        start,
                        key,
                    ) && key != self.key_at(slot)->0 by {
                        if self.index@.contains_key(key) {
                            assert(self.storage.values()[self.index@[key] as int] is Some);
                        }
                    }
                }
                return Some(slot);
            }
        }
        proof {
            assert forall|key: K| !self.pending(start, key) && !#[trigger] self.pending(
                *scan,
                key,
            ) by {
                if self.index@.contains_key(key) {
                    assert(self.storage.values()[self.index@[key] as int] is Some);
                }
            }
        }
        None
    }

    fn grow_capacity_for(&self, needed: usize) -> (result: Option<usize>) {
        self.next_growth_slots(needed)
    }

    fn resize(&mut self, new_capacity: usize) {
        proof {
            self.lemma_len();
        }
        self.resize_with_transition(new_capacity, EpochTransition::ExplicitResize);
    }

    fn try_resize(&mut self, new_capacity: usize) -> (result: Result<(), TryReserveError>) {
        proof {
            self.lemma_len();
        }
        self.try_resize_exact(new_capacity)
    }

    fn shrink_to(&mut self, min_capacity: usize) {
        proof {
            self.lemma_len();
            capacity::law_insertion_limit_bounds(0, self.reserve_fraction);
        }
        if self.len == 0 && min_capacity == 0 {
            if self.shape.n != 0 {
                self.resize_with_transition(0, EpochTransition::ExplicitResize);
            }
            return;
        }
        let requested: usize = if self.len >= min_capacity {
            self.len
        } else {
            min_capacity
        };
        if let Some(slots) = insert_budget_slots(requested, self.reserve_fraction) {
            if slots < self.shape.n {
                self.resize_with_transition(slots, EpochTransition::ExplicitResize);
            }
        }
    }

    fn clear(&mut self) {
        self.wipe_all();
    }

    fn wipe_all(&mut self) {
        self.storage.clear_all_controls();
        self.len = 0;
        self.tombstones = 0;
        self.exceptional_placement = false;
        self.index = Ghost(Map::empty());
        self.epoch.start(EpochTransition::Clear);
        proof {
            slots::lemma_counts_of_empty(self.storage.controls());
            assert forall|slot: int| 0 <= slot < self.shape.n implies (
            #[trigger] self.storage.values()[slot]) is None by {
                assert(self.storage.controls()[slot] == CTRL_EMPTY);
            }
            assert(self.stored_entries() =~= Map::<K, V>::empty());
        }
    }

    fn with_capacity_and_reserve_and_hasher(
        capacity: usize,
        reserve: ReserveFraction,
        hash_builder: S,
    ) -> (result: Self) {
        let slots: usize = insert_budget_slots(capacity, reserve).unwrap();
        let shape: FunnelShape = FunnelShape::of_slots(slots, reserve);
        let storage: Slots<SlotEntry<K, V>> = allocate_storage(slots);
        FunnelTable::from_shape(shape, storage, reserve, hash_builder, EpochState::initial())
    }

    fn try_with_capacity_and_reserve_and_hasher(
        capacity: usize,
        reserve: ReserveFraction,
        hash_builder: S,
    ) -> (result: Result<Self, TryBuildError>) {
        if reserve.exponent() < 3 {
            return Err(
                TryBuildError::FunnelDeltaLog2BelowMinimum {
                    delta_log2: reserve.exponent(),
                    minimum: 3,
                },
            );
        }
        match insert_budget_slots(capacity, reserve) {
            Some(slots) => match try_lay_out::<K, V>(slots, reserve) {
                Ok((shape, storage)) => Ok(
                    FunnelTable::from_shape(
                        shape,
                        storage,
                        reserve,
                        hash_builder,
                        EpochState::initial(),
                    ),
                ),
                Err(error) => Err(TryBuildError::from(error)),
            },
            None => Err(TryBuildError::CapacityOverflow),
        }
    }

    fn clone_table(&self) -> (result: Self) where K: Clone, V: Clone, S: Clone {
        let hash_builder: S = self.hash_builder.clone();
        let copy: Self = FunnelTable {
            shape: self.shape.copy(),
            storage: self.storage.clone_region(),
            len: self.len,
            tombstones: self.tombstones,
            reserve_fraction: self.reserve_fraction,
            hash_builder,
            epoch: self.epoch,
            exceptional_placement: self.exceptional_placement,
            index: Ghost(Map::empty()),
        };
        let mut result: Self = copy;
        proof {
            result.index@ = self.cloned_index(copy.storage.values());
            self.lemma_clone(result);
        }
        result
    }
}

impl<K: Eq + Clone, V: Clone, S: HashBuilder<K> + Clone> FunnelTable<K, V, S> {
    /// The index of a table whose slots hold clones of this table's.
    closed spec fn cloned_index(&self, values: Seq<Option<SlotEntry<K, V>>>) -> Map<K, nat> {
        Map::new(
            |key: K| exists|slot: int| holds_key(values, slot, key),
            |key: K| (choose|slot: int| holds_key(values, slot, key)) as nat,
        )
    }

    /// Clones of equal keys in the same slots make a table.
    proof fn lemma_clone(&self, copy: Self)
        requires
            self.inv(),
            table::clones_are_equal::<K>(),
            table::clones_hash_alike::<K, S>(self.hash_builder),
            cloned::<S>(self.hash_builder, copy.hash_builder),
            copy.shape.same_as(self.shape),
            copy.shape.wf(),
            copy.shape.is_for(copy.shape.n as nat, copy.reserve_fraction),
            copy.storage.wf(),
            copy.storage.controls() == self.storage.controls(),
            copy.storage.values().len() == self.storage.values().len(),
            forall|slot: int|
                0 <= slot < self.storage.values().len() ==> match (
                    self.storage.values()[slot],
                    #[trigger] copy.storage.values()[slot],
                ) {
                    (Some(value), Some(copied)) => cloned::<SlotEntry<K, V>>(value, copied),
                    (None, None) => true,
                    _ => false,
                },
            copy.len == self.len,
            copy.tombstones == self.tombstones,
            copy.reserve_fraction == self.reserve_fraction,
            copy.exceptional_placement == self.exceptional_placement,
            copy.index@ == self.cloned_index(copy.storage.values()),
        ensures
            copy.inv(),
            table::all_cloned(self.stored_entries(), copy.stored_entries()),
    {
        let from = self.storage.values();
        let to = copy.storage.values();
        assert forall|slot: int| 0 <= slot < to.len() && (#[trigger] to[slot]) is Some implies (
        from[slot] is Some && cloned::<K>(from[slot]->0.key, to[slot]->0.key) && cloned::<V>(
            from[slot]->0.value,
            to[slot]->0.value,
        ) && hashing::same_key(from[slot]->0.key, to[slot]->0.key)) by {
            assert(cloned::<SlotEntry<K, V>>(from[slot]->0, to[slot]->0));
        }
        assert forall|left: int, right: int|
            0 <= left < to.len() && 0 <= right < to.len() && (#[trigger] to[left]) is Some && (
            #[trigger] to[right]) is Some && hashing::same_key(
                to[left]->0.key,
                to[right]->0.key,
            ) implies left == right by {
            let first = from[left]->0.key;
            let second = from[right]->0.key;
            assert(hashing::same_key(first, to[left]->0.key));
            assert(hashing::same_key(first, to[right]->0.key));
            assert(hashing::same_key(second, to[right]->0.key));
            assert(hashing::same_key(to[right]->0.key, second));
            assert(hashing::same_key(first, second));
        }
        assert forall|slot: int| 0 <= slot < to.len() && (
        #[trigger] to[slot]) is Some implies copy.index@.contains_key(to[slot]->0.key)
            && copy.index@[to[slot]->0.key] == slot by {
            let key = to[slot]->0.key;
            assert(holds_key(to, slot, key));
            let chosen = choose|slot: int| holds_key(to, slot, key);
            assert(hashing::same_key(key, key));
            assert(holds_key(to, chosen, key));
        }
        assert forall|key: K| #[trigger] copy.index@.contains_key(key) implies holds_key(
            to,
            copy.index@[key] as int,
            key,
        ) by {
            let chosen = choose|slot: int| holds_key(to, slot, key);
            assert(holds_key(to, chosen, key));
        }
        assert(copy.index_inv());
        assert forall|slot: int| 0 <= slot < copy.shape.n && (#[trigger] to[slot]) is Some implies ({
            let hash = copy.hash_builder.hash_of(to[slot]->0.key);
            &&& copy.controls()[slot] == control::fingerprint(hash)
            &&& copy.exceptional_placement || funnel_search::reaches(
                copy.controls(),
                funnel_search::trail(copy.shape, hash).cells,
                slot as nat,
            )
        }) by {
            let hash = copy.hash_builder.hash_of(to[slot]->0.key);
            assert(hashing::same_key(from[slot]->0.key, to[slot]->0.key));
            assert(self.hash_builder.hash_of(from[slot]->0.key) == hash);
            funnel_search::lemma_same_trail(copy.shape, self.shape, hash);
        }
        self.lemma_len();
        self.lemma_clone_counts(copy);
    }

    /// The clone has as many entries, one for one.
    proof fn lemma_clone_counts(&self, copy: Self)
        requires
            self.inv(),
            copy.storage.values().len() == self.storage.values().len(),
            forall|slot: int|
                0 <= slot < copy.storage.values().len() ==> ((
                #[trigger] copy.storage.values()[slot]) is Some
                    <==> self.storage.values()[slot] is Some),
            forall|slot: int|
                0 <= slot < copy.storage.values().len() && (
                #[trigger] copy.storage.values()[slot]) is Some ==> cloned::<K>(
                    self.storage.values()[slot]->0.key,
                    copy.storage.values()[slot]->0.key,
                ) && cloned::<V>(
                    self.storage.values()[slot]->0.value,
                    copy.storage.values()[slot]->0.value,
                ),
            indexes(copy.index@, copy.storage.values()),
        ensures
            copy.index@.dom().finite(),
            copy.index@.len() == self.index@.len(),
            table::all_cloned(self.stored_entries(), copy.stored_entries()),
    {
        let from = self.storage.values();
        let to = copy.storage.values();
        let renamed = |key: K| to[self.index@[key] as int]->0.key;
        assert forall|key: K| #[trigger] self.index@.dom().contains(
            key,
        ) implies copy.index@.dom().contains(renamed(key)) by {
            assert(from[self.index@[key] as int] is Some);
            assert(to[self.index@[key] as int] is Some);
        }
        assert forall|left: K, right: K|
            self.index@.dom().contains(left) && self.index@.dom().contains(right)
                && #[trigger] renamed(left) == #[trigger] renamed(right) implies left == right by {
            assert(to[self.index@[left] as int] is Some);
            assert(to[self.index@[right] as int] is Some);
            assert(from[self.index@[left] as int]->0.key == left);
            assert(from[self.index@[right] as int]->0.key == right);
        }
        assert(copy.index@.dom() =~= self.index@.dom().map(renamed)) by {
            assert forall|copied: K| copy.index@.dom().contains(
                copied,
            ) implies self.index@.dom().map(renamed).contains(copied) by {
                let slot = copy.index@[copied] as int;
                assert(to[slot] is Some);
                let key = from[slot]->0.key;
                assert(self.index@.dom().contains(key));
                assert(renamed(key) == copied);
            }
        }
        vstd::set_lib::lemma_map_size(self.index@.dom(), copy.index@.dom(), renamed);
        let before = self.stored_entries();
        let after = copy.stored_entries();
        assert(before.dom() =~= self.index@.dom());
        assert(after.dom() =~= copy.index@.dom());
        assert forall|key: K| #[trigger] before.contains_key(key) implies exists|copied: K|
            after.contains_key(copied) && #[trigger] cloned::<K>(key, copied) && cloned::<V>(
                before[key],
                after[copied],
            ) by {
            let slot = self.index@[key] as int;
            assert(from[slot] is Some && to[slot] is Some);
            let copied = to[slot]->0.key;
            assert(cloned::<K>(key, copied));
        }
        assert forall|copied: K| #[trigger] after.contains_key(copied) implies exists|key: K|
            before.contains_key(key) && #[trigger] cloned::<K>(key, copied) && cloned::<V>(
                before[key],
                after[copied],
            ) by {
            let slot = copy.index@[copied] as int;
            assert(to[slot] is Some && from[slot] is Some);
            let key = from[slot]->0.key;
            assert(cloned::<K>(key, copied));
        }
    }
}

/// Whether a slot holds a key.
pub open spec fn holds_key<K, V>(values: Seq<Option<SlotEntry<K, V>>>, slot: int, key: K) -> bool {
    0 <= slot < values.len() && (values[slot] matches Some(entry) && entry.key == key)
}

impl<K: Eq, V, S: HashBuilder<K>> FunnelTable<K, V, S> {
    /// Grows where the table is at its limit, and says whether it did.
    fn prepare_vacant_insert(&mut self) -> (result: bool)
        requires
            old(self).inv(),
            old(self).has_room(),
        ensures
            final(self).inv(),
            final(self).len < final(self).shape.max_insertions,
            final(self).stored_entries() == old(self).stored_entries(),
            final(self).reserve_fraction == old(self).reserve_fraction,
            final(self).hash_builder == old(self).hash_builder,
            final(self).slot_count() == old(self).slots_for_one_more(),
            result == (old(self).entries().len() >= old(self).limit()),
            !result ==> *final(self) == *old(self),
            result ==> final(self).rebuilt_from(
                old(self),
                old(self).slots_for_one_more(),
                EpochTransition::Growth,
            ),
    {
        proof {
            self.lemma_len();
            Self::lemma_growth(self.slot_count(), self.len as nat + 1, self.reserve_fraction);
        }
        if self.len >= self.shape.max_insertions {
            let slots: usize = self.next_growth_slots(self.len.saturating_add(1)).unwrap();
            self.resize_with_transition(slots, EpochTransition::Growth);
            true
        } else {
            false
        }
    }

    /// The slots that a full table grows to have a layout.
    proof fn lemma_grown_layout(&self, slots: nat)
        requires
            self.reserve_fraction.wf(),
            funnel_growth(self.shape.n as nat, self.len as nat + 1, self.reserve_fraction) == Some(
                slots,
            ),
        ensures
            slots > 0 ==> funnel_shape::has_layout(slots, self.reserve_fraction),
    {
        let needed = self.len as nat + 1;
        let doubled = table::saturated(
            (2 * capacity::insertion_limit(self.shape.n as nat, self.reserve_fraction)) as nat,
        );
        lemma_budget(
            if needed >= doubled {
                needed
            } else {
                doubled
            },
            self.reserve_fraction,
        );
    }

    /// Places an entry whose key is absent; placing it off its probe order
    /// counts as a placement recovery.
    fn place_absent_after_search(
        &mut self,
        key: K,
        value: V,
        key_hash: u64,
        key_fingerprint: u8,
        exact: SearchResult,
    ) -> (result: usize)
        requires
            old(self).inv(),
            old(self).len < old(self).shape.max_insertions,
            key_hash == old(self).hash_builder.hash_of(key),
            key_fingerprint == control::fingerprint(key_hash),
            table::stored(old(self).stored_entries(), key) is None,
            exact == funnel_search::search(
                old(self).controls(),
                key_fingerprint,
                old(self).matcher(key),
                funnel_search::trail(old(self).shape, key_hash),
                None,
            ),
        ensures
            final(self).inv(),
            final(self).stored_entries() == old(self).stored_entries().insert(key, value),
            final(self).same_setting(old(self)),
            final(self).key_at(result) == Some(key),
            match exact {
                SearchResult::Vacant(slot) => result == slot,
                _ => old(self).is_first_free(result),
            },
            final(self).epoch@ == if exact is Vacant {
                old(self).epoch@
            } else {
                old(self).epoch@.recovered(EpochTransition::PlacementRecovery)
            },
            final(self).settled_from(old(self), key, value),
    {
        let ghost before = *self;
        let (slot, exceptional) = self.place_after_search(
            key,
            value,
            key_hash,
            key_fingerprint,
            exact,
        );
        let ghost stored = *self;
        if exceptional {
            self.epoch.start_placement_recovery();
        }
        proof {
            stored.lemma_gained_alike(*self, before, key, value);
        }
        slot
    }

    /// A table with the storage of one with a new entry has that entry.
    proof fn lemma_gained_alike(&self, after: Self, before: Self, key: K, value: V)
        requires
            self.gained(&before, key, value),
            after.same_storage(self),
        ensures
            after.gained(&before, key, value),
    {
        if before.place_of_new(key) is None {
            let loc = choose|loc: usize| #[trigger]
                before.is_first_free(loc) && self.gained_at(&before, key, loc);
            assert(before.is_first_free(loc) && after.gained_at(&before, key, loc));
        }
    }

    /// What settles in a table that was rebuilt with more slots if it was full is
    /// placed.
    proof fn lemma_placed(&self, grown: Self, after: Self, key: K, value: V)
        requires
            if self.entries().len() < self.limit() {
                grown == *self
            } else {
                grown.rebuilt_from(self, self.slots_for_one_more(), EpochTransition::Growth)
            },
            after.settled_from(&grown, key, value),
        ensures
            after.placed_from(self, key, value),
    {
    }
}

impl<K: Eq, V, S: HashBuilder<K>> FunnelTable<K, V, S> {
    /// What the construction's search finds for a key.
    pub open spec fn paper_search(&self, key: K, hash: u64) -> SearchResult {
        funnel_search::search(
            self.controls(),
            control::fingerprint(hash),
            self.matcher(key),
            funnel_search::trail(self.layout(), hash),
            None,
        )
    }

    /// A table of an exact number of slots.
    pub fn try_with_slots_and_reserve_fraction_and_hasher(
        total_slots: usize,
        reserve_fraction: ReserveFraction,
        hash_builder: S,
    ) -> (result: Result<Self, TryReserveError>)
        requires
            reserve_fraction.wf(),
            reserve_fraction.d() >= 3,
            hashing::lawful_keys::<K>(),
            hashing::lawful_hashing::<K, S>(hash_builder),
        ensures
            match result {
                Ok(table) => {
                    &&& table_refusal::<K, V>(total_slots as nat, reserve_fraction) is None
                    &&& table.wf()
                    &&& table.entries() == Map::<K, V>::empty()
                    &&& table.slot_count() == total_slots
                    &&& table.fraction() == reserve_fraction
                    &&& table.builder() == hash_builder
                    &&& table.lifecycle() == EpochModel::fresh()
                    &&& !table.exceptional()
                    &&& forall|loc: usize| !#[trigger] table.buried_at(loc)
                },
                Err(error) => match table_refusal::<K, V>(total_slots as nat, reserve_fraction) {
                    Some(refusal) => error == refusal,
                    None => total_slots > 0 && error == TryReserveError::AllocError,
                },
            },
    {
        match try_lay_out::<K, V>(total_slots, reserve_fraction) {
            Ok((shape, storage)) => Ok(
                FunnelTable::from_shape(
                    shape,
                    storage,
                    reserve_fraction,
                    hash_builder,
                    EpochState::initial(),
                ),
            ),
            Err(error) => Err(error),
        }
    }

    /// The slot layout.
    pub fn shape(&self) -> (result: &FunnelShape)
        requires
            self.wf(),
        ensures
            *result == self.layout(),
            result.is_for(self.slot_count(), self.fraction()),
    {
        &self.shape
    }

    /// Deleted slots that no entry has taken since.
    pub fn tombstones(&self) -> (result: usize)
        requires
            self.wf(),
        ensures
            result == slots::tombstone_count(self.controls()),
    {
        self.tombstones
    }

    /// The control byte of a slot: the fingerprint of the key there, or a free
    /// one.
    pub fn control_at(&self, slot: usize) -> (result: u8)
        requires
            self.wf(),
            slot < self.slot_count(),
        ensures
            result == self.controls()[slot as int],
            match self.key_at(slot) {
                Some(key) => result == control::fingerprint(self.builder().hash_of(key)),
                None => !control::occupied(result),
            },
    {
        proof {
            assert(self.storage.wf());
        }
        self.storage.control_at(slot)
    }
}

/// The slots that hold tombstones.
pub open spec fn tombstones_of<K: Eq, V, S: HashBuilder<K>>(table: FunnelTable<K, V, S>) -> Set<
    int,
> {
    Set::new(|slot: int| 0 <= slot < table.slot_count() && table.buried_at(slot as usize))
}

/// The slots that hold entries.
pub open spec fn filled_slots_of<K: Eq, V, S: HashBuilder<K>>(
    table: FunnelTable<K, V, S>,
) -> Set<int> {
    Set::new(|slot: int| 0 <= slot < table.slot_count() && table.key_at(slot as usize) is Some)
}

/// The counters are those of the tombstones and the entries.
proof fn lemma_counters<K: Eq, V, S: HashBuilder<K>>(table: FunnelTable<K, V, S>)
    requires
        table.inv(),
    ensures
        tombstones_of(table).finite(),
        tombstones_of(table).len() == table.tombstones,
        filled_slots_of(table).finite(),
        filled_slots_of(table).len() == table.entries().len(),
{
    let controls = table.storage.controls();
    slots::law_counts_count_the_slots(controls);
    table.lemma_len();
    assert(tombstones_of(table) =~= Set::new(
        |slot: int| 0 <= slot < controls.len() && controls[slot] == CTRL_TOMBSTONE,
    ));
    assert(filled_slots_of(table) =~= Set::new(
        |slot: int| 0 <= slot < controls.len() && control::occupied(controls[slot]),
    ));
}

/// A Funnel cleanup is due only when more than half of the slots hold tombstones, and at
/// the latest when more than three quarters do; from 256 slots on, when they are 64 more
/// than half. The same holds of a removal, which leaves one more, and of a sweep, which
/// leaves one for each key that it removes.
pub proof fn law_funnel_cleanup_waits_for_half<K: Eq, V, S: HashBuilder<K>>(
    table: FunnelTable<K, V, S>,
    loc: usize,
    gone: Set<K>,
)
    requires
        table.wf(),
    ensures
        ({
            let n = table.slot_count();
            let dead = tombstones_of(table).len();
            &&& table.cleanup_due() ==> 2 * dead > n
            &&& 4 * dead > 3 * n ==> table.cleanup_due()
            &&& table.cleanup_after(loc) ==> 2 * (dead + 1) > n
            &&& 4 * (dead + 1) > 3 * n ==> table.cleanup_after(loc)
            &&& table.cleanup_due_without(gone) ==> 2 * (dead + gone.len()) > n
            &&& 4 * (dead + gone.len()) > 3 * n ==> table.cleanup_due_without(gone)
            &&& 256 <= n && 3 * n <= usize::MAX ==> (table.cleanup_due() <==> dead > n / 2 + 64)
            &&& 256 <= n && 3 * n <= usize::MAX ==> (table.cleanup_after(loc) <==> dead + 1 > n / 2
                + 64)
        }),
{
    lemma_counters(table);
    capacity::law_cleanup_waits_for_half(table.slot_count(), table.tombstones as nat);
    capacity::law_cleanup_waits_for_half(table.slot_count(), table.tombstones as nat + 1);
    capacity::law_cleanup_waits_for_half(
        table.slot_count(),
        table.tombstones as nat + gone.len(),
    );
}

/// A removal from a Funnel table starts an epoch only if more than half of the slots hold
/// tombstones then, and at the latest when more than three quarters do. Else the removed
/// key leaves a tombstone, and the epoch only records the deletion.
pub proof fn law_funnel_removal_keeps_the_epoch<K: Eq, V, S: HashBuilder<K>>(
    before: FunnelTable<K, V, S>,
    after: FunnelTable<K, V, S>,
    loc: usize,
)
    requires
        before.wf(),
        before.key_at(loc) is Some,
        after.removed_from(&before, loc),
    ensures
        ({
            let n = before.slot_count();
            let dead = tombstones_of(before).len() + 1;
            &&& 2 * dead <= n ==> {
                &&& after.lifecycle().generation == before.lifecycle().generation
                &&& after.lifecycle().transition == before.lifecycle().transition
                &&& after.lifecycle().recoveries == before.lifecycle().recoveries
                &&& after.lifecycle().had_delete
                &&& before.lifecycle().deletions < usize::MAX ==> after.lifecycle().deletions
                    == before.lifecycle().deletions + 1
                &&& after.buried_at(loc)
                &&& tombstones_of(after) == tombstones_of(before).insert(loc as int)
            }
            &&& 4 * dead > 3 * n ==> {
                &&& after.lifecycle().transition == EpochTransition::TombstoneCleanup
                &&& tombstones_of(after) == Set::<int>::empty()
            }
        }),
{
    law_funnel_cleanup_waits_for_half(before, loc, Set::empty());
    if before.cleanup_after(loc) {
        let left = choose|left: FunnelTable<K, V, S>| #[trigger]
            left.lost(&before, loc) && after.rebuilt_from(
                &left,
                before.slot_count(),
                EpochTransition::TombstoneCleanup,
            );
        placement::lemma_refilled_without_tombstones::<K, V, FunnelTable<K, V, S>>(
            left,
            after,
            before.slot_count(),
        );
        assert(tombstones_of(after) =~= Set::<int>::empty());
    } else {
        before.lemma_wf();
        before.lemma_one_place(loc);
        assert(after.key_at(loc) is None);
        assert forall|slot: usize| #[trigger]
            after.buried_at(slot) == (before.buried_at(slot) || slot == loc) by {
            if before.key_at(slot) is Some && after.key_at(slot) is None {
                before.lemma_one_place(slot);
            }
        }
        assert(tombstones_of(after) =~= tombstones_of(before).insert(loc as int));
    }
}

impl<K: Eq, V, S: HashBuilder<K>> FunnelTable<K, V, S> {
    /// The key of a live slot stands nowhere else.
    proof fn lemma_one_place(&self, loc: usize)
        requires
            self.inv(),
            self.key_at(loc) is Some,
        ensures
            loc < self.slot_count(),
            forall|other: usize| #[trigger] self.key_at(other) == self.key_at(loc) ==> other == loc,
    {
        assert(self.storage.values()[loc as int] is Some);
        assert forall|other: usize| #[trigger]
            self.key_at(other) == self.key_at(loc) implies other == loc by {
            assert(self.storage.values()[other as int] is Some);
        }
    }
}

/// The probe order of a key in a table.
pub open spec fn probes_of<K: Eq, V, S: HashBuilder<K>>(
    table: FunnelTable<K, V, S>,
    key: K,
) -> funnel_search::Trail {
    funnel_search::trail(table.layout(), table.builder().hash_of(key))
}

/// Whether a slot is the first of a probe order that holds no entry.
pub open spec fn is_first_vacancy<K: Eq, V, S: HashBuilder<K>>(
    table: FunnelTable<K, V, S>,
    cells: Seq<nat>,
    slot: usize,
    at: int,
) -> bool {
    &&& 0 <= at < cells.len()
    &&& cells[at] == slot
    &&& table.key_at(slot) is None
    &&& forall|earlier: int|
        0 <= earlier < at ==> table.key_at((#[trigger] cells[earlier]) as usize) is Some
}

/// The construction places a new key in the first slot of its probe order that holds no
/// entry, be it a tombstone or never used. It has no place only if every slot of the order
/// holds an entry, or the order breaks off and all others on it are tombstones.
pub proof fn law_funnel_places_a_key_in_its_first_vacancy<K: Eq, V, S: HashBuilder<K>>(
    table: FunnelTable<K, V, S>,
    key: K,
)
    requires
        table.wf(),
        table::stored(table.entries(), key) is None,
    ensures
        match table.place_of_new(key) {
            Some(slot) => exists|at: int| #[trigger]
                is_first_vacancy(table, probes_of(table, key).cells, slot, at),
            None => forall|at: int|
                0 <= at < probes_of(table, key).cells.len() ==> table.key_at(
                    (#[trigger] probes_of(table, key).cells[at]) as usize,
                ) is Some || !probes_of(table, key).complete && table.buried_at(
                    probes_of(table, key).cells[at] as usize,
                ),
        },
{
    let hash = table.hash_builder.hash_of(key);
    let controls = table.storage.controls();
    let values = table.storage.values();
    let along = probes_of(table, key);
    let cells = along.cells;
    let fingerprint = control::fingerprint(hash);
    control::law_sentinels_are_not_fingerprints(hash);
    funnel_search::law_trail_stays_in_the_table(table.shape, hash);
    assert forall|i: int|
        0 <= i < cells.len() && controls[#[trigger] cells[i] as int] == fingerprint implies !(
    table.matcher(key))(cells[i] as int) by {
        let slot = cells[i] as int;
        assert(values[slot] is Some);
        let held = values[slot]->0.key;
        if key.stands_for(held) {
            assert(table.entries().contains_key(held));
        }
    }
    funnel_search::lemma_scan_finds_the_first_free(
        controls,
        fingerprint,
        table.matcher(key),
        cells,
        0,
        None,
    );
    assert forall|i: int| 0 <= i < cells.len() implies (control::occupied(
        controls[#[trigger] cells[i] as int],
    ) <==> table.key_at(cells[i] as usize) is Some) by {
        assert(values[cells[i] as int] is Some <==> control::occupied(controls[cells[i] as int]));
    }
    match table.place_of_new(key) {
        Some(slot) => {
            assert(funnel_search::is_first_free_cell(controls, cells, 0, slot));
            let at = choose|at: int| #[trigger]
                funnel_search::first_free_at(controls, cells, 0, slot, at);
            assert(table.key_at(cells[at] as usize) is None);
            assert forall|earlier: int| 0 <= earlier < at implies table.key_at(
                (#[trigger] cells[earlier]) as usize,
            ) is Some by {
                assert(control::occupied(controls[cells[earlier] as int]));
            }
            assert(is_first_vacancy(table, cells, slot, at));
        },
        None => {
            assert forall|at: int| 0 <= at < cells.len() implies table.key_at(
                (#[trigger] cells[at]) as usize,
            ) is Some || !along.complete && table.buried_at(cells[at] as usize) by {
                assert(controls[cells[at] as int] != CTRL_EMPTY);
            }
        },
    }
}

/// A key that enters a Funnel table without entries and tombstones stands at the start of
/// the bucket of the first level that its hash chooses.
pub proof fn law_first_funnel_key_stands_in_the_first_level<K: Eq, V, S: HashBuilder<K>>(
    table: FunnelTable<K, V, S>,
    key: K,
)
    requires
        table.wf(),
        table.slot_count() > 0,
        table.entries() == Map::<K, V>::empty(),
        forall|loc: usize| !#[trigger] table.buried_at(loc),
        funnel_search::bucket_choice(table.layout(), table.builder().hash_of(key), 0) is Some,
    ensures
        table.place_of_new(key) matches Some(slot) && {
            let level = table.layout().levels@[0];
            let bucket = funnel_search::bucket_choice(
                table.layout(),
                table.builder().hash_of(key),
                0,
            )->0;
            &&& level.offset == 0
            &&& bucket < level.bucket_range.upper
            &&& slot == bucket * table.layout().beta
            &&& slot < level.bucket_range.upper * table.layout().beta
        },
{
    let hash = table.hash_builder.hash_of(key);
    let shape = table.shape;
    let cells = probes_of(table, key).cells;
    let level = shape.levels@[0];
    let bucket = funnel_search::bucket_choice(shape, hash, 0)->0;
    law_funnel_places_a_key_in_its_first_vacancy(table, key);
    funnel_search::law_probe_order_visits_the_levels_first(shape, table.reserve_fraction, hash);
    funnel_shape::law_layout_parts_fill_the_slots(shape, shape.n as nat, table.reserve_fraction);
    assert(level.bucket_range.upper > 0);
    probe::law_choices_are_in_range(
        FunnelPrf { seed: FUNNEL_PROBE_SEED },
        hash,
        ProbeDomain::FunnelOrdinary { level: 0 },
        0,
        level.bucket_range.upper as nat,
        8,
    );
    assert(funnel_search::buckets_drawn(shape, hash, 0, 0));
    assert(0 * shape.beta == 0) by (nonlinear_arith);
    assert(funnel_search::holds_run(cells, 0, bucket * shape.beta, shape.beta as int));
    assert(cells[0] == bucket * shape.beta);
    table.lemma_wf();
    funnel_search::law_trail_stays_in_the_table(shape, hash);
    assert(table.key_at(cells[0] as usize) is None) by {
        if table.key_at(cells[0] as usize) is Some {
            assert(table.storage.values()[cells[0] as int] is Some);
            assert(table.entries().contains_key(table.key_at(cells[0] as usize)->0));
        }
    }
    assert(bucket * shape.beta < level.bucket_range.upper * shape.beta) by (nonlinear_arith)
        requires
            bucket < level.bucket_range.upper,
            shape.beta > 0,
    ;
    match table.place_of_new(key) {
        Some(slot) => {
            let at = choose|at: int| #[trigger] is_first_vacancy(table, cells, slot, at);
            if at > 0 {
                assert(table.key_at(cells[0] as usize) is Some);
            }
        },
        None => {
            assert(!table.buried_at(cells[0] as usize));
            assert(false);
        },
    }
}

/// A Funnel table has the layout of its slot count.
pub proof fn law_funnel_tables_have_their_layout<K: Eq, V, S: HashBuilder<K>>(
    table: FunnelTable<K, V, S>,
)
    requires
        table.wf(),
    ensures
        table.layout().wf(),
        table.layout().n == table.slot_count(),
        table.layout().is_for(table.slot_count(), table.fraction()),
        table.layout().max_insertions == table.limit(),
        table.fraction().d() >= 3,
{
}

/// A Funnel table lists each of its entries once, in the order of their slots.
pub proof fn law_funnel_entries_are_listed_in_slot_order<K: Eq, V, S: HashBuilder<K>>(
    table: FunnelTable<K, V, S>,
    left: usize,
    right: usize,
    i: int,
    j: int,
)
    requires
        table.wf(),
        0 <= i < table.listed().len(),
        0 <= j < table.listed().len(),
        table.key_at(left) == Some(table.listed()[i].key),
        table.key_at(right) == Some(table.listed()[j].key),
    ensures
        i < j <==> left < right,
        table.listed().len() == table.entries().len(),
        table.entries().contains_key(table.listed()[i].key),
        table.entries()[table.listed()[i].key] == table.listed()[i].value,
{
    let live = table.storage.live_from(0);
    let values = table.storage.values();
    let places = listing::live_slots(values, 0);
    table.lemma_live_entries();
    listing::lemma_lists_len(live, table.stored_entries());
    listing::lemma_live_slots(table.storage, 0);
    assert(values[places[i] as int] == Some(live[i]));
    assert(values[places[j] as int] == Some(live[j]));
    assert(values[left as int] is Some && values[right as int] is Some);
    assert(places[i] == left && places[j] == right);
    if i < j {
        assert(places[i] < places[j]);
    } else if j < i {
        assert(places[j] < places[i]);
    }
}

/// The first free slot of a Funnel table is the one without an entry that comes before all
/// others without.
pub proof fn law_first_free_funnel_slot<K: Eq, V, S: HashBuilder<K>>(
    table: FunnelTable<K, V, S>,
    loc: usize,
)
    requires
        table.wf(),
    ensures
        table.is_first_free(loc) <==> {
            &&& loc < table.slot_count()
            &&& table.key_at(loc) is None
            &&& forall|earlier: usize| earlier < loc ==> (#[trigger] table.key_at(earlier)) is Some
        },
{
    let values = table.storage.values();
    assert forall|slot: usize| slot < table.slot_count() implies (control::occupied(
        table.controls()[slot as int],
    ) <==> (#[trigger] table.key_at(slot)) is Some) by {
        assert(values[slot as int] is Some <==> control::occupied(table.controls()[slot as int]));
    }
    if table.is_first_free(loc) {
        assert forall|earlier: usize| earlier < loc implies (
        #[trigger] table.key_at(earlier)) is Some by {
            assert(control::occupied(table.controls()[earlier as int]));
        }
    }
    if loc < table.slot_count() && table.key_at(loc) is None && (forall|earlier: usize|
        earlier < loc ==> (#[trigger] table.key_at(earlier)) is Some) {
        assert forall|earlier: int| 0 <= earlier < loc implies control::occupied(
            #[trigger] table.controls()[earlier],
        ) by {
            assert(table.key_at(earlier as usize) is Some);
        }
    }
}

/// Unless some entry was placed off its probe order, every key of a Funnel table stands on
/// the probe order of its hash, and no slot before it was never used.
pub proof fn law_funnel_keys_stand_on_their_probe_order<K: Eq, V, S: HashBuilder<K>>(
    table: FunnelTable<K, V, S>,
    loc: usize,
)
    requires
        table.wf(),
        !table.exceptional(),
        table.key_at(loc) is Some,
    ensures
        exists|at: int| #[trigger]
            stands_at(table, probes_of(table, table.key_at(loc)->0).cells, loc, at),
{
    let key = table.key_at(loc)->0;
    let hash = table.hash_builder.hash_of(key);
    let cells = probes_of(table, key).cells;
    let controls = table.storage.controls();
    assert(table.storage.values()[loc as int] is Some);
    assert(funnel_search::reaches(controls, cells, loc as nat));
    let at = choose|at: int| #[trigger] funnel_search::reaches_at(controls, cells, loc as nat, at);
    funnel_search::law_trail_stays_in_the_table(table.shape, hash);
    assert forall|earlier: int| 0 <= earlier < at implies table.key_at(
        (#[trigger] cells[earlier]) as usize,
    ) is Some || table.buried_at(cells[earlier] as usize) by {
        let slot = cells[earlier] as int;
        assert(controls[slot] != CTRL_EMPTY);
        assert(table.storage.values()[slot] is Some <==> control::occupied(controls[slot]));
    }
    assert(stands_at(table, cells, loc, at));
}

/// Whether a slot stands at a position of a probe order, with only entries and tombstones
/// before it.
pub open spec fn stands_at<K: Eq, V, S: HashBuilder<K>>(
    table: FunnelTable<K, V, S>,
    cells: Seq<nat>,
    slot: usize,
    at: int,
) -> bool {
    &&& 0 <= at < cells.len()
    &&& cells[at] == slot
    &&& forall|earlier: int|
        0 <= earlier < at ==> table.key_at((#[trigger] cells[earlier]) as usize) is Some
            || table.buried_at(cells[earlier] as usize)
}

} // verus!
