//! The Funnel construction: geometry, search order, tombstones and lifecycle.

use std::cell::RefCell;
use std::num::NonZeroU32;

use opthash::config::GROUP_SIZE;
use opthash::control::{control_fingerprint, ControlByte, CTRL_EMPTY, CTRL_TOMBSTONE};
use opthash::funnel::FunnelTable;
use opthash::funnel_scan::{scan_clean_funnel_bucket, scan_funnel_bucket, BucketScanResult};
use opthash::funnel_search::{FUNNEL_PROBE_SEED, RANGE_WORD_CAP};
use opthash::funnel_shape::FunnelShape;
use opthash::geometry::{FunnelPlan, PaperConfig};
use opthash::probe::{unbiased_probe_index, FunnelPrf, ProbeDomain, ProbeOracle};
use opthash::reduction::RangeReductionError;
use opthash::table::TableBackend;
use opthash::{
    EpochTransition, FunnelHashMap, HashBuilder, ReserveFraction, TryBuildError, TryReserveError,
};

/// Hashes a `u64` to itself, so test keys double as their own hashes.
#[derive(Clone, Copy)]
struct IdentityBuildHasher;

impl HashBuilder<u64> for IdentityBuildHasher {
    fn hash_of(&self, key: u64) -> u64 {
        key
    }

    fn hash_one(&self, key: &u64) -> u64 {
        *key
    }
}

/// Hashes every key to one value.
#[derive(Clone, Copy)]
struct ConstHashBuilder(u64);

impl HashBuilder<u64> for ConstHashBuilder {
    fn hash_of(&self, _: u64) -> u64 {
        self.0
    }

    fn hash_one(&self, _: &u64) -> u64 {
        self.0
    }
}

fn table_of<S: HashBuilder<u64>>(n: usize, d: u32, hash_builder: S) -> FunnelTable<u64, u64, S> {
    FunnelTable::try_with_slots_and_reserve_fraction_and_hasher(
        n,
        ReserveFraction::from_exponent(d).unwrap(),
        hash_builder,
    )
    .unwrap()
}

fn raw_table(n: usize, d: u32) -> FunnelTable<u64, u64, IdentityBuildHasher> {
    table_of(n, d, IdentityBuildHasher)
}

fn location_of<S: HashBuilder<u64>>(table: &FunnelTable<u64, u64, S>, key: u64) -> Option<usize> {
    let hash = table.hasher().hash_one(&key);
    table.find(&key, hash, control_fingerprint(hash))
}

#[test]
fn selector_finds_known_minimum_exact_geometries() {
    for &(d, expected) in &[
        (3, 144),
        (4, 344),
        (6, 1_372),
        (8, 5_472),
        (9, 10_924),
        (10, 21_856),
    ] {
        let reserve = ReserveFraction::from_exponent(d).unwrap();
        let shape = FunnelShape::for_insert_budget(1, reserve).unwrap();
        assert_eq!(shape.n, expected, "d={d}");
        assert!(PaperConfig::new(shape.n, d).unwrap().funnel_plan().is_ok());
    }
}

#[test]
fn selector_reuses_a_geometry_at_its_reported_capacity() {
    let reserve = ReserveFraction::from_exponent(3).unwrap();
    for requested in 1..512 {
        let selected = FunnelShape::for_insert_budget(requested, reserve).unwrap();
        let at_capacity =
            FunnelShape::for_insert_budget(selected.max_insertions, reserve).unwrap();
        assert_eq!(at_capacity.n, selected.n, "request={requested}");
        assert_eq!(at_capacity.max_insertions, selected.max_insertions);
    }
    let headline = FunnelShape::for_insert_budget(28_672, reserve).unwrap();
    assert_eq!(headline.n, 32_767);
    assert_eq!(headline.max_insertions, 28_672);
}

#[test]
fn funnel_locations_match_the_independent_scalar_oracle() {
    for &(n, d) in &[(144, 3), (344, 4), (1_372, 6), (5_472, 8), (21_856, 10)] {
        let config = PaperConfig::new(n, d).unwrap();
        let mut scalar = ScalarFunnel::new(
            config,
            FunnelPrf::new(FUNNEL_PROBE_SEED),
            NonZeroU32::new(RANGE_WORD_CAP).unwrap(),
        );
        let mut table = raw_table(n, d);
        let mut locations = Vec::with_capacity(config.target_insertions());
        for identity in 0..config.target_insertions() as u64 {
            let (result, _) = scalar.insert(identity).unwrap();
            let ScalarFunnelInsert::Inserted(expected) = result else {
                panic!("scalar insertion failed at {identity}");
            };
            assert_eq!(table.insert(identity, identity ^ 0x55, identity), None);
            let actual = location_of(&table, identity).unwrap();
            assert_eq!(actual, expected.global_slot(), "n={n} key={identity}");
            locations.push((identity, actual));
        }
        assert_eq!(table.len(), scalar.len());
        for &(identity, location) in &locations {
            assert_eq!(
                location_of(&table, identity),
                Some(location),
                "moved n={n} key={identity}"
            );
        }

        let duplicate = config.target_insertions() as u64 / 2;
        let len = table.len();
        assert_eq!(
            table.insert(duplicate, u64::MAX, duplicate),
            Some(duplicate ^ 0x55)
        );
        assert_eq!(table.len(), len);
        assert_eq!(
            location_of(&table, duplicate),
            Some(locations[duplicate as usize].1)
        );

        let absent = config.target_insertions() as u64 + 1_000_000;
        assert_eq!(location_of(&table, absent), None);
    }
}

#[test]
fn funnel_search_reaches_primary_and_alternating_fallback_in_order() {
    fn sample(identity: u64, domain: ProbeDomain, logical: u64, upper: usize) -> usize {
        unbiased_probe_index(
            &FunnelPrf::new(FUNNEL_PROBE_SEED),
            identity,
            domain,
            logical,
            upper,
            RANGE_WORD_CAP,
        )
        .unwrap()
        .index
    }

    let shape = FunnelShape::from_slots(32_768, ReserveFraction::default()).unwrap();
    let fallback_count = shape.fallback_bucket_range.upper();
    let identity = (0..10_000_u64)
        .find(|&identity| {
            sample(
                identity,
                ProbeDomain::FunnelSpecialFallbackChoiceA,
                0,
                fallback_count,
            ) != sample(
                identity,
                ProbeDomain::FunnelSpecialFallbackChoiceB,
                0,
                fallback_count,
            )
        })
        .unwrap();

    // Keys that all hash alike fill one probe order from its start.
    let mut expected = Vec::new();
    for (level_index, level) in shape.levels.iter().enumerate() {
        let bucket = sample(
            identity,
            ProbeDomain::FunnelOrdinary {
                level: level_index as u64,
            },
            0,
            level.bucket_range.upper(),
        );
        let start = level.offset + bucket * shape.beta;
        expected.extend(start..start + shape.beta);
    }
    for logical in 0..shape.loglog_ceiling {
        let local = sample(
            identity,
            ProbeDomain::FunnelSpecialPrimary,
            logical as u64,
            shape.primary_range.upper(),
        );
        let slot = shape.primary_offset + local;
        if !expected.contains(&slot) {
            expected.push(slot);
        }
    }
    let bucket_a = sample(
        identity,
        ProbeDomain::FunnelSpecialFallbackChoiceA,
        0,
        fallback_count,
    );
    let bucket_b = sample(
        identity,
        ProbeDomain::FunnelSpecialFallbackChoiceB,
        0,
        fallback_count,
    );
    assert_ne!(bucket_a, bucket_b);
    let width = shape.fallback_bucket_width;
    for lane in 0..width {
        expected.push(shape.fallback_offset + bucket_a * width + lane);
        expected.push(shape.fallback_offset + bucket_b * width + lane);
    }

    let mut table = table_of(32_768, 3, ConstHashBuilder(identity));
    for (key, &slot) in expected.iter().enumerate() {
        assert_eq!(table.insert_for_vacant(key as u64, key as u64, identity), slot, "key={key}");
    }
    let last = expected.len() as u64 - 1;
    let direct = table
        .find_entry(&last, identity, control_fingerprint(identity))
        .unwrap();
    assert!(std::ptr::eq(direct, table.slot_ref(expected[last as usize])));

    // The probe order is full: the next key goes elsewhere and is still found.
    let before = table.epoch_snapshot();
    let slot = table.insert_for_vacant(u64::MAX, 7, identity);
    assert!(!expected.contains(&slot));
    let after = table.epoch_snapshot();
    assert_eq!(after.transition, EpochTransition::PlacementRecovery);
    assert_eq!(after.placement_recoveries, before.placement_recoveries + 1);
    assert_eq!(location_of(&table, u64::MAX), Some(slot));
}

#[test]
fn exact_geometry_sums_to_n() {
    let mut table = raw_table(512, 3);
    for key in 0..128_u64 {
        table.insert_for_vacant(key, key, key);
    }
    let shape = table.shape();
    let ordinary_slots = shape
        .levels
        .iter()
        .map(|level| level.bucket_range.upper() * shape.beta)
        .sum::<usize>();
    assert_eq!(
        ordinary_slots
            + shape.primary_range.upper()
            + shape.fallback_bucket_range.upper() * shape.fallback_bucket_width,
        shape.n
    );
    assert_eq!(table.total_slots(), shape.n);
}

#[test]
fn tombstones_never_hide_survivors_and_are_reused() {
    let mut table = table_of(512, 3, ReuseSeven);
    for key in 0..200_u64 {
        table.insert_for_vacant(key, key, key);
    }
    let removed = location_of(&table, 7).unwrap();
    let (key, value) = table.remove(removed);
    assert_eq!((key, value), (7, 7));
    for key in 0..200_u64 {
        if key != 7 {
            assert!(location_of(&table, key).is_some(), "lost key {key}");
        }
    }
    let tombstones = table.tombstones();
    let replacement = table.insert_for_vacant(10_000, 1, 7);
    assert_eq!(replacement, removed);
    assert_eq!(table.tombstones(), tombstones - 1);
    assert_eq!(table.len(), 200);
}

/// Hashes a key to itself, but one key to the hash of another.
#[derive(Clone, Copy)]
struct ReuseSeven;

impl HashBuilder<u64> for ReuseSeven {
    fn hash_of(&self, key: u64) -> u64 {
        if key == 10_000 {
            7
        } else {
            key
        }
    }

    fn hash_one(&self, key: &u64) -> u64 {
        self.hash_of(*key)
    }
}

#[test]
fn tombstone_before_a_duplicate_does_not_hide_the_duplicate() {
    let mut table = table_of(144, 3, ConstHashBuilder(42));
    let first = table.insert_for_vacant(100, 1, 42);
    let second = table.insert_for_vacant(200, 2, 42);
    assert_ne!(first, second);
    let _ = table.remove(first);

    assert_eq!(table.insert(200, 20, 42), Some(2));
    assert_eq!(table.len(), 1);
    assert_eq!(table.tombstones(), 1);
    assert_eq!(
        table.find(&200, 42, control_fingerprint(42)),
        Some(second)
    );

    let reused = table.insert_for_vacant(300, 3, 42);
    assert_eq!(reused, first);
    assert_eq!(table.tombstones(), 0);
}

#[test]
fn free_funnel_slots_carry_free_control_bytes() {
    let mut table = raw_table(144, 3);
    for key in 0..40_u64 {
        table.insert_for_vacant(key, key, key);
    }
    let removed = location_of(&table, 5).unwrap();
    let _ = table.remove(removed);
    assert_eq!(table.control_at(removed), CTRL_TOMBSTONE);
    let live = (0..144).filter(|&slot| table.control_at(slot).is_occupied()).count();
    assert_eq!(live, table.len());
}

#[test]
fn refused_layouts_are_typed() {
    let reserve = ReserveFraction::default();
    assert!(matches!(
        FunnelTable::<u64, u64, IdentityBuildHasher>::
            try_with_slots_and_reserve_fraction_and_hasher(128, reserve, IdentityBuildHasher),
        Err(TryReserveError::CapacityOverflow)
    ));
    let quarter = ReserveFraction::from_exponent(2).unwrap();
    assert!(matches!(
        FunnelHashMap::<u64, u64>::try_with_capacity_and_reserve(10, quarter),
        Err(TryBuildError::FunnelDeltaLog2BelowMinimum { delta_log2: 2, minimum: 3 })
    ));
    assert!(matches!(
        FunnelHashMap::<u64, u64>::try_with_capacity_and_reserve(usize::MAX, reserve),
        Err(TryBuildError::CapacityOverflow)
    ));
}

#[test]
fn vector_bucket_scan_matches_scalar_order_for_every_default_pattern() {
    const FP: u8 = 7;
    const OTHER: u8 = 1;
    const WIDTH: usize = 6;
    const PATTERN_COUNT: usize = 4_usize.pow(6);
    let states = [CTRL_EMPTY, CTRL_TOMBSTONE, OTHER, FP];

    for encoded in 0..PATTERN_COUNT {
        let mut controls = [FP; WIDTH + GROUP_SIZE - 1];
        let mut value = encoded;
        for control in &mut controls[..WIDTH] {
            *control = states[value & 3];
            value >>= 2;
        }
        for hit_lane in 0..=WIDTH {
            let expected_hit = (hit_lane < WIDTH).then_some(hit_lane);
            let mut expected_first_tombstone = None;
            let mut expected_compared = Vec::new();
            let mut expected = BucketScanResult::Full;
            for (lane, &control) in controls[..WIDTH].iter().enumerate() {
                if control == CTRL_TOMBSTONE {
                    expected_first_tombstone.get_or_insert(lane);
                } else if control == CTRL_EMPTY {
                    expected =
                        BucketScanResult::Empty(expected_first_tombstone.unwrap_or(lane));
                    break;
                } else if control == FP {
                    expected_compared.push(lane);
                    if Some(lane) == expected_hit {
                        expected = BucketScanResult::Hit(lane);
                        break;
                    }
                }
            }

            let mut actual_first_tombstone = None;
            let actual_compared = RefCell::new(Vec::new());
            let actual = scan_funnel_bucket(
                    &controls,
                    0,
                    WIDTH,
                    FP,
                    &mut actual_first_tombstone,
                    |slot| {
                        actual_compared.borrow_mut().push(slot);
                        Some(slot) == expected_hit
                    },
                );
            assert_eq!(actual, expected, "pattern={encoded} hit={hit_lane}");
            assert_eq!(
                actual_first_tombstone, expected_first_tombstone,
                "pattern={encoded} hit={hit_lane}"
            );
            assert_eq!(actual_compared.into_inner(), expected_compared,
                "pattern={encoded} hit={hit_lane}"
            );

            if !controls[..WIDTH].contains(&CTRL_TOMBSTONE) {
                let clean_compared = RefCell::new(Vec::new());
                let clean = scan_clean_funnel_bucket(&controls, 0, WIDTH, FP, |slot| {
                        clean_compared.borrow_mut().push(slot);
                        Some(slot) == expected_hit
                    });
                assert_eq!(clean, expected, "clean pattern={encoded} hit={hit_lane}");
                assert_eq!(clean_compared.into_inner(), expected_compared,
                    "clean pattern={encoded} hit={hit_lane}"
                );
            }
        }
    }
}

#[test]
#[allow(clippy::too_many_lines)]
fn vector_bucket_scan_preserves_order_across_group_boundaries_and_padding() {
    const FP: u8 = 7;
    const OTHER: u8 = 1;

    fn scalar(
        controls: &[u8],
        start: usize,
        width: usize,
        hit_slot: Option<usize>,
        mut first_tombstone: Option<usize>,
    ) -> (BucketScanResult, Option<usize>, Vec<usize>) {
        let mut compared = Vec::new();
        for (slot, &control) in controls.iter().enumerate().skip(start).take(width) {
            match control {
                CTRL_TOMBSTONE => {
                    first_tombstone.get_or_insert(slot);
                }
                CTRL_EMPTY => {
                    return (
                        BucketScanResult::Empty(first_tombstone.unwrap_or(slot)),
                        first_tombstone,
                        compared,
                    );
                }
                FP => {
                    compared.push(slot);
                    if Some(slot) == hit_slot {
                        return (BucketScanResult::Hit(slot), first_tombstone, compared);
                    }
                }
                _ => {}
            }
        }
        (BucketScanResult::Full, first_tombstone, compared)
    }

    let start = 3;
    for width in [10, 15, 16, 18, 32, 34] {
        for existing_tombstone in [None, Some(1)] {
            let mut controls = vec![OTHER; start + width + GROUP_SIZE - 1];
            let logical_end = start + width;
            for (index, control) in controls[logical_end..].iter_mut().enumerate() {
                *control = if index.is_multiple_of(2) {
                    FP
                } else {
                    CTRL_EMPTY
                };
            }
            let tombstone = start + width / 4;
            let collision = start + (GROUP_SIZE - 1).min(width - 2);
            let hit = start + GROUP_SIZE.min(width - 2);
            controls[tombstone] = CTRL_TOMBSTONE;
            controls[collision] = FP;
            controls[hit] = FP;
            controls[logical_end - 1] = CTRL_EMPTY;

            let expected = scalar(&controls, start, width, Some(hit), existing_tombstone);
            let mut actual_first_tombstone = existing_tombstone;
            let actual_compared = RefCell::new(Vec::new());
            let actual = scan_funnel_bucket(
                    &controls,
                    start,
                    width,
                    FP,
                    &mut actual_first_tombstone,
                    |slot| {
                        actual_compared.borrow_mut().push(slot);
                        slot == hit
                    },
                );
            assert_eq!(actual, expected.0, "width={width}");
            assert_eq!(actual_first_tombstone, expected.1, "width={width}");
            assert_eq!(actual_compared.into_inner(), expected.2, "width={width}");

            controls.fill(OTHER);
            controls[start + width / 2] = CTRL_EMPTY;
            controls[logical_end - 1] = FP;
            controls[logical_end..].fill(FP);
            let expected = scalar(
                &controls,
                start,
                width,
                Some(logical_end - 1),
                existing_tombstone,
            );
            let mut actual_first_tombstone = existing_tombstone;
            let actual_compared = RefCell::new(Vec::new());
            let actual = scan_funnel_bucket(
                    &controls,
                    start,
                    width,
                    FP,
                    &mut actual_first_tombstone,
                    |slot| {
                        actual_compared.borrow_mut().push(slot);
                        slot == logical_end - 1
                    },
                );
            assert_eq!(actual, expected.0, "empty width={width}");
            assert_eq!(actual_first_tombstone, expected.1, "empty width={width}");
            assert_eq!(actual_compared.into_inner(), expected.2, "empty width={width}");
        }
    }
}

#[derive(Clone, Copy, Debug, Eq, PartialEq)]
enum ScalarFunnelLocation {
    Ordinary {
        level: usize,
        bucket: usize,
        slot_in_bucket: usize,
        global_slot: usize,
    },
    SpecialPrimary {
        slot: usize,
        global_slot: usize,
    },
    SpecialFallback {
        bucket: usize,
        slot_in_bucket: usize,
        global_slot: usize,
    },
}

impl ScalarFunnelLocation {
    fn global_slot(self) -> usize {
        match self {
            Self::Ordinary { global_slot, .. }
            | Self::SpecialPrimary { global_slot, .. }
            | Self::SpecialFallback { global_slot, .. } => global_slot,
        }
    }
}

#[derive(Clone, Copy, Debug, Eq, PartialEq)]
enum ScalarFunnelSearch {
    Hit(ScalarFunnelLocation),
    Vacant(ScalarFunnelLocation),
    Full,
}

#[derive(Clone, Copy, Debug, Eq, PartialEq)]
enum ScalarFunnelInsert {
    Inserted(ScalarFunnelLocation),
    Duplicate(ScalarFunnelLocation),
    TargetExhausted,
    FallbackFull,
}

struct ScalarFunnel<O> {
    plan: FunnelPlan,
    oracle: O,
    range_word_cap: u32,
    slots: Vec<Option<u64>>,
    levels: Vec<(usize, usize)>,
    primary_offset: usize,
    fallback_offset: usize,
    len: usize,
}

impl<O: ProbeOracle> ScalarFunnel<O> {
    fn new(config: PaperConfig, oracle: O, range_word_cap: NonZeroU32) -> Self {
        let plan = config.funnel_plan().unwrap();
        let mut offset = 0;
        let levels = plan
            .ordinary_bucket_counts()
            .collect()
            .into_iter()
            .map(|bucket_count| {
                let level = (offset, bucket_count);
                offset += bucket_count * plan.beta();
                level
            })
            .collect();
        let primary_offset = offset;
        let fallback_offset = primary_offset + plan.special_primary_len();
        Self {
            plan,
            oracle,
            range_word_cap: range_word_cap.get(),
            slots: vec![None; config.n()],
            levels,
            primary_offset,
            fallback_offset,
            len: 0,
        }
    }

    fn sample(
        &self,
        identity: u64,
        domain: ProbeDomain,
        logical_index: u64,
        upper: usize,
    ) -> Result<usize, RangeReductionError> {
        unbiased_probe_index(
            &self.oracle,
            identity,
            domain,
            logical_index,
            upper,
            self.range_word_cap,
        )
        .map(|probe| probe.index)
    }

    #[allow(clippy::too_many_lines)]
    fn search(
        &self,
        identity: u64,
    ) -> Result<(ScalarFunnelSearch, u128), RangeReductionError> {
        let mut logical_probes = 0_u128;
        for (level, &(offset, bucket_count)) in self.levels.iter().enumerate() {
            let bucket = self.sample(
                identity,
                ProbeDomain::FunnelOrdinary {
                    level: level as u64,
                },
                0,
                bucket_count,
            )?;
            for slot_in_bucket in 0..self.plan.beta() {
                logical_probes += 1;
                let global_slot = offset + bucket * self.plan.beta() + slot_in_bucket;
                match self.slots[global_slot] {
                    Some(stored) if stored == identity => {
                        return Ok((
                            ScalarFunnelSearch::Hit(ScalarFunnelLocation::Ordinary {
                                level,
                                bucket,
                                slot_in_bucket,
                                global_slot,
                            }),
                            logical_probes,
                        ));
                    }
                    Some(_) => {}
                    None => {
                        return Ok((
                            ScalarFunnelSearch::Vacant(ScalarFunnelLocation::Ordinary {
                                level,
                                bucket,
                                slot_in_bucket,
                                global_slot,
                            }),
                            logical_probes,
                        ));
                    }
                }
            }
        }

        for logical_index in 0..self.plan.loglog_ceiling() {
            let slot = self.sample(
                identity,
                ProbeDomain::FunnelSpecialPrimary,
                logical_index as u64,
                self.plan.special_primary_len(),
            )?;
            logical_probes += 1;
            let global_slot = self.primary_offset + slot;
            match self.slots[global_slot] {
                Some(stored) if stored == identity => {
                    return Ok((
                        ScalarFunnelSearch::Hit(ScalarFunnelLocation::SpecialPrimary {
                            slot,
                            global_slot,
                        }),
                        logical_probes,
                    ));
                }
                Some(_) => {}
                None => {
                    return Ok((
                        ScalarFunnelSearch::Vacant(ScalarFunnelLocation::SpecialPrimary {
                            slot,
                            global_slot,
                        }),
                        logical_probes,
                    ));
                }
            }
        }

        let bucket_a = self.sample(
            identity,
            ProbeDomain::FunnelSpecialFallbackChoiceA,
            0,
            self.plan.fallback_bucket_count(),
        )?;
        let bucket_b = self.sample(
            identity,
            ProbeDomain::FunnelSpecialFallbackChoiceB,
            0,
            self.plan.fallback_bucket_count(),
        )?;
        for slot_in_bucket in 0..self.plan.fallback_bucket_width() {
            for bucket in [bucket_a, bucket_b] {
                logical_probes += 1;
                let global_slot = self.fallback_offset
                    + bucket * self.plan.fallback_bucket_width()
                    + slot_in_bucket;
                match self.slots[global_slot] {
                    Some(stored) if stored == identity => {
                        return Ok((
                            ScalarFunnelSearch::Hit(ScalarFunnelLocation::SpecialFallback {
                                bucket,
                                slot_in_bucket,
                                global_slot,
                            }),
                            logical_probes,
                        ));
                    }
                    Some(_) => {}
                    None => {
                        return Ok((
                            ScalarFunnelSearch::Vacant(ScalarFunnelLocation::SpecialFallback {
                                bucket,
                                slot_in_bucket,
                                global_slot,
                            }),
                            logical_probes,
                        ));
                    }
                }
            }
        }
        Ok((ScalarFunnelSearch::Full, logical_probes))
    }

    fn insert(
        &mut self,
        identity: u64,
    ) -> Result<(ScalarFunnelInsert, u128), RangeReductionError> {
        let (search, probes) = self.search(identity)?;
        let result = match search {
            ScalarFunnelSearch::Hit(location) => ScalarFunnelInsert::Duplicate(location),
            ScalarFunnelSearch::Vacant(_) | ScalarFunnelSearch::Full
                if self.len >= self.plan.config().target_insertions() =>
            {
                ScalarFunnelInsert::TargetExhausted
            }
            ScalarFunnelSearch::Vacant(location) => {
                self.slots[location.global_slot()] = Some(identity);
                self.len += 1;
                ScalarFunnelInsert::Inserted(location)
            }
            ScalarFunnelSearch::Full => ScalarFunnelInsert::FallbackFull,
        };
        Ok((result, probes))
    }

    fn len(&self) -> usize {
        self.len
    }

    fn locations(&self) -> impl Iterator<Item = (ScalarFunnelLocation, u64)> + '_ {
        self.slots
            .iter()
            .enumerate()
            .filter_map(move |(global_slot, identity)| {
                let identity = (*identity)?;
                Some((self.location_at_global_slot(global_slot), identity))
            })
    }

    fn location_at_global_slot(&self, global_slot: usize) -> ScalarFunnelLocation {
        assert!(global_slot < self.slots.len());
        if global_slot < self.primary_offset {
            for (level, &(offset, bucket_count)) in self.levels.iter().enumerate() {
                let level_len = bucket_count * self.plan.beta();
                if global_slot < offset + level_len {
                    let slot_in_level = global_slot - offset;
                    return ScalarFunnelLocation::Ordinary {
                        level,
                        bucket: slot_in_level / self.plan.beta(),
                        slot_in_bucket: slot_in_level % self.plan.beta(),
                        global_slot,
                    };
                }
            }
            unreachable!("ordinary scalar Funnel slot must belong to a level");
        }
        if global_slot < self.fallback_offset {
            return ScalarFunnelLocation::SpecialPrimary {
                slot: global_slot - self.primary_offset,
                global_slot,
            };
        }
        let slot_in_fallback = global_slot - self.fallback_offset;
        ScalarFunnelLocation::SpecialFallback {
            bucket: slot_in_fallback / self.plan.fallback_bucket_width(),
            slot_in_bucket: slot_in_fallback % self.plan.fallback_bucket_width(),
            global_slot,
        }
    }
}


#[derive(Debug)]
struct FunnelFirstBucketOracle {
    ordinary_bucket_counts: Vec<usize>,
    primary_len: usize,
    fallback_bucket_count: usize,
}

impl FunnelFirstBucketOracle {
    fn new(config: PaperConfig) -> Self {
        let plan = config.funnel_plan().unwrap();
        Self {
            ordinary_bucket_counts: plan.ordinary_bucket_counts().collect(),
            primary_len: plan.special_primary_len(),
            fallback_bucket_count: plan.fallback_bucket_count(),
        }
    }
}

impl ProbeOracle for FunnelFirstBucketOracle {
    fn word_of(&self, identity: u64, domain: ProbeDomain, logical: u64, retry: u32) -> u64 {
        self.word(identity, domain, logical, retry)
    }

    fn has_word(&self, _: ProbeDomain, _: u64, _: u32) -> bool {
        true
    }

    fn word(
        &self,
        _identity: u64,
        domain: ProbeDomain,
        _logical_probe_index: u64,
        _rejection_index: u32,
    ) -> u64 {
        let upper = match domain {
            ProbeDomain::FunnelOrdinary { level } => {
                let level = usize::try_from(level).expect("test level must fit usize");
                self.ordinary_bucket_counts[level]
            }
            ProbeDomain::FunnelSpecialPrimary => self.primary_len,
            ProbeDomain::FunnelSpecialFallbackChoiceA
            | ProbeDomain::FunnelSpecialFallbackChoiceB => self.fallback_bucket_count,
            ProbeDomain::ElasticOrdinary { .. } => panic!("unexpected Elastic domain"),
        };
        accepted_word_for_index(0, upper)
    }
}

#[test]
fn funnel_reference_has_a_hand_checked_level_transition() {
    let config = PaperConfig::new(32_768, 3).unwrap();
    let mut scalar = ScalarFunnel::new(
        config,
        FunnelFirstBucketOracle::new(config),
        NonZeroU32::new(1).unwrap(),
    );

    for (identity, slot_in_bucket) in (0_u64..6).zip(0_usize..6) {
        assert_eq!(
            scalar.insert(identity).unwrap(),
            (
                ScalarFunnelInsert::Inserted(ScalarFunnelLocation::Ordinary {
                    level: 0,
                    bucket: 0,
                    slot_in_bucket,
                    global_slot: slot_in_bucket,
                }),
                slot_in_bucket as u128 + 1,
            )
        );
    }
    assert_eq!(
        scalar.insert(6).unwrap(),
        (
            ScalarFunnelInsert::Inserted(ScalarFunnelLocation::Ordinary {
                level: 1,
                bucket: 0,
                slot_in_bucket: 0,
                global_slot: 7_428,
            }),
            7,
        )
    );
    assert_eq!(
        scalar.insert(6).unwrap(),
        (
            ScalarFunnelInsert::Duplicate(ScalarFunnelLocation::Ordinary {
                level: 1,
                bucket: 0,
                slot_in_bucket: 0,
                global_slot: 7_428,
            }),
            7,
        )
    );
    assert_eq!(
        scalar.search(99).unwrap(),
        (
            ScalarFunnelSearch::Vacant(ScalarFunnelLocation::Ordinary {
                level: 1,
                bucket: 0,
                slot_in_bucket: 1,
                global_slot: 7_429,
            }),
            8,
        )
    );
}

#[test]
fn funnel_reference_reports_len_and_occupied_locations() {
    let config = PaperConfig::new(32_768, 3).unwrap();
    let mut scalar = ScalarFunnel::new(
        config,
        FunnelFirstBucketOracle::new(config),
        NonZeroU32::new(1).unwrap(),
    );

    scalar.insert(10).unwrap();
    scalar.insert(20).unwrap();

    assert_eq!(scalar.len(), 2);
    assert_eq!(
        scalar.locations().collect::<Vec<_>>(),
        vec![
            (
                ScalarFunnelLocation::Ordinary {
                    level: 0,
                    bucket: 0,
                    slot_in_bucket: 0,
                    global_slot: 0,
                },
                10,
            ),
            (
                ScalarFunnelLocation::Ordinary {
                    level: 0,
                    bucket: 0,
                    slot_in_bucket: 1,
                    global_slot: 1,
                },
                20,
            ),
        ]
    );
}

#[allow(clippy::cast_possible_truncation)]
fn accepted_word_for_index(index: usize, upper: usize) -> u64 {
    assert!(index < upper);
    let upper = upper as u128;
    let scale = 1_u128 << 64;
    let mut word = ((index as u128) * scale).div_ceil(upper);
    let threshold = (upper as u64).wrapping_neg() % upper as u64;
    loop {
        let product = word * upper;
        if (product >> 64) as usize == index && product as u64 >= threshold {
            return word as u64;
        }
        word += 1;
    }
}

fn listed_slots(table: &FunnelTable<u64, u64, IdentityBuildHasher>) -> Vec<(u64, usize)> {
    let mut found = Vec::new();
    let mut scan = table.scan();
    while let Some(slot) = table.scan_next(&mut scan) {
        found.push((table.slot_ref(slot).key, slot));
    }
    found
}

#[test]
fn a_funnel_growth_stores_the_entries_before_the_new_key() {
    let mut map = FunnelHashMap::with_capacity_and_reserve_and_hasher(
        40,
        ReserveFraction::from_exponent(3).unwrap(),
        IdentityBuildHasher,
    );
    while map.len() < map.capacity() {
        let key = (map.len() as u64).wrapping_mul(0x9e37_79b9_7f4a_7c15);
        map.insert(key, key);
    }
    let recoveries = map.epoch().placement_recoveries;
    let mut order: Vec<u64> = listed_slots(map.table()).into_iter().map(|(key, _)| key).collect();
    assert!(map.takes_one_more());
    map.insert(1, 1);
    assert_eq!(map.epoch().transition, EpochTransition::Growth);
    assert_eq!(map.epoch().placement_recoveries, recoveries);

    order.push(1);
    let mut fresh = raw_table(map.table().total_slots(), 3);
    for key in order {
        fresh.insert_for_vacant(key, key, key);
    }
    assert_eq!(listed_slots(map.table()), listed_slots(&fresh));
}

#[test]
fn no_funnel_key_moves_while_an_epoch_lasts() {
    let mut map = FunnelHashMap::with_capacity_and_reserve_and_hasher(
        400,
        ReserveFraction::from_exponent(3).unwrap(),
        IdentityBuildHasher,
    );
    for number in 0..300_u64 {
        map.insert(number.wrapping_mul(0x9e37_79b9_7f4a_7c15), number);
    }
    let before = listed_slots(map.table());
    let gone = before[30].0;
    assert!(map.remove(&gone).is_some());
    assert_eq!(map.epoch().generation, 0);
    let after = listed_slots(map.table());
    let kept: Vec<_> = before.into_iter().filter(|&(key, _)| key != gone).collect();
    assert_eq!(after, kept);
}
