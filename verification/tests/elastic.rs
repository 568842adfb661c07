//! The Elastic construction: schedule, filter, placement and lifecycle.

use std::cell::Cell;
use std::num::{NonZeroU128, NonZeroU32, NonZeroU64, NonZeroUsize};
use std::rc::Rc;

use opthash::batch::{BatchScheduler, BatchTarget, InsertAction};
use opthash::control::{control_fingerprint, ControlByte};
use opthash::elastic::{
    elastic_arena_layout, ElasticLocation, ElasticTable, ELASTIC_PROBE_BUDGET_C,
};
use opthash::elastic_filter::{
    summary_level, ElasticMetadataWord, ElasticRouteFilter, PreparedElasticKey,
    PreparedElasticRoute, RouteMetadata, ELASTIC_PROBE_SEED, ROUTE_SUMMARY_LEVELS,
};
use opthash::elastic_geometry::{max_elastic_slots, ElasticGeometry};
use opthash::elastic_schedule::{
    elastic_counter_level, first_paper_probe_after, probe_schedule_capacity,
    try_pack_elastic_counter, ProbeSchedule, ELASTIC_LEVEL_LIMIT, QUERY_POSITION_CAP,
    QUERY_PROBE_LIMIT, UNIFORM_SEARCH_CAP,
};
use opthash::funnel_search::RANGE_WORD_CAP;
use opthash::geometry::PaperConfig;
use opthash::layout::layout_for;
use opthash::membership::{refresh_deletes, MembershipKey, SLOTS_PER_WORD};
use opthash::phi::{elastic_dyadic_probe_budget, elastic_phi, elastic_phi_inverse};
use opthash::probe::{unbiased_probe_index, CounterPrf, ProbeDomain, ProbeOracle};
use opthash::table::TableBackend;
use opthash::{
    DefaultHashBuilder, ElasticHashMap, EpochTransition, HashBuilder, ReserveFraction,
    TryReserveError,
};

/// Hashes a `u64` to itself, so test keys double as their own hashes.
#[derive(Clone, Copy)]
struct IdentityBuildHasher;

impl HashBuilder<u64> for IdentityBuildHasher {
    fn hash_of(&self, key: u64) -> u64 {
        key
    }

    fn hash_one(&self, key: &u64) -> u64 {
        *key
    }
}

/// Hashes every key to zero.
#[derive(Clone, Copy)]
struct ConstHashBuilder;

impl HashBuilder<u64> for ConstHashBuilder {
    fn hash_of(&self, _: u64) -> u64 {
        0
    }

    fn hash_one(&self, _: &u64) -> u64 {
        0
    }
}

#[derive(Clone, Copy, Eq, PartialEq)]
struct Zst;

fn identity_table(slots: usize, exponent: u32) -> ElasticTable<u64, u64, IdentityBuildHasher> {
    ElasticTable::try_with_slots_and_reserve_fraction_and_hasher(
        slots,
        ReserveFraction::from_exponent(exponent).unwrap(),
        IdentityBuildHasher,
    )
    .unwrap()
}

fn level_capacities<K: Eq, V, S: HashBuilder<K>>(table: &ElasticTable<K, V, S>) -> Vec<usize> {
    (0..table.level_count()).map(|level| table.level_capacity(level)).collect()
}

fn level_lens<K: Eq, V, S: HashBuilder<K>>(table: &ElasticTable<K, V, S>) -> Vec<usize> {
    (0..table.level_count()).map(|level| table.level_len(level)).collect()
}

fn location_of<K: Eq, V, S: HashBuilder<K>>(
    table: &ElasticTable<K, V, S>,
    key: &K,
) -> Option<ElasticLocation> {
    let hash = table.hasher().hash_one(key);
    table.find(key, hash, control_fingerprint(hash))
}

fn may_contain<K: Eq, V, S: HashBuilder<K>>(table: &ElasticTable<K, V, S>, key: &K) -> bool {
    let hash = table.hasher().hash_one(key);
    table.route_filter(PreparedElasticKey::new(hash)).maybe_present
}

fn assert_exact_trace(
    n: usize,
    reserve_exponent: u32,
    identities: impl IntoIterator<Item = u64>,
) {
    let config = PaperConfig::new(n, reserve_exponent).unwrap();
    let plan = config.elastic_plan();
    let mut table = identity_table(n, reserve_exponent);
    assert_eq!(level_capacities(&table), plan.level_lengths().collect());

    let limits = ScalarElasticLimits::new(
        NonZeroUsize::new(ELASTIC_PROBE_BUDGET_C).unwrap(),
        NonZeroU32::new(RANGE_WORD_CAP).unwrap(),
        NonZeroU64::new(UNIFORM_SEARCH_CAP).unwrap(),
        NonZeroU128::new(u128::from(QUERY_POSITION_CAP)).unwrap(),
    );
    let mut scalar = ScalarElastic::new(config, CounterPrf::new(ELASTIC_PROBE_SEED), limits);

    for identity in identities {
        assert_eq!(
            BatchScheduler::on_insert(table.len(), table.total_slots(), table.capacity()),
            InsertAction::Continue
        );
        let expected = scalar.insert(identity);
        let placement = table.insert_for_vacant(identity, identity, identity);
        let global_slot = level_capacities(&table)[..placement.level].iter().sum::<usize>()
            + placement.slot;

        assert_eq!(placement.level, expected.location.level);
        assert_eq!(placement.slot, expected.location.slot_in_level);
        assert_eq!(global_slot, expected.location.global_slot);
        assert_eq!(
            expected.phi,
            elastic_phi(
                expected.location.level as u128 + 1,
                u128::from(expected.paper_probe)
            )
            .unwrap()
        );
        assert_eq!(level_lens(&table), scalar.level_occupancy());
        assert_eq!(location_of(&table, &identity), Some(placement));
        let query = scalar.query(identity);
        assert_eq!(query.global_slot, global_slot);
        assert!(
            query.found_position <= expected.phi,
            "lookup order visits phi={} no later than placement phi={}",
            query.found_position,
            expected.phi
        );
    }
}

#[test]
fn elastic_placement_matches_the_scalar_paper_model() {
    assert_exact_trace(8, 3, [0, 1, 2, 1523, 2540, 2541, 2542]);
    for &(n, reserve_exponent) in &[(31, 4), (65, 6), (257, 8)] {
        let target = PaperConfig::new(n, reserve_exponent)
            .unwrap()
            .target_insertions();
        assert_exact_trace(
            n,
            reserve_exponent,
            (0..target).map(|identity| identity as u64),
        );
    }
}

#[test]
fn compact_query_counters_cover_every_supported_geometry() {
    assert_eq!(
        elastic_dyadic_probe_budget(1, 1 << 31, u32::MAX, ELASTIC_PROBE_BUDGET_C),
        Ok(7_688)
    );
    assert_eq!(
        PaperConfig::new(max_elastic_slots(), ReserveFraction::default().exponent())
            .unwrap()
            .elastic_plan()
            .level_count(),
        u32::BITS as usize
    );
    assert!(
        ElasticGeometry::for_insert_budget(max_elastic_slots(), ReserveFraction::default())
            .is_none()
    );
    let result = ElasticTable::<u64, u64, IdentityBuildHasher>::
        try_with_slots_and_reserve_fraction_and_hasher(
            max_elastic_slots() + 1,
            ReserveFraction::default(),
            IdentityBuildHasher,
        );
    assert!(matches!(result, Err(TryReserveError::CapacityOverflow)));
    assert!(elastic_phi(1, 383).unwrap() <= u128::from(QUERY_POSITION_CAP));
    assert!(elastic_phi(1, 384).unwrap() > u128::from(QUERY_POSITION_CAP));
    for level in 1..=u128::from(u32::BITS) {
        let first_beyond = first_paper_probe_after(level, u128::from(QUERY_POSITION_CAP));
        assert!(usize::try_from(first_beyond - 1).unwrap() < QUERY_PROBE_LIMIT);
    }

    let capacities = level_capacities(&identity_table(31, 4));
    let mut schedule = ProbeSchedule::try_new(capacities.len()).unwrap();
    schedule.extend(&capacities, QUERY_POSITION_CAP);
    assert!(schedule.len() > 0);
    for index in 0..schedule.len() {
        let route = schedule.route(index);
        assert!(route.level() != 0 || route.logical() != 0);
    }
}

#[test]
fn query_schedule_never_reallocates_within_an_epoch() {
    let capacities = level_capacities(&identity_table(8_192, 3));
    let mut schedule = ProbeSchedule::try_new(capacities.len()).unwrap();

    schedule.extend(&capacities, QUERY_POSITION_CAP);

    assert_eq!(schedule.len(), probe_schedule_capacity(capacities.len()));
}

#[test]
fn query_schedule_caches_each_routes_exact_level_bound() {
    let capacities = level_capacities(&identity_table(8_193, 3));
    let mut schedule = ProbeSchedule::try_new(capacities.len()).unwrap();

    schedule.extend(&capacities, QUERY_POSITION_CAP);

    for index in 0..schedule.len() {
        let route = schedule.route(index);
        assert_eq!(route.range_upper as usize, capacities[route.level()]);
    }
}

#[test]
fn query_schedule_visits_positions_in_order() {
    let capacities = level_capacities(&identity_table(257, 8));
    let mut whole = ProbeSchedule::try_new(capacities.len()).unwrap();
    whole.extend(&capacities, 5_000);
    let mut stepwise = ProbeSchedule::try_new(capacities.len()).unwrap();
    for high in [1, 40, 41, 999, 5_000] {
        stepwise.extend(&capacities, high);
    }
    assert_eq!(whole.len(), stepwise.len());
    let mut previous = 0;
    for index in 0..whole.len() {
        let route = whole.route(index);
        assert_eq!(stepwise.route(index).level(), route.level());
        assert_eq!(stepwise.route(index).logical(), route.logical());
        let phi = elastic_phi(route.level() as u128 + 1, u128::from(route.logical()) + 1).unwrap();
        assert!(phi > previous && phi <= 5_000);
        assert_eq!(
            elastic_phi_inverse(phi),
            Some((route.level() as u128 + 1, u128::from(route.logical()) + 1))
        );
        previous = phi;
    }
}

#[test]
fn packed_counters_give_back_their_level() {
    for level in [0_u64, 1, 17, 31] {
        for logical in [0_u64, 1, 8_191] {
            let counter = try_pack_elastic_counter(level, logical).unwrap();
            assert_eq!(u64::from(elastic_counter_level(counter)), level);
        }
    }
    assert_eq!(try_pack_elastic_counter(32, 0), None);
    assert_eq!(try_pack_elastic_counter(0, 8_192), None);
}

#[test]
fn elastic_geometry_carries_capacity_and_batch_state() {
    for &requested in &[0usize, 1, 127, 1_000, 10_000] {
        let reserve_fraction = ReserveFraction::default();
        let geometry = ElasticGeometry::for_insert_budget(requested, reserve_fraction).unwrap();
        assert!(
            geometry.max_insertions >= requested,
            "requested={requested} max_insertions={}",
            geometry.max_insertions
        );
        assert_eq!(
            geometry.level_capacities.iter().sum::<usize>(),
            geometry.total_slots
        );
        assert_eq!(
            geometry.batch_plan.iter().sum::<usize>(),
            geometry.max_insertions
        );
        if geometry.total_slots >= 2 {
            let config =
                PaperConfig::new(geometry.total_slots, reserve_fraction.exponent()).unwrap();
            let plan = config.elastic_plan();
            assert_eq!(geometry.level_capacities, plan.level_lengths().collect());
            assert_eq!(geometry.batch_plan, plan.batch_quotas().collect());
        }
    }
}

#[test]
fn elastic_metadata_is_appended_without_moving_control_or_data() {
    fn assert_layout<K, V>() {
        for &slots in &[0, 1, 7, 8, 31, 256] {
            let (base, data_offset) = layout_for::<K, V>(slots).unwrap();
            let extended = elastic_arena_layout::<K, V>(slots).unwrap();
            assert_eq!(extended.data_base_off, data_offset);
            if slots == 0 {
                assert_eq!(extended.layout.size, 0);
                assert_eq!(extended.membership.words, 0);
            } else {
                assert_eq!(extended.membership.offset, base.size);
                assert_eq!(extended.membership.words, slots.div_ceil(SLOTS_PER_WORD));
                assert!(extended.layout.size > base.size);
            }
        }
    }

    assert_layout::<u64, u64>();
    assert_layout::<Zst, Zst>();
    assert_layout::<u128, u8>();
    assert!(std::mem::size_of::<ElasticMetadataWord>() <= 2 * SLOTS_PER_WORD);

    let words = RouteMetadata::new(7);
    for hash in 0..1_000 {
        let filter = words.route_filter(PreparedElasticKey::new(hash));
        assert_eq!(filter, ElasticRouteFilter { maybe_present: false, level_mask: 0 });
    }
}

#[test]
fn normal_inserts_advance_batch_scheduler() {
    let mut map: ElasticHashMap<usize, usize> = ElasticHashMap::with_capacity(1024);
    let initial_quota = bootstrap_quota(map.table());
    assert!(
        initial_quota > 0,
        "test requires a non-empty bootstrap batch"
    );

    for key in 0..initial_quota {
        assert_eq!(map.table().next_batch_target(), BatchTarget::Bootstrap);
        map.insert(key, key);
    }
    // Positions below the quota were bootstrap placements; the next insert opens
    // the first level pair.
    assert_eq!(map.table().next_batch_target(), BatchTarget::LevelPair(0));

    map.insert(initial_quota, initial_quota);
    assert_eq!(map.table().next_batch_target(), BatchTarget::LevelPair(0));
}

fn bootstrap_quota<K: Eq, V, S: HashBuilder<K>>(table: &ElasticTable<K, V, S>) -> usize {
    ElasticGeometry::for_slots(table.total_slots(), table.reserve_config()).batch_plan[0]
}

#[test]
fn batch_target_follows_the_live_count_in_both_directions() {
    let mut map: ElasticHashMap<usize, usize> = ElasticHashMap::with_capacity(1024);
    let quota = bootstrap_quota(map.table());
    assert!(quota > 0);

    for key in 0..=quota {
        map.insert(key, key);
    }
    assert_eq!(map.table().next_batch_target(), BatchTarget::LevelPair(0));

    // Two removals put the live count back inside the bootstrap window.
    assert_eq!(map.remove(&0), Some(0));
    assert_eq!(map.remove(&1), Some(1));
    assert_eq!(map.table().next_batch_target(), BatchTarget::Bootstrap);

    // The scalar oracle's prefix-sum rule, restated: batch `i` holds the
    // positions in `[ends[i-1], ends[i])`.
    let plan = ElasticGeometry::for_slots(map.table().total_slots(), ReserveFraction::default())
        .batch_plan;
    let mut total = 0;
    let ends: Vec<usize> = plan
        .iter()
        .map(|quota| {
            total += quota;
            total
        })
        .collect();
    let mut scheduler = BatchScheduler::new(&plan);
    for len in 0..*ends.last().unwrap() {
        let expected = ends.iter().position(|&end| len < end).unwrap();
        let target = scheduler.target(len);
        let index = match target {
            BatchTarget::Bootstrap => 0,
            BatchTarget::LevelPair(pair) => pair + 1,
        };
        assert_eq!(index, expected, "len {len}");
    }
}

/// Churn past the refresh threshold must re-record the filter from the live
/// entries: departed keys are no longer admitted, live keys still are.
#[test]
fn deletes_past_the_threshold_refresh_the_membership_filter() {
    let mut map: ElasticHashMap<u64, u64> = ElasticHashMap::with_capacity(2_048);
    let live = map.capacity() as u64;
    let threshold = refresh_deletes(map.capacity()) as u64;
    for key in 0..live {
        map.insert(key, key);
    }

    // A third of the keys: enough to matter, below every cleanup threshold.
    let departed = (0..live).filter(|key| key % 3 == 0).collect::<Vec<_>>();
    for &key in &departed {
        assert_eq!(map.remove(&key), Some(key));
    }
    assert!(departed.iter().all(|key| may_contain(map.table(), key)));
    assert_eq!(map.table().stale_membership() as u64, departed.len() as u64);
    assert_eq!(map.epoch().generation, 0);

    // Cycling one fresh key re-takes the tombstone it left, so tombstones
    // stay flat and no cleanup rebuild can run before the threshold.
    let churn = live;
    let mut cycles = 0_u64;
    loop {
        map.insert(churn, churn);
        assert_eq!(map.remove(&churn), Some(churn));
        cycles += 1;
        if map.table().stale_membership() == 0 {
            break;
        }
        assert!(cycles <= threshold, "refresh never ran");
    }
    assert_eq!(cycles + departed.len() as u64, threshold + 1);
    assert_eq!(map.epoch().generation, 0, "no rebuild ran");
    assert_eq!(map.table().stale_membership(), 0, "refresh resets the count");

    // Live keys are still recorded and found; departed keys mostly are not.
    for key in (0..live).filter(|key| key % 3 != 0) {
        assert!(may_contain(map.table(), &key));
        assert_eq!(map.get(&key), Some(&key));
    }
    let false_positives = departed
        .iter()
        .filter(|key| may_contain(map.table(), key))
        .count();
    assert!(
        false_positives * 4 < departed.len(),
        "{false_positives} of {} departed keys still pass",
        departed.len()
    );

    // Clearing every entry and refreshing empties the filter completely.
    map.retain(|_, _| false);
    for _ in 0..=threshold {
        if map.table().stale_membership() == 0 {
            break;
        }
        map.insert(churn, churn);
        map.remove(&churn);
    }
    assert_eq!(map.table().stale_membership(), 0);
    assert!((0..live).all(|key| !may_contain(map.table(), &key)));
}

#[test]
fn duplicate_insert_does_not_advance_the_paper_schedule() {
    let mut map: ElasticHashMap<u64, u64> = ElasticHashMap::with_capacity(64);
    assert_eq!(map.insert(7, 11), None);
    let target = map.table().next_batch_target();

    assert_eq!(map.insert(7, 13), Some(11));
    assert_eq!(map.len(), 1);
    assert_eq!(map.table().next_batch_target(), target);
    assert_eq!(map.get(&7), Some(&13));
}

/// Independent restatement of the filter's bit pattern, kept here so a change
/// to the shared derivation has to be deliberate.
fn membership_bits_from_signature(signature: u64) -> u64 {
    let first = signature & 63;
    let second = (signature >> 32) & 63;
    (1_u64 << first) | (1_u64 << second)
}

#[test]
fn compact_prepared_elastic_state_is_register_sized() {
    assert_eq!(std::mem::size_of::<PreparedElasticRoute>(), 8);
    assert_eq!(std::mem::align_of::<PreparedElasticRoute>(), 8);
    assert_eq!(std::mem::size_of::<PreparedElasticKey>(), 16);
    assert_eq!(std::mem::align_of::<PreparedElasticKey>(), 8);
}

#[test]
fn route_summary_saturates_deep_levels_into_the_last_bit() {
    assert_eq!(summary_level(0), 0);
    assert_eq!(
        summary_level(ROUTE_SUMMARY_LEVELS - 2),
        ROUTE_SUMMARY_LEVELS - 2
    );
    assert_eq!(
        summary_level(ROUTE_SUMMARY_LEVELS - 1),
        ROUTE_SUMMARY_LEVELS - 1
    );
    assert_eq!(
        summary_level(ROUTE_SUMMARY_LEVELS),
        ROUTE_SUMMARY_LEVELS - 1
    );
    assert_eq!(summary_level(40), ROUTE_SUMMARY_LEVELS - 1);

    // Expansion is the inverse view: the saturating bit covers every level
    // index at or past it, and a clear bit widens to nothing.
    let filter = |level_mask| ElasticRouteFilter {
        maybe_present: true,
        level_mask,
    };
    assert_eq!(filter(0).expanded_level_mask(), 0);
    assert_eq!(filter(0b101).expanded_level_mask(), 0b101);
    assert_eq!(
        filter(1 << (ROUTE_SUMMARY_LEVELS - 1)).expanded_level_mask(),
        u32::MAX << (ROUTE_SUMMARY_LEVELS - 1)
    );
    let level_limit = usize::try_from(ELASTIC_LEVEL_LIMIT).unwrap();
    for level in 0..level_limit {
        let recorded = filter(1 << summary_level(level)).expanded_level_mask();
        assert_ne!(recorded & (1 << level), 0, "level {level} lost its bit");
    }
}

#[test]
fn route_summary_still_narrows_shallow_levels_on_wide_geometries() {
    let mut map: ElasticHashMap<u64, u64, IdentityBuildHasher> =
        ElasticHashMap::with_capacity_and_hasher(1 << 20, IdentityBuildHasher);
    assert!(
        map.table().level_count() > ROUTE_SUMMARY_LEVELS,
        "fixture needs more levels than the summary width, got {}",
        map.table().level_count()
    );
    let key_count = 4_096_u64;
    for key in 0..key_count {
        map.insert(key, key);
    }
    for key in 0..key_count {
        let prepared = PreparedElasticKey::new(key);
        let mask = map.table().route_filter(prepared).level_mask;
        assert!(mask != 0 && u16::try_from(mask).is_ok(), "mask {mask:#x}");
        assert!(
            mask.count_ones() < u32::try_from(ROUTE_SUMMARY_LEVELS).unwrap(),
            "key {key} mask {mask:#x} must exclude at least one level"
        );
        assert_eq!(map.get(&key), Some(&key));
    }
    assert_eq!(map.get(&(key_count + 1)), None);
}

#[test]
fn prepared_route_keeps_the_geometry_independent_signature() {
    for hash in (0..65_536_u64).map(|value| value.wrapping_mul(0x9e37_79b9_7f4a_7c15)) {
        let route = PreparedElasticRoute::new(hash);
        let signature = route.signature();
        assert_eq!(signature, route.probe.routing_signature());
    }
}

#[test]
fn compact_membership_matches_the_existing_signature_formula() {
    for hash in (0..16_384_u64).map(|value| value.rotate_left(19)) {
        let prepared = PreparedElasticKey::new(hash);
        let signature = prepared.route.signature();
        let expected = membership_bits_from_signature(signature);
        assert_eq!(prepared.membership.bits(), expected);
        for words in [1_usize, 3, 17, 257] {
            let product = u128::from(signature) * u128::try_from(words).unwrap();
            assert_eq!(
                MembershipKey::word(signature, words),
                usize::try_from(product >> 64).unwrap(),
            );
        }
    }
}

#[test]
fn prepared_elastic_key_uses_the_exact_probe_signature() {
    let hash = 0xd1b5_4a32_d192_ed03;
    let prepared = PreparedElasticKey::new(hash);
    assert_eq!(
        prepared.route.signature(),
        prepared.route.probe.routing_signature()
    );
}

#[test]
fn elastic_controls_keep_the_public_hash_fingerprint() {
    let hash = 1_u64;
    assert_ne!(
        control_fingerprint(hash),
        control_fingerprint(PreparedElasticRoute::new(hash).signature())
    );
    let mut map: ElasticHashMap<u64, u64, IdentityBuildHasher> =
        ElasticHashMap::with_capacity_and_hasher(64, IdentityBuildHasher);

    map.insert(hash, 7);
    let location = location_of(map.table(), &hash).unwrap();

    assert_eq!(map.table().control_at(location), control_fingerprint(hash));
}

#[test]
fn route_summary_conservatively_records_every_live_level() {
    let (capacity, key_count, additional) = (4_096, 4_096_u64, 20_000);
    let mut map: ElasticHashMap<u64, u64, IdentityBuildHasher> =
        ElasticHashMap::with_capacity_and_hasher(capacity, IdentityBuildHasher);
    for key in 0..key_count {
        map.insert(key, key ^ 0x55);
    }

    for key in 0..key_count {
        let location = location_of(map.table(), &key).unwrap();
        let prepared = PreparedElasticKey::new(key);
        assert_ne!(
            map.table().route_filter(prepared).level_mask
                & (1_u32 << summary_level(location.level)),
            0,
            "key {key} at level {}",
            location.level
        );
        assert_eq!(map.get(&key), Some(&(key ^ 0x55)));
    }
    assert!(
        level_lens(map.table()).iter().filter(|&&len| len != 0).count() > 1,
        "route summary must cover more than one occupied level"
    );

    let cloned = map.clone();
    for key in 0..key_count {
        assert_eq!(cloned.get(&key), Some(&(key ^ 0x55)));
    }

    map.reserve(additional);
    for key in 0..key_count {
        assert_eq!(map.get(&key), Some(&(key ^ 0x55)));
    }

    map.clear();
    assert!(map.table().level_count() <= ROUTE_SUMMARY_LEVELS);
    for key in 0..key_count {
        let filter = map.table().route_filter(PreparedElasticKey::new(key));
        assert_eq!(filter.level_mask, 0);
    }
}

#[test]
fn prepared_elastic_key_remains_geometry_independent_across_growth() {
    let hash = 0x9e37_79b9_7f4a_7c15;
    let mut map: ElasticHashMap<u64, u64, IdentityBuildHasher> =
        ElasticHashMap::with_capacity_and_hasher(1, IdentityBuildHasher);
    map.insert(hash, 7);
    map.reserve(4_096);
    assert!(may_contain(map.table(), &hash));
    assert_eq!(map.get(&hash), Some(&7));
}

#[test]
fn membership_filter_never_forgets_live_or_deleted_hashes() {
    let mut map: ElasticHashMap<u64, u64, IdentityBuildHasher> =
        ElasticHashMap::with_capacity_and_hasher(64, IdentityBuildHasher);
    assert!(!may_contain(map.table(), &7));

    assert_eq!(map.insert(7, 11), None);
    assert!(may_contain(map.table(), &7));

    assert_eq!(map.insert(7, 13), Some(11));
    assert_eq!(map.len(), 1);
    assert!(may_contain(map.table(), &7));

    assert_eq!(map.remove(&7), Some(13));
    assert!(may_contain(map.table(), &7));
    assert_eq!(map.insert(7, 17), None);
    assert_eq!(map.get(&7), Some(&17));
}

#[test]
fn blocked_membership_never_forgets_inserted_hashes() {
    let mut map: ElasticHashMap<u64, u64, IdentityBuildHasher> =
        ElasticHashMap::with_capacity_and_hasher(2_048, IdentityBuildHasher);
    for key in 0..1_024_u64 {
        map.insert(key, key);
    }
    for key in 0..1_024_u64 {
        assert!(may_contain(map.table(), &key));
    }
}

#[test]
fn prepared_membership_remains_valid_across_growth() {
    let key = 0xD1B5_4A32_D192_ED03_u64;
    let mut map: ElasticHashMap<u64, u64, IdentityBuildHasher> =
        ElasticHashMap::with_capacity_and_hasher(1, IdentityBuildHasher);

    map.insert(key, 7);
    assert!(may_contain(map.table(), &key));
    let old_slots = map.table().total_slots();

    map.reserve(1_024);
    assert!(map.table().total_slots() > old_slots);
    assert!(may_contain(map.table(), &key));
    assert_eq!(map.get(&key), Some(&7));
}

#[test]
fn membership_filter_resets_and_rebuilds_at_table_boundaries() {
    let mut map: ElasticHashMap<u64, u64, IdentityBuildHasher> =
        ElasticHashMap::with_capacity_and_hasher(128, IdentityBuildHasher);
    for key in 0_u64..96 {
        map.insert(key, key ^ 0x55);
    }

    let mut cloned = map.clone();
    for key in 0_u64..96 {
        assert!(may_contain(cloned.table(), &key));
        assert_eq!(cloned.get(&key), Some(&(key ^ 0x55)));
    }

    cloned.clear();
    for key in 0_u64..96 {
        assert!(!may_contain(cloned.table(), &key));
    }

    for key in 256_u64..384 {
        cloned.insert(key, key);
    }
    cloned.reserve(512);
    for key in 256_u64..384 {
        assert!(may_contain(cloned.table(), &key));
        assert_eq!(cloned.get(&key), Some(&key));
    }
}

#[test]
fn all_vacant_entry_apis_record_membership() {
    let mut map: ElasticHashMap<u64, u64, IdentityBuildHasher> =
        ElasticHashMap::with_capacity_and_hasher(128, IdentityBuildHasher);

    assert!(map.try_insert(11, 1).is_ok());
    map.entry(22).or_insert(2);
    map.get_or_insert_key_with(&33_u64, 3, |key| *key);

    for key in [11_u64, 22, 33] {
        assert!(may_contain(map.table(), &key));
        assert!(map.contains_key(&key));
    }
}

#[test]
fn drain_and_failed_reserve_preserve_membership_invariants() {
    let mut map: ElasticHashMap<u64, u64, IdentityBuildHasher> =
        ElasticHashMap::with_capacity_and_hasher(128, IdentityBuildHasher);
    for key in 0_u64..64 {
        map.insert(key, key);
    }
    assert!(map.try_reserve(usize::MAX).is_err());
    for key in 0_u64..64 {
        assert!(may_contain(map.table(), &key));
        assert_eq!(map.get(&key), Some(&key));
    }

    let mut drained = map.drain();
    while drained.next().is_some() {}
    assert!(map.is_empty());
    for key in 0_u64..64 {
        assert!(!may_contain(map.table(), &key));
    }
}

#[test]
fn colliding_hashes_remain_distinguishable_through_delete_and_reuse() {
    let mut map: ElasticHashMap<u64, u64, ConstHashBuilder> =
        ElasticHashMap::with_capacity_and_hasher(512, ConstHashBuilder);
    let colliding_count = 64_u64;
    for key in 0..colliding_count {
        map.insert(key, key);
    }
    assert_eq!(map.remove(&0), Some(0));
    assert_eq!(map.insert(u64::MAX, 7), None);
    for key in 1..colliding_count {
        assert_eq!(map.get(&key), Some(&key));
    }
    assert_eq!(map.get(&u64::MAX), Some(&7));
}

#[test]
fn finite_probe_exhaustion_uses_observable_exceptional_recovery() {
    let mut table: ElasticTable<u64, u64, ConstHashBuilder> =
        ElasticTable::try_with_slots_and_reserve_fraction_and_hasher(
            8_192,
            ReserveFraction::default(),
            ConstHashBuilder,
        )
        .unwrap();
    let mut next_key = 0_u64;
    let mut before = table.epoch_snapshot();
    assert!(!table.has_exceptional_placement());
    // Every key has the same hash, so the positions that lookups visit run out
    // while the first batch still fills.
    let location = loop {
        let location = table.insert_for_vacant(next_key, next_key, 0);
        next_key += 1;
        let after = table.epoch_snapshot();
        if after.generation != before.generation {
            break location;
        }
        before = after;
    };
    let after = table.epoch_snapshot();
    assert_eq!(after.generation, before.generation + 1);
    assert_eq!(after.placement_recoveries, before.placement_recoveries + 1);
    assert_eq!(after.transition, EpochTransition::PlacementRecovery);
    assert!(table.has_exceptional_placement());
    assert!(may_contain(&table, &(next_key - 1)));
    assert_eq!(location_of(&table, &(next_key - 1)), Some(location));
    for key in 0..next_key {
        assert!(location_of(&table, &key).is_some());
    }
}

#[test]
fn direct_lookup_returns_the_compared_slot_reference() {
    let mut table: ElasticTable<usize, usize> = ElasticTable::with_capacity_and_reserve_and_hasher(
        1024,
        ReserveFraction::default(),
        DefaultHashBuilder::default(),
    );
    let mut insertion_count = 0;
    while insertion_count < table.capacity() && level_lens(&table)[1..].iter().all(|&len| len == 0)
    {
        let key = insertion_count;
        let hash = table.hasher().hash_one(&key);
        table.insert_for_vacant(key, key ^ 0xa5a5, hash);
        insertion_count += 1;
    }
    assert!(
        level_lens(&table)[1..].iter().any(|&len| len > 0),
        "test must exercise lookup beyond level 0"
    );

    for key in 0..insertion_count {
        let hash = table.hasher().hash_one(&key);
        let fingerprint = control_fingerprint(hash);
        let location = table
            .find(&key, hash, fingerprint)
            .expect("inserted key must have a location");
        let direct = table
            .find_entry(&key, hash, fingerprint)
            .expect("inserted key must have an entry reference");
        let resolved = table.slot_ref(location);
        assert!(std::ptr::eq(direct, resolved), "key {key} returned a new slot");
    }

    let missing = usize::MAX;
    let hash = table.hasher().hash_one(&missing);
    assert!(table
        .find_entry(&missing, hash, control_fingerprint(hash))
        .is_none());
}

#[test]
fn delete_below_cleanup_threshold_preserves_survivor_locations() {
    let mut map: ElasticHashMap<usize, usize> = ElasticHashMap::with_capacity(512);
    for key in 0..100 {
        map.insert(key, key);
    }
    let before: Vec<_> = (1..100)
        .map(|key| location_of(map.table(), &key).unwrap())
        .collect();

    assert_eq!(map.remove(&0), Some(0));

    let after: Vec<_> = (1..100)
        .map(|key| location_of(map.table(), &key).unwrap())
        .collect();
    assert_eq!(after, before);
}

#[test]
fn rebuild_inserts_advance_batch_scheduler() {
    let mut table: ElasticTable<usize, usize> = ElasticTable::with_capacity_and_reserve_and_hasher(
        64,
        ReserveFraction::default(),
        DefaultHashBuilder::default(),
    );
    let wide = ElasticGeometry::for_insert_budget(1024, ReserveFraction::default()).unwrap();
    let initial_quota = wide.batch_plan[0];
    assert!(
        initial_quota > 0,
        "test requires a non-empty bootstrap batch"
    );

    for key in 0..=initial_quota {
        let hash = table.hasher().hash_one(&key);
        table.insert_for_vacant(key, key, hash);
    }
    table.resize(wide.total_slots);

    assert_eq!(table.len(), initial_quota + 1);
    assert_eq!(table.next_batch_target(), BatchTarget::LevelPair(0));
}

#[test]
fn vacant_insert_uses_the_table_insertion_limit() {
    let mut table: ElasticTable<usize, usize> = ElasticTable::with_capacity_and_reserve_and_hasher(
        1024,
        ReserveFraction::default(),
        DefaultHashBuilder::default(),
    );
    let limit = table.capacity();
    for key in 0..limit {
        let hash = table.hasher().hash_one(&key);
        table.insert_for_vacant(key, key, hash);
    }
    let previous_slots = table.total_slots();
    assert_eq!(
        BatchScheduler::on_insert(table.len(), previous_slots, limit),
        InsertAction::Resize(previous_slots * 2)
    );

    let hash = table.hasher().hash_one(&limit);
    table.insert_for_vacant(limit, limit, hash);

    assert_eq!(table.total_slots(), previous_slots * 2);
    let grown = ElasticGeometry::for_slots(table.total_slots(), ReserveFraction::default());
    assert_eq!(
        table.next_batch_target(),
        BatchScheduler::new(&grown.batch_plan).target(table.len())
    );
}

#[test]
fn clone_and_clear_preserve_elastic_lookups() {
    let mut map: ElasticHashMap<u64, u64> = ElasticHashMap::with_capacity(512);
    for i in 0..384 {
        map.insert(i, i ^ 0xa5a5);
    }

    let cloned = map.clone();
    for i in 0..384 {
        assert_eq!(cloned.get(&i), Some(&(i ^ 0xa5a5)));
    }
    for i in 10_000..10_128 {
        assert_eq!(cloned.get(&i), None);
    }

    map.clear();
    for i in 512..896 {
        map.insert(i, i ^ 0x5a5a);
    }
    for i in 512..896 {
        assert_eq!(map.get(&i), Some(&(i ^ 0x5a5a)));
    }
    for i in 0..384 {
        assert_eq!(map.get(&i), None);
    }
}

#[test]
fn retain_does_not_trigger_mid_iter_resize_with_clustered_tombstones() {
    let mut map: ElasticHashMap<i32, i32> = ElasticHashMap::with_capacity(256);
    let cap = i32::try_from(map.capacity()).expect("test capacity fits i32");
    let n = cap * 2 / 3;
    for i in 0..n {
        map.insert(i, i);
    }
    let initial_capacity = map.capacity();
    map.retain(|k, _| k % 2 == 0);

    let expected_count = (0..n).filter(|i| i % 2 == 0).count();
    assert_eq!(map.len(), expected_count);
    for i in 0..n {
        if i % 2 == 0 {
            assert_eq!(map.get(&i), Some(&i), "kept key {i} missing");
        } else {
            assert!(map.get(&i).is_none(), "dropped key {i} survived");
        }
    }
    assert_eq!(
        map.capacity(),
        initial_capacity,
        "retain cannot resize while its scan is active"
    );
}

#[test]
fn inserts_spill_to_deeper_levels_at_high_load() {
    let mut map: ElasticHashMap<i32, i32> = ElasticHashMap::with_capacity(512);
    assert!(
        map.table().level_count() > 1,
        "test requires multi-level layout"
    );
    let max = i32::try_from(map.capacity()).expect("test capacity fits i32");
    for i in 0..max {
        map.insert(i, i);
    }
    assert!(
        level_lens(map.table())[1..].iter().any(|&len| len > 0),
        "expected the exact batch schedule to populate a deeper level"
    );
    for i in 0..max {
        assert_eq!(map.get(&i), Some(&i));
    }
}

#[test]
fn removing_every_entry_empties_every_level() {
    let mut map: ElasticHashMap<i32, i32> = ElasticHashMap::with_capacity(512);
    let max = i32::try_from(map.capacity()).expect("test capacity fits i32");
    for i in 0..max {
        map.insert(i, i);
    }
    for i in 0..max {
        map.remove(&i);
    }
    assert_eq!(map.len(), 0);
    assert!(level_lens(map.table()).iter().all(|&len| len == 0));
}

/// Counts every drop.
struct CountDrop(Rc<Cell<usize>>);

impl Drop for CountDrop {
    fn drop(&mut self) {
        self.0.set(self.0.get() + 1);
    }
}

#[test]
fn values_drop_once_through_growth_and_clear() {
    let drops = Rc::new(Cell::new(0));
    let mut map: ElasticHashMap<u64, CountDrop> = ElasticHashMap::new();
    for key in 0..100 {
        map.insert(key, CountDrop(drops.clone()));
    }
    assert_eq!(drops.get(), 0);
    drop(map.remove(&3));
    assert_eq!(drops.get(), 1);
    map.clear();
    assert_eq!(drops.get(), 100);
    assert!(level_lens(map.table()).iter().all(|&len| len == 0));
}

#[test]
fn free_elastic_slots_carry_free_control_bytes() {
    let mut map: ElasticHashMap<u64, u64> = ElasticHashMap::with_capacity(32);
    for key in 0..16 {
        map.insert(key, key);
    }
    map.remove(&5);
    let mut live = 0;
    for (level, capacity) in level_capacities(map.table()).into_iter().enumerate() {
        for slot in 0..capacity {
            if map.table().control_at(ElasticLocation { level, slot }).is_occupied() {
                live += 1;
            }
        }
    }
    assert_eq!(live, map.len());
}

#[derive(Clone, Copy, Debug, Eq, PartialEq)]
struct ScalarElasticLimits {
    probe_budget_c: NonZeroUsize,
    range_word_cap: NonZeroU32,
    uniform_search_probe_cap: NonZeroU64,
    hit_query_position_cap: NonZeroU128,
}

impl ScalarElasticLimits {
    fn new(
        probe_budget_c: NonZeroUsize,
        range_word_cap: NonZeroU32,
        uniform_search_probe_cap: NonZeroU64,
        hit_query_position_cap: NonZeroU128,
    ) -> Self {
        Self {
            probe_budget_c,
            range_word_cap,
            uniform_search_probe_cap,
            hit_query_position_cap,
        }
    }
}

#[derive(Clone, Copy, Debug, Eq, PartialEq)]
enum ScalarElasticCase {
    Batch0 {
        level: usize,
    },
    Case1 {
        batch: usize,
        current_level: usize,
        next_level: usize,
        free_current: usize,
        free_next: usize,
        budget: usize,
    },
    Case2 {
        batch: usize,
        current_level: usize,
        next_level: usize,
        free_current: usize,
        free_next: usize,
    },
    Case3 {
        batch: usize,
        current_level: usize,
        next_level: usize,
        free_current: usize,
        free_next: usize,
    },
}

#[derive(Clone, Copy, Debug, Eq, PartialEq)]
struct ScalarElasticLocation {
    level: usize,
    slot_in_level: usize,
    global_slot: usize,
}

impl ScalarElasticLocation {
    fn new(level: usize, slot_in_level: usize, global_slot: usize) -> Self {
        Self {
            level,
            slot_in_level,
            global_slot,
        }
    }
}

#[derive(Clone, Copy, Debug, Eq, PartialEq)]
struct ScalarElasticInsertion {
    case: ScalarElasticCase,
    location: ScalarElasticLocation,
    paper_probe: u64,
    phi: u128,
}

#[derive(Clone, Copy, Debug, Eq, PartialEq)]
struct ScalarElasticQuery {
    found_position: u128,
    global_slot: usize,
    logical_positions: u128,
    mapped_positions: u128,
    gap_positions: u128,
    scalar_inspections: u128,
    random_words: u128,
}

struct ScalarElastic<O> {
    config: PaperConfig,
    oracle: O,
    limits: ScalarElasticLimits,
    levels: Vec<usize>,
    offsets: Vec<usize>,
    quotas: Vec<usize>,
    occupancy: Vec<usize>,
    slots: Vec<Option<u64>>,
    len: usize,
}

impl<O: ProbeOracle> ScalarElastic<O> {
    fn new(config: PaperConfig, oracle: O, limits: ScalarElasticLimits) -> Self {
        let plan = config.elastic_plan();
        let levels = plan.level_lengths().collect();
        let mut offsets = Vec::with_capacity(levels.len());
        let mut offset = 0;
        for &length in &levels {
            offsets.push(offset);
            offset += length;
        }
        assert_eq!(offset, config.n());
        Self {
            config,
            oracle,
            limits,
            quotas: plan.batch_quotas().collect(),
            occupancy: vec![0; levels.len()],
            slots: vec![None; config.n()],
            levels,
            offsets,
            len: 0,
        }
    }

    fn insert(&mut self, identity: u64) -> ScalarElasticInsertion {
        assert!(
            !self.slots.contains(&Some(identity)),
            "scalar Elastic insertion identities must be distinct"
        );
        let batch = self
            .active_batch()
            .expect("scalar Elastic insertion exceeded the exact target");
        let (case, level, slot_in_level, paper_probe) = if batch == 0 {
            let (slot, probe) = self.uniform_vacancy(0, identity);
            (ScalarElasticCase::Batch0 { level: 0 }, 0, slot, probe)
        } else {
            let current = batch - 1;
            let next = batch;
            let free_current = self.levels[current] - self.occupancy[current];
            let free_next = self.levels[next] - self.occupancy[next];
            let current_threshold = scalar_floor_div_pow2(
                self.levels[current],
                self.config.reserve_exponent().saturating_add(1),
            );
            let next_threshold = self.levels[next] / 4;
            let current_low = free_current <= current_threshold;
            let next_low = free_next <= next_threshold;
            assert!(
                !(current_low && next_low),
                "scalar Elastic schedule exhausted both active levels"
            );
            if current_low {
                let (slot, probe) = self.uniform_vacancy(next, identity);
                (
                    ScalarElasticCase::Case2 {
                        batch,
                        current_level: current,
                        next_level: next,
                        free_current,
                        free_next,
                    },
                    next,
                    slot,
                    probe,
                )
            } else if next_low {
                let (slot, probe) = self.uniform_vacancy(current, identity);
                (
                    ScalarElasticCase::Case3 {
                        batch,
                        current_level: current,
                        next_level: next,
                        free_current,
                        free_next,
                    },
                    current,
                    slot,
                    probe,
                )
            } else {
                let budget = elastic_dyadic_probe_budget(
                    free_current,
                    self.levels[current],
                    self.config.reserve_exponent(),
                    self.limits.probe_budget_c.get(),
                )
                .expect("scalar Elastic probe budget must be representable");
                let case = ScalarElasticCase::Case1 {
                    batch,
                    current_level: current,
                    next_level: next,
                    free_current,
                    free_next,
                    budget,
                };
                let bounded = (0..budget).find_map(|logical_index| {
                    let logical_index = u64::try_from(logical_index).ok()?;
                    self.vacancy(current, identity, logical_index)
                        .map(|slot| (slot, logical_index + 1))
                });
                let (level, slot, probe) = if let Some((slot, probe)) = bounded {
                    (current, slot, probe)
                } else {
                    let (slot, probe) = self.uniform_vacancy(next, identity);
                    (next, slot, probe)
                };
                (case, level, slot, probe)
            }
        };

        let global_slot = self.offsets[level] + slot_in_level;
        assert!(self.slots[global_slot].is_none());
        let phi = elastic_phi(level as u128 + 1, u128::from(paper_probe))
            .expect("scalar Elastic selection must have a representable phi");
        assert!(phi <= self.limits.hit_query_position_cap.get());
        self.slots[global_slot] = Some(identity);
        self.occupancy[level] += 1;
        self.len += 1;
        ScalarElasticInsertion {
            case,
            location: ScalarElasticLocation::new(level, slot_in_level, global_slot),
            paper_probe,
            phi,
        }
    }

    fn query(&self, identity: u64) -> ScalarElasticQuery {
        let mut h11 = None;
        let mut random_words = 0_u128;
        let mut mapped_positions = 0_u128;
        let mut gap_positions = 0_u128;
        for position in 1..=self.limits.hit_query_position_cap.get() {
            let (level, logical_index, is_h11) = match elastic_phi_inverse(position) {
                Some((paper_i, paper_j)) if paper_i <= self.levels.len() as u128 => {
                    mapped_positions += 1;
                    let level = usize::try_from(paper_i - 1).unwrap();
                    let logical_index = u64::try_from(paper_j - 1).unwrap();
                    (level, logical_index, level == 0 && logical_index == 0)
                }
                _ => {
                    gap_positions += 1;
                    (0, 0, true)
                }
            };
            let global_slot = if is_h11 {
                if let Some(global_slot) = h11 {
                    global_slot
                } else {
                    let (global_slot, words) = self.route(level, identity, logical_index);
                    random_words += u128::from(words);
                    h11 = Some(global_slot);
                    global_slot
                }
            } else {
                let (global_slot, words) = self.route(level, identity, logical_index);
                random_words += u128::from(words);
                global_slot
            };
            if self.slots[global_slot] == Some(identity) {
                return ScalarElasticQuery {
                    found_position: position,
                    global_slot,
                    logical_positions: position,
                    mapped_positions,
                    gap_positions,
                    scalar_inspections: position,
                    random_words,
                };
            }
        }
        panic!("scalar Elastic query failed to find its promised identity")
    }

    fn level_occupancy(&self) -> &[usize] {
        &self.occupancy
    }

    fn active_batch(&self) -> Option<usize> {
        let mut prefix = 0;
        for (batch, &quota) in self.quotas.iter().enumerate() {
            prefix += quota;
            if self.len < prefix {
                return Some(batch);
            }
        }
        None
    }

    fn uniform_vacancy(&self, level: usize, identity: u64) -> (usize, u64) {
        for logical_index in 0..self.limits.uniform_search_probe_cap.get() {
            if let Some(slot) = self.vacancy(level, identity, logical_index) {
                return (slot, logical_index + 1);
            }
        }
        panic!("scalar Elastic exhausted its finite uniform-search cap")
    }

    fn vacancy(&self, level: usize, identity: u64, logical_index: u64) -> Option<usize> {
        let (global_slot, _) = self.route(level, identity, logical_index);
        self.slots[global_slot]
            .is_none()
            .then_some(global_slot - self.offsets[level])
    }

    fn route(&self, level: usize, identity: u64, logical_index: u64) -> (usize, u32) {
        let sampled = unbiased_probe_index(
            &self.oracle,
            identity,
            ProbeDomain::ElasticOrdinary {
                level: level as u64,
            },
            logical_index,
            self.levels[level],
            self.limits.range_word_cap.get(),
        )
        .expect("scalar Elastic range reduction must succeed");
        (
            self.offsets[level] + sampled.index,
            sampled.random_word_count,
        )
    }
}

fn scalar_floor_div_pow2(value: usize, exponent: u32) -> usize {
    value.checked_shr(exponent).unwrap_or(0)
}


#[derive(Debug)]
struct ElasticCycleOracle {
    level_lengths: Vec<usize>,
}

impl ElasticCycleOracle {
    fn new(config: PaperConfig) -> Self {
        Self {
            level_lengths: config.elastic_plan().level_lengths().collect(),
        }
    }
}

impl ProbeOracle for ElasticCycleOracle {
    fn word_of(&self, identity: u64, domain: ProbeDomain, logical: u64, retry: u32) -> u64 {
        self.word(identity, domain, logical, retry)
    }

    fn has_word(&self, _: ProbeDomain, _: u64, _: u32) -> bool {
        true
    }

    fn word(
        &self,
        _identity: u64,
        domain: ProbeDomain,
        logical_probe_index: u64,
        _rejection_index: u32,
    ) -> u64 {
        let ProbeDomain::ElasticOrdinary { level } = domain else {
            panic!("unexpected Funnel domain")
        };
        let level = usize::try_from(level).expect("test level must fit usize");
        let logical_probe_index =
            usize::try_from(logical_probe_index).expect("test probe index must fit usize");
        let upper = self.level_lengths[level];
        accepted_word_for_index(logical_probe_index % upper, upper)
    }
}

#[test]
#[allow(clippy::too_many_lines)]
fn elastic_reference_has_a_hand_checked_batch_and_query_trace() {
    let config = PaperConfig::new(8, 3).unwrap();
    let limits = ScalarElasticLimits::new(
        NonZeroUsize::new(1).unwrap(),
        NonZeroU32::new(1).unwrap(),
        NonZeroU64::new(8).unwrap(),
        NonZeroU128::new(256).unwrap(),
    );
    let mut scalar = ScalarElastic::new(config, ElasticCycleOracle::new(config), limits);

    let insertions: Vec<_> = (10..=16).map(|identity| scalar.insert(identity)).collect();
    assert_eq!(
        insertions,
        vec![
            ScalarElasticInsertion {
                case: ScalarElasticCase::Batch0 { level: 0 },
                location: ScalarElasticLocation::new(0, 0, 0),
                paper_probe: 1,
                phi: 13,
            },
            ScalarElasticInsertion {
                case: ScalarElasticCase::Batch0 { level: 0 },
                location: ScalarElasticLocation::new(0, 1, 1),
                paper_probe: 2,
                phi: 57,
            },
            ScalarElasticInsertion {
                case: ScalarElasticCase::Batch0 { level: 0 },
                location: ScalarElasticLocation::new(0, 2, 2),
                paper_probe: 3,
                phi: 61,
            },
            ScalarElasticInsertion {
                case: ScalarElasticCase::Case1 {
                    batch: 1,
                    current_level: 0,
                    next_level: 1,
                    free_current: 1,
                    free_next: 2,
                    budget: 3,
                },
                location: ScalarElasticLocation::new(1, 0, 4),
                paper_probe: 1,
                phi: 26,
            },
            ScalarElasticInsertion {
                case: ScalarElasticCase::Case1 {
                    batch: 1,
                    current_level: 0,
                    next_level: 1,
                    free_current: 1,
                    free_next: 1,
                    budget: 3,
                },
                location: ScalarElasticLocation::new(1, 1, 5),
                paper_probe: 2,
                phi: 114,
            },
            ScalarElasticInsertion {
                case: ScalarElasticCase::Case3 {
                    batch: 1,
                    current_level: 0,
                    next_level: 1,
                    free_current: 1,
                    free_next: 0,
                },
                location: ScalarElasticLocation::new(0, 3, 3),
                paper_probe: 4,
                phi: 233,
            },
            ScalarElasticInsertion {
                case: ScalarElasticCase::Case2 {
                    batch: 2,
                    current_level: 1,
                    next_level: 2,
                    free_current: 0,
                    free_next: 2,
                },
                location: ScalarElasticLocation::new(2, 0, 6),
                paper_probe: 1,
                phi: 27,
            },
        ]
    );
    assert_eq!(scalar.level_occupancy(), &[4, 2, 1]);
    assert_eq!(
        scalar.query(10),
        ScalarElasticQuery {
            found_position: 1,
            global_slot: 0,
            logical_positions: 1,
            mapped_positions: 0,
            gap_positions: 1,
            scalar_inspections: 1,
            random_words: 1,
        }
    );
    assert_eq!(
        scalar.query(13),
        ScalarElasticQuery {
            found_position: 26,
            global_slot: 4,
            logical_positions: 26,
            mapped_positions: 2,
            gap_positions: 24,
            scalar_inspections: 26,
            random_words: 2,
        }
    );
}

#[allow(clippy::cast_possible_truncation)]
fn accepted_word_for_index(index: usize, upper: usize) -> u64 {
    assert!(index < upper);
    let upper = upper as u128;
    let scale = 1_u128 << 64;
    let mut word = ((index as u128) * scale).div_ceil(upper);
    let threshold = (upper as u64).wrapping_neg() % upper as u64;
    loop {
        let product = word * upper;
        if (product >> 64) as usize == index && product as u64 >= threshold {
            return word as u64;
        }
        word += 1;
    }
}

#[test]
fn first_probes_behind_a_position() {
    assert_eq!(first_paper_probe_after(1, 0), 1);
    assert_eq!(first_paper_probe_after(1, 13), 2);
    assert_eq!(first_paper_probe_after(1, 1_000_000), 384);
    assert_eq!(first_paper_probe_after(33, 0), 1);
    assert_eq!(first_paper_probe_after(33, u128::MAX), 4097);
}

#[test]
fn a_table_of_one_slot_takes_one_entry() {
    for exponent in [1, 3] {
        let reserve = ReserveFraction::from_exponent(exponent).unwrap();
        let mut table: ElasticTable<u64, u64, IdentityBuildHasher> =
            ElasticTable::try_with_slots_and_reserve_fraction_and_hasher(
                1,
                reserve,
                IdentityBuildHasher,
            )
            .unwrap();
        assert_eq!((table.total_slots(), table.capacity(), table.level_count()), (1, 1, 1));
        assert_eq!(table.insert(7, 70, 7), None);
        assert!(location_of(&table, &7).is_some());
        table.try_resize(1).unwrap();
        assert_eq!((table.total_slots(), table.len()), (1, 1));
        assert_eq!(table.epoch_snapshot().transition, EpochTransition::ExplicitResize);
        assert!(location_of(&table, &7).is_some());
        table.try_resize(64).unwrap();
        assert!(location_of(&table, &7).is_some());
    }
}

#[test]
fn a_new_key_stays_in_the_epoch_while_it_has_a_place() {
    let mut table: ElasticTable<u64, u64, IdentityBuildHasher> =
        ElasticTable::try_with_slots_and_reserve_fraction_and_hasher(
            64,
            ReserveFraction::default(),
            IdentityBuildHasher,
        )
        .unwrap();
    let before = table.epoch_snapshot();
    assert_eq!(table.insert(5, 50, 5), None);
    let after = table.epoch_snapshot();
    assert_eq!(after.generation, before.generation);
    assert_eq!(after.placement_recoveries, before.placement_recoveries);
}

fn listed_locations(
    table: &ElasticTable<u64, u64, IdentityBuildHasher>,
) -> Vec<(u64, ElasticLocation)> {
    let mut found = Vec::new();
    let mut scan = table.scan();
    while let Some(location) = table.scan_next(&mut scan) {
        found.push((table.slot_ref(location).key, location));
    }
    found
}

#[test]
fn a_rebuild_stores_the_entries_in_slot_order() {
    let mut table = identity_table(64, 3);
    let keys: Vec<u64> = (0..40_u64).map(|key| key.wrapping_mul(0x9e37_79b9_7f4a_7c15)).collect();
    for &key in &keys {
        table.insert_for_vacant(key, key, key);
    }
    let before = listed_locations(&table);
    let generation = table.epoch_snapshot().generation;
    table.resize(256);
    assert_eq!(table.epoch_snapshot().generation, generation + 1);

    let mut fresh = identity_table(256, 3);
    for (key, _) in before {
        fresh.insert_for_vacant(key, key, key);
    }
    assert!(!fresh.has_exceptional_placement());
    assert_eq!(listed_locations(&table), listed_locations(&fresh));
}

#[test]
fn growth_stores_the_entries_before_the_new_key() {
    let mut table = identity_table(32, 3);
    while table.len() < table.capacity() {
        let key = (table.len() as u64).wrapping_mul(0x9e37_79b9_7f4a_7c15);
        table.insert_for_vacant(key, key, key);
    }
    let mut order: Vec<u64> = listed_locations(&table).into_iter().map(|(key, _)| key).collect();
    table.insert_for_vacant(1, 1, 1);
    assert_eq!(table.epoch_snapshot().transition, EpochTransition::Growth);
    assert_eq!(table.total_slots(), 64);

    order.push(1);
    let mut fresh = identity_table(64, 3);
    for key in order {
        fresh.insert_for_vacant(key, key, key);
    }
    assert_eq!(listed_locations(&table), listed_locations(&fresh));
}

#[test]
fn no_key_moves_while_an_epoch_lasts() {
    let mut table = identity_table(512, 3);
    let mut places: Vec<(u64, ElasticLocation)> = Vec::new();
    for number in 0..300_u64 {
        let key = number.wrapping_mul(0x9e37_79b9_7f4a_7c15);
        let location = table.insert_for_vacant(key, key, key);
        places.push((key, location));
    }
    assert_eq!(table.epoch_snapshot().generation, 0);
    let (_, gone) = places.remove(17);
    table.remove(gone);
    table.finish_deferred_removals();
    assert_eq!(table.epoch_snapshot().generation, 0);
    for (key, location) in places {
        assert_eq!(location_of(&table, &key), Some(location));
    }
}

#[test]
fn a_lookup_calls_back_once_on_the_stored_entry() {
    let mut table = identity_table(64, 3);
    let location = table.insert_for_vacant(7, 70, 7);
    let calls = Cell::new(0);
    let found = table.find_by_exact_schedule(
        &7_u64,
        PreparedElasticKey::new(7),
        control_fingerprint(7),
        |level, slot, entry| {
            calls.set(calls.get() + 1);
            (ElasticLocation { level, slot }, entry.key, entry.value)
        },
    );
    assert_eq!(found, Some((location, 7, 70)));
    assert_eq!(calls.get(), 1);

    let missing = table.find_by_exact_schedule(
        &8_u64,
        PreparedElasticKey::new(8),
        control_fingerprint(8),
        |_, _, entry| {
            calls.set(calls.get() + 1);
            entry.value
        },
    );
    assert_eq!(missing, None);
    assert_eq!(calls.get(), 1);
}

#[test]
fn one_slot_with_half_in_reserve_takes_no_second_entry() {
    let mut table = identity_table(1, 1);
    assert!(table.takes_one_more());
    table.insert_for_vacant(5, 50, 5);
    assert!(!table.takes_one_more());
    let mut roomier = identity_table(1, 3);
    roomier.insert_for_vacant(5, 50, 5);
    assert!(roomier.takes_one_more());
}
