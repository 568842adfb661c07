//! Maps over both tables: lookups, entries, iteration, bulk operations and
//! lifecycle.

use std::collections::BTreeMap;
use std::hash::BuildHasher;

use opthash::elastic::ElasticTable;
use opthash::entry::Entry;
use opthash::funnel::FunnelTable;
use opthash::map::HashMap;
use opthash::table::{TableBackend, TableModel};
use opthash::{
    DefaultHashBuilder, ElasticHashMap, EpochTransition, Equivalent, FunnelHashMap, HashBuilder,
    ReserveFraction, ReserveFractionError, TryBuildError, TryReserveError,
};

type Elastic = ElasticTable<u64, u64>;
type Funnel = FunnelTable<u64, u64>;

fn filled<P>(count: u64) -> HashMap<u64, u64, P>
where
    P: TableBackend<u64, u64> + TableModel<u64, u64, Hasher = DefaultHashBuilder>,
{
    let mut map = HashMap::new();
    for key in 0..count {
        assert_eq!(map.insert(key, key * 10), None);
    }
    map
}

fn contents<P>(map: &HashMap<u64, u64, P>) -> BTreeMap<u64, u64>
where
    P: TableBackend<u64, u64>,
{
    let mut found = BTreeMap::new();
    let mut entries = map.iter();
    while let Some((key, value)) = entries.next() {
        assert_eq!(found.insert(*key, *value), None);
    }
    assert_eq!(found.len(), map.len());
    found
}

fn check_lookups<P>()
where
    P: TableBackend<u64, u64> + TableModel<u64, u64, Hasher = DefaultHashBuilder>,
{
    let mut map = filled::<P>(500);
    assert_eq!(map.len(), 500);
    assert!(map.capacity() >= 500);
    for key in 0..500 {
        assert_eq!(map.get(&key), Some(&(key * 10)));
        assert_eq!(map.get_key_value(&key), Some((&key, &(key * 10))));
        assert!(map.contains_key(&key));
        assert_eq!(*map.index(&key), key * 10);
    }
    assert_eq!(map.get(&500), None);
    assert_eq!(map.get_key_value(&500), None);
    assert_eq!(map.insert(7, 1), Some(70));
    assert_eq!(map.len(), 500);
    *map.get_mut(&7).unwrap() += 1;
    assert_eq!(map.get(&7), Some(&2));
    assert_eq!(map.get(&8), Some(&80));
    assert!(map.get_mut(&501).is_none());
    assert_eq!(map.remove(&7), Some(2));
    assert_eq!(map.remove(&7), None);
    assert_eq!(map.remove_entry(&8), Some((8, 80)));
    assert_eq!(map.remove_entry(&8), None);
    assert_eq!(map.get(&9), Some(&90));
    assert_eq!(map.len(), 498);
    assert_eq!(map.insert(7, 3), None);
    assert_eq!(map.get(&7), Some(&3));
}

#[test]
fn lookups_see_inserts_and_removals() {
    check_lookups::<Elastic>();
    check_lookups::<Funnel>();
}

fn check_entries<P>()
where
    P: TableBackend<u64, u64> + TableModel<u64, u64, Hasher = DefaultHashBuilder>,
{
    let mut map = filled::<P>(10);
    *map.entry(3).or_insert(0) += 1;
    *map.entry(30).or_insert(5) += 1;
    *map.entry(31).or_insert_with(|| 7) += 1;
    *map.entry(32).or_insert_with_key(|key| key * 2) += 1;
    *map.entry(33).or_default() += 1;
    assert_eq!(*map.entry(3).key(), 3);
    assert_eq!(*map.entry(99).key(), 99);
    let modified = *map.entry(3).and_modify(|value| *value *= 2).or_insert(0);
    assert_eq!(modified, 62);
    assert_eq!(*map.entry(34).and_modify(|value| *value *= 2).or_insert(4), 4);
    for (key, value) in [(3, 62), (30, 6), (31, 8), (32, 65), (33, 1), (34, 4)] {
        assert_eq!(map.get(&key), Some(&value));
    }

    match map.entry(30) {
        Entry::Occupied(mut entry) => {
            assert_eq!(entry.key(), &30);
            assert_eq!(entry.get(), &6);
            *entry.get_mut() = 60;
            assert_eq!(entry.insert(61), 60);
            assert_eq!(entry.remove_entry(), (30, 61));
        }
        Entry::Vacant(_) => unreachable!(),
    }
    assert!(!map.contains_key(&30));
    match map.entry(31) {
        Entry::Occupied(entry) => assert_eq!(entry.remove(), 8),
        Entry::Vacant(_) => unreachable!(),
    }
    match map.entry(32) {
        Entry::Occupied(entry) => *entry.into_mut() = 320,
        Entry::Vacant(_) => unreachable!(),
    }
    match map.entry(33) {
        Entry::Occupied(entry) => assert_eq!(entry.into_key(), &33),
        Entry::Vacant(_) => unreachable!(),
    }
    match map.entry(40) {
        Entry::Occupied(_) => unreachable!(),
        Entry::Vacant(entry) => {
            assert_eq!(entry.key(), &40);
            assert_eq!(entry.into_key(), 40);
        }
    }
    assert!(!map.contains_key(&40));
    match map.entry(41) {
        Entry::Occupied(_) => unreachable!(),
        Entry::Vacant(entry) => {
            let mut entry = entry.insert_entry(1);
            *entry.get_mut() += 1;
            assert_eq!(entry.key(), &41);
        }
    }
    match map.entry(42) {
        Entry::Occupied(_) => unreachable!(),
        Entry::Vacant(entry) => *entry.insert(1) += 4,
    }
    assert_eq!(map.get(&32), Some(&320));
    assert_eq!(map.get(&41), Some(&2));
    assert_eq!(map.get(&42), Some(&5));

    match map.try_insert(42, 9) {
        Ok(_) => unreachable!(),
        Err(error) => {
            assert_eq!(error.value, 9);
            assert_eq!(error.entry.get(), &5);
        }
    }
    match map.try_insert(43, 9) {
        Ok(value) => *value += 1,
        Err(_) => unreachable!(),
    }
    assert_eq!(map.get(&43), Some(&10));
    assert_eq!(map.get_or_insert_key_with(&43, 0, |key| *key), &43);
    assert_eq!(map.get(&43), Some(&10));
    assert_eq!(map.get_or_insert_key_with(&44, 8, |key| *key), &44);
    assert_eq!(map.get(&44), Some(&8));
}

#[test]
fn entries_read_change_and_store() {
    check_entries::<Elastic>();
    check_entries::<Funnel>();
}

fn check_iterators<P>()
where
    P: TableBackend<u64, u64> + TableModel<u64, u64, Hasher = DefaultHashBuilder>,
{
    let mut map = filled::<P>(100);
    let expected: BTreeMap<u64, u64> = (0..100).map(|key| (key, key * 10)).collect();
    assert_eq!(contents(&map), expected);

    let mut entries = map.iter();
    assert_eq!(entries.len(), 100);
    assert!(entries.next().is_some());
    assert_eq!(entries.len(), 99);
    let mut copy = entries.clone();
    assert_eq!(copy.len(), 99);
    assert_eq!(copy.next(), entries.next());

    let mut keys = map.keys();
    let mut key_sum = 0;
    while let Some(key) = keys.next() {
        key_sum += key;
    }
    assert_eq!((key_sum, keys.len(), keys.next()), (4_950, 0, None));
    let mut values = map.values();
    let mut value_sum = 0;
    while let Some(value) = values.next() {
        value_sum += value;
    }
    assert_eq!((value_sum, values.len(), values.next()), (49_500, 0, None));

    let mut entries = map.iter_mut();
    assert_eq!(entries.len(), 100);
    while let Some((key, value)) = entries.next() {
        *value += *key;
    }
    assert!(entries.next().is_none());
    let mut values = map.values_mut();
    assert_eq!(values.len(), 100);
    while let Some(value) = values.next() {
        *value += 1;
    }
    for key in 0..100 {
        assert_eq!(map.get(&key), Some(&(key * 11 + 1)));
    }

    let mut owned = filled::<P>(50).into_iter();
    assert_eq!(owned.len(), 50);
    let mut taken = BTreeMap::new();
    while let Some((key, value)) = owned.next() {
        assert_eq!(taken.insert(key, value), None);
    }
    assert_eq!(taken, (0..50).map(|key| (key, key * 10)).collect());
    assert_eq!(owned.next(), None);
    let mut owned_keys = filled::<P>(50).into_keys();
    assert_eq!(owned_keys.len(), 50);
    let mut key_sum = 0;
    while let Some(key) = owned_keys.next() {
        key_sum += key;
    }
    assert_eq!(key_sum, 1_225);
    let mut owned_values = filled::<P>(50).into_values();
    assert_eq!(owned_values.len(), 50);
    let mut value_sum = 0;
    while let Some(value) = owned_values.next() {
        value_sum += value;
    }
    assert_eq!(value_sum, 12_250);

    let capacity = map.capacity();
    let generation = map.epoch().generation;
    let mut drained = map.drain();
    assert_eq!(drained.len(), 100);
    let mut seen = 0;
    while let Some((key, value)) = drained.next() {
        assert_eq!(value, key * 11 + 1);
        seen += 1;
    }
    assert_eq!(seen, 100);
    assert!(map.is_empty());
    assert_eq!(map.capacity(), capacity);
    assert_eq!(map.epoch().generation, generation + 1);
    assert_eq!(map.epoch().transition, EpochTransition::Clear);
    assert_eq!(map.iter().next(), None);
}

#[test]
fn iterators_visit_every_entry_once() {
    check_iterators::<Elastic>();
    check_iterators::<Funnel>();
}

fn check_predicates<P>()
where
    P: TableBackend<u64, u64> + TableModel<u64, u64, Hasher = DefaultHashBuilder>,
{
    let mut map = filled::<P>(100);
    let mut extracted = BTreeMap::new();
    let mut picked = map.extract_if(|key, value| {
        *value += 1;
        key % 5 == 0
    });
    while let Some((key, value)) = picked.next() {
        assert_eq!(extracted.insert(key, value), None);
    }
    assert!(picked.next().is_none());
    assert_eq!(extracted, (0..20).map(|step| (step * 5, step * 50 + 1)).collect());
    let expected: BTreeMap<u64, u64> = (0..100)
        .filter(|key| key % 5 != 0)
        .map(|key| (key, key * 10 + 1))
        .collect();
    assert_eq!(contents(&map), expected);
    let epoch = map.epoch();
    assert!(epoch.had_delete);
    assert_eq!(epoch.distinct_insertions, 100);

    let mut some = map.extract_if(|_, _| true);
    assert!(some.next().is_some());
    some.finish();
    assert_eq!(map.len(), 79);

    map.retain(|key, value| {
        *value = *key;
        key % 2 == 0
    });
    let kept = contents(&map);
    assert!(kept.iter().all(|(key, value)| key == value && key % 2 == 0));
    map.retain(|_, _| false);
    assert!(map.is_empty());
}

#[test]
fn predicates_pick_entries_and_change_values() {
    check_predicates::<Elastic>();
    check_predicates::<Funnel>();
}

fn check_bulk<P>()
where
    P: TableBackend<u64, u64> + TableModel<u64, u64, Hasher = DefaultHashBuilder>,
{
    let mut map: HashMap<u64, u64, P> =
        HashMap::from_iter(vec![(1, 10), (2, 20), (1, 11), (3, 30)]);
    assert_eq!(contents(&map), BTreeMap::from([(1, 11), (2, 20), (3, 30)]));
    map.extend(vec![(3, 31), (4, 40), (4, 41)]);
    map.extend_copied(&[(5, 50), (1, 12)]);
    assert_eq!(
        contents(&map),
        BTreeMap::from([(1, 12), (2, 20), (3, 31), (4, 41), (5, 50)])
    );
    let empty: HashMap<u64, u64, P> = HashMap::from_iter(Vec::new());
    assert!(empty.is_empty());

    let copy = map.clone();
    assert!(copy.eq(&map) && map.eq(&copy) && map.eq(&map));
    assert_eq!(copy.capacity(), map.capacity());
    assert_eq!(copy.epoch(), map.epoch());
    map.insert(1, 13);
    assert!(!copy.eq(&map) && !map.eq(&copy));
    map.insert(1, 12);
    assert!(copy.eq(&map));
    map.insert(6, 60);
    assert!(!copy.eq(&map) && !map.eq(&copy));
    map.remove(&2);
    assert_eq!(map.len(), copy.len());
    assert!(!copy.eq(&map) && !map.eq(&copy));
}

#[test]
fn bulk_operations_keep_the_last_pair() {
    check_bulk::<Elastic>();
    check_bulk::<Funnel>();
}

fn check_disjoint<P>()
where
    P: TableBackend<u64, u64> + TableModel<u64, u64, Hasher = DefaultHashBuilder>,
{
    let mut map = filled::<P>(200);
    let keys = [&150_u64, &3, &900, &77, &199, &0];
    assert!(map.check_disjoint_aliasing(&keys));
    let mut values = map.get_disjoint_mut(&keys);
    assert_eq!(values.len(), 6);
    assert!(values[2].is_none());
    for (index, value) in values.iter_mut().enumerate() {
        if let Some(value) = value {
            **value += index as u64;
        }
    }
    drop(values);
    for (key, value) in [(150, 1_500), (3, 31), (77, 773), (199, 1_994), (0, 5), (4, 40)] {
        assert_eq!(map.get(&key), Some(&value));
    }
    let mut pairs = map.get_disjoint_key_value_mut(&[&10_u64, &11, &12]);
    for pair in &mut pairs {
        let (key, value) = pair.as_mut().unwrap();
        **value = **key + 1;
    }
    drop(pairs);
    for key in 10..13 {
        assert_eq!(map.get(&key), Some(&(key + 1)));
    }
    assert!(!map.check_disjoint_aliasing(&[&1_u64, &2, &1]));
    assert!(map.check_disjoint_aliasing(&[&1_u64, &900, &900]));
}

#[test]
fn disjoint_borrows_change_their_own_entries() {
    check_disjoint::<Elastic>();
    check_disjoint::<Funnel>();
}

fn check_lifecycle<P>()
where
    P: TableBackend<u64, u64> + TableModel<u64, u64, Hasher = DefaultHashBuilder>,
{
    let mut map: HashMap<u64, u64, P> = HashMap::new();
    assert_eq!(map.capacity(), 0);
    assert_eq!(map.epoch().transition, EpochTransition::Initial);
    assert_eq!(map.epoch().generation, 0);
    map.insert(1, 10);
    assert_eq!(map.epoch().transition, EpochTransition::Growth);
    assert_eq!(map.epoch().generation, 1);

    map.reserve(1_000);
    assert!(map.capacity() >= 1_001);
    assert_eq!(map.epoch().transition, EpochTransition::ExplicitResize);
    let capacity = map.capacity();
    let generation = map.epoch().generation;
    map.reserve(10);
    assert_eq!((map.capacity(), map.epoch().generation), (capacity, generation));
    assert_eq!(map.try_reserve(10), Ok(()));
    assert_eq!((map.capacity(), map.epoch().generation), (capacity, generation));
    assert_eq!(map.try_reserve(usize::MAX), Err(TryReserveError::CapacityOverflow));
    assert_eq!(map.try_reserve(usize::MAX / 2), Err(TryReserveError::CapacityOverflow));
    assert_eq!((map.capacity(), map.epoch().generation), (capacity, generation));
    assert_eq!(map.get(&1), Some(&10));

    map.shrink_to(500);
    assert!(map.capacity() >= 500 && map.capacity() <= capacity);
    map.shrink_to_fit();
    assert!(map.capacity() >= 1 && map.capacity() < 500);
    assert_eq!(map.get(&1), Some(&10));

    assert_eq!(map.remove(&1), Some(10));
    assert!(map.epoch().had_delete);
    let capacity = map.capacity();
    map.insert(2, 20);
    map.clear();
    assert!(map.is_empty() && !map.epoch().had_delete);
    assert_eq!(map.epoch().transition, EpochTransition::Clear);
    assert_eq!(map.capacity(), capacity);
    map.shrink_to_fit();
    assert_eq!(map.capacity(), 0);
}

#[test]
fn epochs_follow_growth_resizes_and_clears() {
    check_lifecycle::<Elastic>();
    check_lifecycle::<Funnel>();
}

#[test]
fn churn_cleans_tombstones_and_keeps_the_survivors() {
    fn churn<P>()
    where
        P: TableBackend<u64, u64> + TableModel<u64, u64, Hasher = DefaultHashBuilder>,
    {
        let mut map: HashMap<u64, u64, P> = HashMap::with_capacity(256);
        let mut reference = BTreeMap::new();
        let capacity = map.capacity();
        for step in 0..20_000_u64 {
            let key = step.wrapping_mul(0x9e37_79b9_7f4a_7c15) >> 55;
            if step % 3 == 0 {
                assert_eq!(map.remove(&key), reference.remove(&key));
            } else if reference.len() < capacity || reference.contains_key(&key) {
                assert_eq!(map.insert(key, step), reference.insert(key, step));
            }
        }
        assert_eq!(contents(&map), reference);

        let mut map: HashMap<u64, u64, P> = HashMap::with_capacity(256);
        let full = map.capacity() as u64;
        for key in 0..full {
            map.insert(key, key);
        }
        assert_eq!(map.epoch().generation, 0);
        let mut cleanups = 0;
        for key in 0..full {
            let generation = map.epoch().generation;
            assert_eq!(map.remove(&key), Some(key));
            if map.epoch().generation != generation {
                assert_eq!(map.epoch().generation, generation + 1);
                assert_eq!(map.epoch().transition, EpochTransition::TombstoneCleanup);
                cleanups += 1;
            }
            assert_eq!(map.len() as u64, full - key - 1);
            assert_eq!(map.get(&(full - 1)).is_some(), key != full - 1);
        }
        assert!(cleanups > 0);
    }
    churn::<Elastic>();
    churn::<Funnel>();
}

#[test]
fn constructors_check_their_reserve() {
    let eighth = 0.125_f64.to_bits();
    let map = ElasticHashMap::<u64, u64>::try_with_capacity_and_reserve_bits(100, eighth).ok().unwrap();
    assert!(map.capacity() >= 100);
    assert_eq!(map.reserve_fraction(), ReserveFraction::default());
    assert!(matches!(
        ElasticHashMap::<u64, u64>::try_with_capacity_and_reserve_bits(100, 0.3_f64.to_bits()),
        Err(TryBuildError::InvalidReserveFraction(ReserveFractionError::NotInversePowerOfTwo))
    ));
    assert!(matches!(
        FunnelHashMap::<u64, u64>::try_with_capacity_and_reserve_bits(100, 0.25_f64.to_bits()),
        Err(TryBuildError::FunnelDeltaLog2BelowMinimum { delta_log2: 2, minimum: 3 })
    ));
    assert!(matches!(
        ElasticHashMap::<u64, u64>::try_with_capacity_and_reserve(
            usize::MAX,
            ReserveFraction::default()
        ),
        Err(TryBuildError::CapacityOverflow)
    ));
    let half = ReserveFraction::from_exponent(1).unwrap();
    let map = ElasticHashMap::<u64, u64>::with_capacity_and_reserve(16, half);
    assert_eq!((map.capacity(), map.reserve_fraction()), (16, half));
    let map = ElasticHashMap::<u64, u64>::with_reserve(half);
    assert_eq!((map.capacity(), map.reserve_fraction()), (0, half));
    let map = FunnelHashMap::<u64, u64>::with_hasher(DefaultHashBuilder::with_seed(9));
    assert_eq!(map.hasher().hash_one(&1_u64), DefaultHashBuilder::with_seed(9).hash_one(&1_u64));
}

#[test]
fn memory_that_cannot_be_had_is_reported() {
    let mut map: ElasticHashMap<u64, [u64; 1 << 10]> = ElasticHashMap::new();
    assert_eq!(map.try_reserve(1 << 30), Err(TryReserveError::CapacityOverflow));
    assert_eq!(map.try_reserve(1 << 40), Err(TryReserveError::CapacityOverflow));
    assert!(map.is_empty());
    let mut map: FunnelHashMap<u64, [u64; 1 << 10]> = FunnelHashMap::new();
    assert_eq!(map.try_reserve(1 << 54), Err(TryReserveError::AllocError));
    assert!(map.is_empty());
    assert!(matches!(
        FunnelHashMap::<u64, [u64; 1 << 10]>::try_with_capacity_and_reserve(
            1 << 54,
            ReserveFraction::default()
        ),
        Err(TryBuildError::AllocError)
    ));
}

#[test]
fn messages_describe_the_errors() {
    assert_eq!(TryBuildError::CapacityOverflow.message(), "capacity overflow");
    assert_eq!(TryBuildError::AllocError.message(), "memory allocation failed");
    assert_eq!(
        TryBuildError::FunnelDeltaLog2BelowMinimum { delta_log2: 2, minimum: 3 }.message(),
        "Funnel reserve exponent 2 is below the minimum 3"
    );
    assert_eq!(
        TryBuildError::FunnelDeltaLog2BelowMinimum { delta_log2: 4_000_000_190, minimum: 0 }
            .message(),
        "Funnel reserve exponent 4000000190 is below the minimum 0"
    );
    assert_eq!(
        TryBuildError::from(ReserveFractionError::NonFinite).message(),
        "reserve fraction must be finite"
    );
    assert_eq!(
        TryBuildError::from(TryReserveError::AllocError),
        TryBuildError::AllocError
    );
    assert_eq!(TryReserveError::CapacityOverflow.message(), "capacity overflow");
    assert_eq!(TryReserveError::AllocError.message(), "memory allocation failed");
    for (error, message) in [
        (ReserveFractionError::ExponentZero, "reserve exponent must be positive"),
        (ReserveFractionError::NonPositive, "reserve fraction must be positive"),
        (ReserveFractionError::NotBelowOne, "reserve fraction must be less than one"),
        (
            ReserveFractionError::NotInversePowerOfTwo,
            "reserve fraction must be an exact inverse power of two",
        ),
    ] {
        assert_eq!(error.message(), message);
    }
}

#[test]
fn default_hashes_are_those_of_the_seeded_fast_hasher() {
    for seed in [0, 1, u64::MAX] {
        let builder = DefaultHashBuilder::with_seed(seed);
        let fixed = foldhash::fast::FixedState::with_seed(seed);
        for key in [0_u64, 1, 5, u64::MAX] {
            assert_eq!(builder.hash_one(&key), fixed.hash_one(key));
        }
        assert_eq!(builder.hash_one(&5_u32), fixed.hash_one(5_u64));
        assert_eq!(builder.hash_one(&5_usize), fixed.hash_one(5_u64));
        assert_eq!(builder.hash_one(&-1_i64), fixed.hash_one(u64::MAX));
        assert_eq!(builder.hash_one(&-1_i32), fixed.hash_one(u64::from(u32::MAX)));
        assert_ne!(builder.hash_one(&5_u64), 5);
    }
    let drawn: Vec<u64> = (0..8)
        .map(|_| DefaultHashBuilder::default().hash_one(&0_u64))
        .collect();
    assert!(drawn.iter().any(|hash| *hash != drawn[0]));
}

#[test]
fn strings_are_keys() {
    let mut elastic = ElasticHashMap::new();
    elastic.insert("key", 42);
    assert_eq!(elastic.get(&"key"), Some(&42));

    let reserve = ReserveFraction::from_exponent(4).unwrap(); // delta = 1/16
    let mut funnel = FunnelHashMap::with_capacity_and_reserve(1024, reserve);
    funnel.insert("key", 42);
    assert_eq!(funnel.remove(&"key"), Some(42));

    let mut owned: FunnelHashMap<String, usize> = FunnelHashMap::new();
    for number in 0..100_usize {
        owned.insert(number.to_string(), number);
    }
    assert_eq!(owned.get(&"57".to_string()), Some(&57));
    assert_eq!(owned.get(&"100".to_string()), None);
    assert_eq!(owned.get(&"57"), Some(&57));
    assert_eq!(owned.get(&"5"), Some(&5));
    assert_eq!(owned.get(&"100"), None);
    assert_eq!(owned.remove(&"57"), Some(57));
    assert!(!owned.contains_key(&"57"));
    let builder = DefaultHashBuilder::with_seed(3);
    let fixed = foldhash::fast::FixedState::with_seed(3);
    assert_eq!(builder.hash_one(&"text"), fixed.hash_one("text"));
    assert_eq!(builder.hash_one(&"text".to_string()), fixed.hash_one("text"));
}

/// A letter that ignores its case.
#[derive(Clone, Copy, Debug)]
struct Letter(char);

impl PartialEq for Letter {
    fn eq(&self, other: &Self) -> bool {
        self.0.eq_ignore_ascii_case(&other.0)
    }
}

impl Eq for Letter {}

/// Looks up letters by their code.
struct Code(u32);

impl Equivalent<Letter> for Code {
    fn obeys() -> bool {
        true
    }

    fn stands_for(&self, key: Letter) -> bool {
        self.equivalent(&key)
    }

    fn equivalent(&self, key: &Letter) -> bool {
        self.0 == u32::from(key.0.to_ascii_lowercase())
    }
}

#[derive(Clone, Copy)]
struct LetterHasher;

impl HashBuilder<Letter> for LetterHasher {
    fn hash_of(&self, key: Letter) -> u64 {
        self.hash_one(&key)
    }

    fn hash_one(&self, key: &Letter) -> u64 {
        u64::from(u32::from(key.0.to_ascii_lowercase())).wrapping_mul(0x9e37_79b9_7f4a_7c15)
    }
}

impl HashBuilder<Code> for LetterHasher {
    fn hash_of(&self, key: Code) -> u64 {
        self.hash_one(&key)
    }

    fn hash_one(&self, key: &Code) -> u64 {
        u64::from(key.0).wrapping_mul(0x9e37_79b9_7f4a_7c15)
    }
}

#[test]
fn equal_keys_share_an_entry_and_the_first_stays() {
    let mut map: FunnelHashMap<Letter, u32, LetterHasher> =
        FunnelHashMap::with_hasher(LetterHasher);
    assert_eq!(map.insert(Letter('a'), 1), None);
    assert_eq!(map.insert(Letter('A'), 2), Some(1));
    assert_eq!(map.len(), 1);
    let (key, value) = map.get_key_value(&Letter('A')).unwrap();
    assert_eq!((key.0, *value), ('a', 2));
    assert_eq!(map.get(&Code(97)), Some(&2));
    assert_eq!(map.get(&Code(98)), None);
    assert!(!map.check_disjoint_aliasing(&[&Letter('a'), &Letter('A')]));
    let mut map: ElasticHashMap<Letter, u32, LetterHasher> =
        ElasticHashMap::with_hasher(LetterHasher);
    map.insert(Letter('b'), 1);
    assert_eq!(map.remove_entry(&Code(98)).map(|(key, value)| (key.0, value)), Some(('b', 1)));
    assert!(map.is_empty());
}
