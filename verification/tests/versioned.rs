//! Maps and sets that count their changes, snapshots, and keys that are objects.

use opthash::elastic::ElasticTable;
use opthash::funnel::FunnelTable;
use opthash::map::HashMap;
use opthash::object_key::{
    equal_by_hash_or_identity, equal_integers, pack_kind, packed_address, packed_kind, ObjectKind,
};
use opthash::set::HashSet;
use opthash::snapshot::{ChangedDuringIteration, Snapshot};
use opthash::table::{TableBackend, TableModel};
use opthash::versioned::{reserve_of, EmptyCollection, MissingKey, VersionedMap, VersionedSet};
use opthash::{DefaultHashBuilder, ReserveFractionError, TryBuildError};

type Elastic = ElasticTable<u64, u64, DefaultHashBuilder>;
type Funnel = FunnelTable<u64, u64, DefaultHashBuilder>;

fn exercise_map<P>()
where
    P: TableBackend<u64, u64> + TableModel<u64, u64, Hasher = DefaultHashBuilder>,
{
    let mut map: VersionedMap<u64, u64, P> = VersionedMap::with_options(4, None).unwrap();
    assert_eq!(map.generation(), 0);
    map.set_item(1, 10);
    map.set_item(1, 11);
    assert_eq!(map.generation(), 2);
    assert_eq!(map.as_map().get(&1), Some(&11));

    assert_eq!(map.del_item(&2), Err(MissingKey));
    assert_eq!(map.generation(), 2);
    assert_eq!(map.del_item(&1), Ok(()));
    assert_eq!(map.generation(), 3);

    assert_eq!(map.pop(&1, None), Err(MissingKey));
    assert_eq!(map.pop(&1, Some(7)), Ok(7));
    assert_eq!(map.generation(), 3);
    assert_eq!(map.set_default(5, 50), 50);
    assert_eq!(map.generation(), 4);
    assert_eq!(map.set_default(5, 51), 50);
    assert_eq!(map.generation(), 4);
    assert_eq!(map.pop(&5, Some(7)), Ok(50));
    assert_eq!(map.generation(), 5);

    assert_eq!(map.pop_item(), Err(EmptyCollection));
    assert_eq!(map.generation(), 5);
    map.set_item(8, 80);
    assert_eq!(map.pop_item(), Ok((8, 80)));
    assert_eq!(map.generation(), 7);

    map.update_pairs(Vec::new());
    assert_eq!(map.generation(), 7);
    map.update_pairs(vec![(1, 1), (2, 2), (1, 3)]);
    assert_eq!(map.generation(), 8);
    assert_eq!(map.as_map().len(), 2);
    assert_eq!(map.as_map().get(&1), Some(&3));

    let mut other: VersionedMap<u64, u64, P> = VersionedMap::from_map(HashMap::new());
    map.update_from(other.as_map());
    assert_eq!(map.generation(), 8);
    other.update_pairs(vec![(2, 20), (3, 30)]);
    let merged = map.merged(&other);
    map.update_from(other.as_map());
    assert_eq!(map.generation(), 9);
    assert!(map.as_map().eq(&HashMap::from_iter(vec![(1, 3), (2, 20), (3, 30)])));
    assert!(map.as_map().eq(merged.as_map()));

    let copy = map.copy();
    assert_eq!(copy.generation(), 0);
    assert!(copy.as_map().eq(map.as_map()));
    map.clear();
    assert_eq!(map.generation(), 10);
    assert!(map.as_map().is_empty());
    assert_eq!(copy.as_map().len(), 3);
}

#[test]
fn versioned_maps_count_their_changes() {
    exercise_map::<Elastic>();
    exercise_map::<Funnel>();
}

#[test]
fn options_set_the_reserve() {
    let map = VersionedMap::<u64, u64, Elastic>::with_options(1024, Some(4)).unwrap();
    assert_eq!(map.as_map().reserve_fraction().exponent(), 4);
    assert!(map.as_map().capacity() >= 1024);
    assert_eq!(
        VersionedMap::<u64, u64, Elastic>::with_options(1024, Some(0)).err(),
        Some(TryBuildError::InvalidReserveFraction(ReserveFractionError::ExponentZero))
    );
    assert_eq!(
        VersionedMap::<u64, u64, Funnel>::with_options(1024, Some(2)).err(),
        Some(TryBuildError::FunnelDeltaLog2BelowMinimum { delta_log2: 2, minimum: 3 })
    );
    assert_eq!(reserve_of(None).unwrap().exponent(), 3);
    assert_eq!(reserve_of(Some(9)).unwrap().exponent(), 9);
    assert_eq!(reserve_of(Some(0)), Err(ReserveFractionError::ExponentZero));
}

#[test]
fn descriptions_give_length_and_capacity() {
    let mut map = VersionedMap::<u64, u64, Elastic>::from_map(HashMap::new());
    assert_eq!(map.describe("ElasticHashMap"), "ElasticHashMap(len=0, capacity=0)");
    map.update_pairs((0..20).map(|key| (key, key)).collect());
    let text = format!("ElasticHashMap(len=20, capacity={})", map.as_map().capacity());
    assert_eq!(map.describe("ElasticHashMap"), text);
    let set = VersionedSet::<u64, FunnelTable<u64, (), DefaultHashBuilder>>::from_set(
        HashSet::from_map(HashMap::new()),
    );
    assert_eq!(set.describe("FunnelHashSet"), "FunnelHashSet(len=0, capacity=0)");
}

fn exercise_set<P>()
where
    P: TableBackend<u64, ()> + TableModel<u64, (), Hasher = DefaultHashBuilder>,
{
    let mut set: VersionedSet<u64, P> =
        VersionedSet::from_set(HashSet::from_map(HashMap::with_capacity(8)));
    set.add(1);
    set.add(1);
    assert_eq!(set.generation(), 1);
    set.discard(&2);
    assert_eq!(set.generation(), 1);
    assert_eq!(set.remove(&2), Err(MissingKey));
    assert_eq!(set.remove(&1), Ok(()));
    assert_eq!(set.generation(), 2);
    assert_eq!(set.pop(), Err(EmptyCollection));
    set.add(6);
    assert_eq!(set.pop(), Ok(6));
    assert_eq!(set.generation(), 4);
    set.add(7);
    set.discard(&7);
    assert_eq!(set.generation(), 6);

    set.update_items(vec![1, 2, 3]);
    assert_eq!(set.generation(), 7);
    set.update_items(vec![3, 2]);
    assert_eq!(set.generation(), 7);
    let mut other: HashSet<u64, P> = HashSet::from_map(HashMap::new());
    other.add_items(vec![3, 4]);
    set.update(&other);
    assert_eq!((set.generation(), set.as_set().len()), (8, 4));
    set.update(&other);
    assert_eq!(set.generation(), 8);
    set.intersection_update(&other);
    assert_eq!((set.generation(), set.as_set().len()), (9, 2));
    set.intersection_update(&other);
    assert_eq!(set.generation(), 9);
    other.remove(&3);
    set.difference_update(&other);
    assert_eq!((set.generation(), set.as_set().len()), (10, 1));
    assert!(set.as_set().contains(&3));
    set.difference_update(&other);
    assert_eq!(set.generation(), 10);
    set.symmetric_difference_update(&other);
    assert_eq!((set.generation(), set.as_set().len()), (11, 2));
    set.clear();
    set.clear();
    assert_eq!((set.generation(), set.as_set().len()), (13, 0));
}

#[test]
fn versioned_sets_count_their_changes() {
    exercise_set::<ElasticTable<u64, (), DefaultHashBuilder>>();
    exercise_set::<FunnelTable<u64, (), DefaultHashBuilder>>();
}

#[test]
fn snapshots_notice_changes() {
    let mut map = VersionedMap::<u64, u64, Funnel>::with_options(8, None).unwrap();
    map.update_pairs(vec![(1, 10), (2, 20)]);
    let mut snapshot = Snapshot::new(vec![1, 2], map.generation());
    assert_eq!(snapshot.len(), 2);
    assert_eq!(snapshot.next(map.generation()), Ok(Some(1)));
    map.set_item(1, 11);
    assert_eq!(snapshot.next(map.generation()), Err(ChangedDuringIteration));
    assert_eq!(
        ChangedDuringIteration.message(),
        "dictionary changed size during iteration"
    );
    let mut fresh = Snapshot::new(vec![1], map.generation());
    assert_eq!(fresh.next(map.generation()), Ok(Some(1)));
    assert_eq!(fresh.next(map.generation()), Ok(None));
    assert_eq!(fresh.next(map.generation()), Ok(None));
    assert_eq!(fresh.len(), 0);
}

#[test]
fn object_kinds_pack_into_addresses() {
    for kind in [ObjectKind::Other, ObjectKind::Str, ObjectKind::Int] {
        let tagged = pack_kind(0x7f00_1238, kind);
        assert_eq!(packed_address(tagged), 0x7f00_1238);
        assert_eq!(packed_kind(tagged), kind);
    }
    assert_eq!(pack_kind(16, ObjectKind::Str), 17);
    assert_eq!(pack_kind(16, ObjectKind::Int), 18);
}

#[test]
fn objects_are_compared_as_far_as_possible() {
    assert_eq!(equal_by_hash_or_identity(1, 2, false), Some(false));
    assert_eq!(equal_by_hash_or_identity(2, 2, true), Some(true));
    assert_eq!(equal_by_hash_or_identity(2, 2, false), None);
    assert_eq!(equal_integers(5, 0, 5, 0), Some(true));
    assert_eq!(equal_integers(5, 0, 6, 0), Some(false));
    assert_eq!(equal_integers(-1, 1, 5, 0), Some(false));
    assert_eq!(equal_integers(-1, 1, -1, -1), Some(false));
    assert_eq!(equal_integers(-1, 1, -1, 1), None);
}

#[test]
fn taking_any_entry_empties_a_map() {
    let mut map: HashMap<u64, u64, Elastic> = HashMap::from_iter(vec![(1, 10), (2, 20), (3, 30)]);
    let mut sum = 0;
    while let Some((key, value)) = map.take_any() {
        assert_eq!(value, key * 10);
        sum += key;
    }
    assert_eq!(sum, 6);
    assert!(map.is_empty());
}
