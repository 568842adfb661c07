//! Hash sets and their algebra.

use opthash::map::HashMap;
use opthash::set::HashSet;
use opthash::table::{TableBackend, TableModel};
use opthash::{DefaultHashBuilder, ElasticHashSet, FunnelHashSet, ReserveFraction};

fn set_of<P>(items: &[u64]) -> HashSet<u64, P>
where
    P: TableBackend<u64, ()> + TableModel<u64, (), Hasher = DefaultHashBuilder>,
{
    let mut set = HashSet::from_map(HashMap::<u64, (), P>::with_capacity(items.len()));
    set.add_items(items.to_vec());
    set
}

fn sorted<P: TableBackend<u64, ()>>(set: &HashSet<u64, P>) -> Vec<u64> {
    let mut items: Vec<u64> = set.elements().into_iter().copied().collect();
    items.sort_unstable();
    items
}

fn exercise_elements<P>()
where
    P: TableBackend<u64, ()> + TableModel<u64, (), Hasher = DefaultHashBuilder>,
{
    let mut set: HashSet<u64, P> = HashSet::from_map(HashMap::new());
    assert!(set.is_empty());
    assert_eq!(set.len(), 0);
    assert!(set.insert(4));
    assert!(!set.insert(4));
    assert!(set.insert(9));
    assert_eq!(set.len(), 2);
    assert!(set.capacity() >= 2);
    assert!(set.contains(&4) && set.contains(&9) && !set.contains(&5));
    assert!(set.remove(&4));
    assert!(!set.remove(&4));
    assert_eq!(sorted(&set), [9]);
    set.reserve(100);
    assert!(set.capacity() >= 101);
    let mut keys = set.iter();
    assert_eq!(keys.next(), Some(&9));
    assert_eq!(keys.next(), None);
    assert_eq!(set.take_any(), Some(9));
    assert_eq!(set.take_any(), None);
    set.insert(1);
    set.clear();
    assert!(set.is_empty());
    assert_eq!(set.as_map().len(), 0);
    assert_eq!(set.into_map().len(), 0);
}

#[test]
fn set_elements_come_and_go() {
    exercise_elements::<opthash::elastic::ElasticTable<u64, (), DefaultHashBuilder>>();
    exercise_elements::<opthash::funnel::FunnelTable<u64, (), DefaultHashBuilder>>();
}

fn exercise_algebra<P>()
where
    P: TableBackend<u64, ()> + TableModel<u64, (), Hasher = DefaultHashBuilder>,
{
    let odd: HashSet<u64, P> = set_of(&[1, 3, 5, 7, 9]);
    let small: HashSet<u64, P> = set_of(&[1, 2, 3, 4]);
    let empty: HashSet<u64, P> = set_of(&[]);

    let mut union: HashSet<u64, P> = set_of(&[1, 3, 5, 7, 9]);
    assert!(union.add_all(&small));
    assert_eq!(sorted(&union), [1, 2, 3, 4, 5, 7, 9]);
    assert!(!union.add_all(&small));
    assert!(!union.add_items(vec![1, 9]));
    assert!(union.add_items(vec![10, 10, 9]));
    assert_eq!(sorted(&union), [1, 2, 3, 4, 5, 7, 9, 10]);

    let mut difference: HashSet<u64, P> = set_of(&[1, 3, 5, 7, 9]);
    assert!(difference.remove_all(&small));
    assert_eq!(sorted(&difference), [5, 7, 9]);
    assert!(!difference.remove_all(&small));
    assert!(difference.remove_items(&[&7, &7, &100]));
    assert_eq!(sorted(&difference), [5, 9]);

    let mut intersection: HashSet<u64, P> = set_of(&[1, 3, 5, 7, 9]);
    assert!(intersection.retain_in(&small));
    assert_eq!(sorted(&intersection), [1, 3]);
    assert!(!intersection.retain_in(&small));

    let mut either: HashSet<u64, P> = set_of(&[1, 3, 5, 7, 9]);
    assert!(either.symmetric_difference_with(&small));
    assert_eq!(sorted(&either), [2, 4, 5, 7, 9]);
    assert!(either.symmetric_difference_with(&small));
    assert!(either.eq(&odd));
    assert!(!either.symmetric_difference_with(&empty));

    assert!(!odd.is_disjoint(&small) && !small.is_disjoint(&odd));
    assert!(difference.is_disjoint(&small) && small.is_disjoint(&difference));
    assert!(empty.is_disjoint(&empty));

    assert!(intersection.is_subset(&odd) && intersection.is_subset(&small));
    assert!(odd.is_superset(&intersection) && !intersection.is_superset(&odd));
    assert!(!odd.is_subset(&small) && !small.is_subset(&odd));
    assert!(empty.is_subset(&odd) && odd.is_superset(&empty));

    assert!(odd.eq(&set_of(&[9, 7, 5, 3, 1])));
    assert!(!odd.eq(&set_of(&[9, 7, 5, 3, 2])));
    assert!(!odd.eq(&small) && empty.eq(&set_of(&[])));
}

#[test]
fn set_algebra_agrees_with_membership() {
    exercise_algebra::<opthash::elastic::ElasticTable<u64, (), DefaultHashBuilder>>();
    exercise_algebra::<opthash::funnel::FunnelTable<u64, (), DefaultHashBuilder>>();
}

#[test]
fn symmetric_difference_grows_a_full_set() {
    let mut set: ElasticHashSet<u64> = set_of(&[]);
    let other: ElasticHashSet<u64> = set_of(&(0..500).collect::<Vec<u64>>());
    assert_eq!(set.capacity(), 0);
    assert!(set.symmetric_difference_with(&other));
    assert!(set.eq(&other));
}

#[test]
fn sets_take_strings_and_a_reserve() {
    let reserve = ReserveFraction::from_exponent(4).unwrap();
    let map = HashMap::try_with_capacity_and_reserve(16, reserve).unwrap();
    let mut set: FunnelHashSet<String> = HashSet::from_map(map);
    assert!(set.insert("key".to_string()));
    assert!(!set.insert("key".to_string()));
    assert!(set.contains(&"key".to_string()));
    assert!(!set.contains(&"lock".to_string()));
    assert_eq!(set.as_map().reserve_fraction().exponent(), 4);
}
