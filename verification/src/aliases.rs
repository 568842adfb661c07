//! Names for the maps on the two tables and for what they hand out.

use vstd::prelude::*;

use crate::elastic::ElasticTable;
use crate::entry::{Entry, OccupiedEntry, OccupiedError, VacantEntry};
use crate::extract::ExtractIf;
use crate::funnel::FunnelTable;
use crate::hashing::DefaultHashBuilder;
use crate::into_iter::{Drain, IntoIter, IntoKeys, IntoValues};
use crate::iter::{Iter, IterMut, Keys, Values, ValuesMut};
use crate::map::HashMap;
use crate::set::HashSet;

verus! {

/// A hash map on Elastic Hashing.
pub type ElasticHashMap<K, V, S = DefaultHashBuilder> = HashMap<K, V, ElasticTable<K, V, S>>;

/// A view into a single entry of a map on Elastic Hashing.
pub type ElasticEntry<'a, K, V, S = DefaultHashBuilder> = Entry<'a, K, V, ElasticTable<K, V, S>>;

/// View of an occupied entry of a map on Elastic Hashing.
pub type ElasticOccupiedEntry<'a, K, V, S = DefaultHashBuilder> = OccupiedEntry<
    'a,
    K,
    V,
    ElasticTable<K, V, S>,
>;

/// View of a vacant entry of a map on Elastic Hashing.
pub type ElasticVacantEntry<'a, K, V, S = DefaultHashBuilder> = VacantEntry<
    'a,
    K,
    V,
    ElasticTable<K, V, S>,
>;

/// Error of an insertion into a map on Elastic Hashing that has the key.
pub type ElasticOccupiedError<'a, K, V, S = DefaultHashBuilder> = OccupiedError<
    'a,
    K,
    V,
    ElasticTable<K, V, S>,
>;

/// Borrowing iterator over the entries of a map on Elastic Hashing.
pub type ElasticIter<'a, K, V, S = DefaultHashBuilder> = Iter<'a, K, V, ElasticTable<K, V, S>>;

/// Iterator over the entries of a map on Elastic Hashing, for change in place.
pub type ElasticIterMut<'a, K, V, S = DefaultHashBuilder> = IterMut<
    'a,
    K,
    V,
    ElasticTable<K, V, S>,
>;

/// Iterator over the keys of a map on Elastic Hashing.
pub type ElasticKeys<'a, K, V, S = DefaultHashBuilder> = Keys<'a, K, V, ElasticTable<K, V, S>>;

/// Iterator over the values of a map on Elastic Hashing.
pub type ElasticValues<'a, K, V, S = DefaultHashBuilder> = Values<'a, K, V, ElasticTable<K, V, S>>;

/// Iterator over the values of a map on Elastic Hashing, for change in place.
pub type ElasticValuesMut<'a, K, V, S = DefaultHashBuilder> = ValuesMut<
    'a,
    K,
    V,
    ElasticTable<K, V, S>,
>;

/// Consuming iterator over the entries of a map on Elastic Hashing.
pub type ElasticIntoIter<K, V, S = DefaultHashBuilder> = IntoIter<K, V, ElasticTable<K, V, S>>;

/// Consuming iterator over the keys of a map on Elastic Hashing.
pub type ElasticIntoKeys<K, V, S = DefaultHashBuilder> = IntoKeys<K, V, ElasticTable<K, V, S>>;

/// Consuming iterator over the values of a map on Elastic Hashing.
pub type ElasticIntoValues<K, V, S = DefaultHashBuilder> = IntoValues<K, V, ElasticTable<K, V, S>>;

/// Draining iterator over the entries that a map on Elastic Hashing has given up.
pub type ElasticDrain<K, V> = Drain<K, V>;

/// Iterator over the entries that a predicate takes out of a map on Elastic Hashing.
pub type ElasticExtractIf<'a, K, V, F, S = DefaultHashBuilder> = ExtractIf<
    'a,
    K,
    V,
    ElasticTable<K, V, S>,
    F,
>;

/// A hash set on Elastic Hashing.
pub type ElasticHashSet<K, S = DefaultHashBuilder> = HashSet<K, ElasticTable<K, (), S>>;

/// A hash map on Funnel Hashing.
pub type FunnelHashMap<K, V, S = DefaultHashBuilder> = HashMap<K, V, FunnelTable<K, V, S>>;

/// A view into a single entry of a map on Funnel Hashing.
pub type FunnelEntry<'a, K, V, S = DefaultHashBuilder> = Entry<'a, K, V, FunnelTable<K, V, S>>;

/// View of an occupied entry of a map on Funnel Hashing.
pub type FunnelOccupiedEntry<'a, K, V, S = DefaultHashBuilder> = OccupiedEntry<
    'a,
    K,
    V,
    FunnelTable<K, V, S>,
>;

/// View of a vacant entry of a map on Funnel Hashing.
pub type FunnelVacantEntry<'a, K, V, S = DefaultHashBuilder> = VacantEntry<
    'a,
    K,
    V,
    FunnelTable<K, V, S>,
>;

/// Error of an insertion into a map on Funnel Hashing that has the key.
pub type FunnelOccupiedError<'a, K, V, S = DefaultHashBuilder> = OccupiedError<
    'a,
    K,
    V,
    FunnelTable<K, V, S>,
>;

/// Borrowing iterator over the entries of a map on Funnel Hashing.
pub type FunnelIter<'a, K, V, S = DefaultHashBuilder> = Iter<'a, K, V, FunnelTable<K, V, S>>;

/// Iterator over the entries of a map on Funnel Hashing, for change in place.
pub type FunnelIterMut<'a, K, V, S = DefaultHashBuilder> = IterMut<'a, K, V, FunnelTable<K, V, S>>;

/// Iterator over the keys of a map on Funnel Hashing.
pub type FunnelKeys<'a, K, V, S = DefaultHashBuilder> = Keys<'a, K, V, FunnelTable<K, V, S>>;

/// Iterator over the values of a map on Funnel Hashing.
pub type FunnelValues<'a, K, V, S = DefaultHashBuilder> = Values<'a, K, V, FunnelTable<K, V, S>>;

/// Iterator over the values of a map on Funnel Hashing, for change in place.
pub type FunnelValuesMut<'a, K, V, S = DefaultHashBuilder> = ValuesMut<
    'a,
    K,
    V,
    FunnelTable<K, V, S>,
>;

/// Consuming iterator over the entries of a map on Funnel Hashing.
pub type FunnelIntoIter<K, V, S = DefaultHashBuilder> = IntoIter<K, V, FunnelTable<K, V, S>>;

/// Consuming iterator over the keys of a map on Funnel Hashing.
pub type FunnelIntoKeys<K, V, S = DefaultHashBuilder> = IntoKeys<K, V, FunnelTable<K, V, S>>;

/// Consuming iterator over the values of a map on Funnel Hashing.
pub type FunnelIntoValues<K, V, S = DefaultHashBuilder> = IntoValues<K, V, FunnelTable<K, V, S>>;

/// Draining iterator over the entries that a map on Funnel Hashing has given up.
pub type FunnelDrain<K, V> = Drain<K, V>;

/// Iterator over the entries that a predicate takes out of a map on Funnel Hashing.
pub type FunnelExtractIf<'a, K, V, F, S = DefaultHashBuilder> = ExtractIf<
    'a,
    K,
    V,
    FunnelTable<K, V, S>,
    F,
>;

/// A hash set on Funnel Hashing.
pub type FunnelHashSet<K, S = DefaultHashBuilder> = HashSet<K, FunnelTable<K, (), S>>;

} // verus!
