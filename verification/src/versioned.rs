//! Maps and sets that count their changes, so that an iteration over a snapshot
//! can notice them.

use vstd::prelude::*;

use crate::algebra;
use crate::bulk::{self, put_all};
use crate::epoch::EpochTransition;
use crate::error::{self, decimal, decimal_text, TryBuildError, TryReserveError};
use crate::hashing::{self, DefaultHashBuilder, Equivalent, HashBuilder};
use crate::laws;
use crate::map::HashMap;
use crate::placement;
use crate::reserve::{ReserveFraction, ReserveFractionError};
use crate::set::{holds, HashSet};
use crate::table::{self, TableBackend, TableFacts, TableModel};

verus! {

/// The error of asking for a key that is not there.
#[derive(Clone, Copy, Debug, PartialEq, Eq, Structural)]
pub struct MissingKey;

/// The error of asking for an entry of an empty collection.
#[derive(Clone, Copy, Debug, PartialEq, Eq, Structural)]
pub struct EmptyCollection;

/// The generation after one more change.
pub open spec fn bumped(generation: u64) -> u64 {
    if generation < u64::MAX {
        (generation + 1) as u64
    } else {
        0
    }
}

impl<K: Eq, V, P: TableBackend<K, V>> HashMap<K, V, P> {
    /// Whether a map is another after taking out the entry of a key: the slots, the hash
    /// builder and the reserve fraction stay, the deletion is counted, and the table is
    /// rebuilt if a cleanup is due then, and no other key moves else.
    pub open spec fn took_one(&self, before: &Self, key: K) -> bool {
        &&& self@ == before@.remove(key)
        &&& self.backing().builder() == before.backing().builder()
        &&& self.backing().fraction() == before.backing().fraction()
        &&& self.backing().slot_count() == before.backing().slot_count()
        &&& self.cleaned_after(
            before,
            before.backing().lifecycle().deleted(),
            before.backing().cleanup_due_without(set![key]),
        )
    }

    /// Removes and returns some entry, or `None` if the map is empty.
    pub fn take_any(&mut self) -> (result: Option<(K, V)>)
        requires
            old(self).wf(),
        ensures
            final(self).wf(),
            match result {
                Some((key, value)) => {
                    &&& old(self)@.contains_key(key)
                    &&& old(self)@[key] == value
                    &&& final(self).took_one(old(self), key)
                },
                None => old(self)@ == Map::<K, V>::empty() && *final(self) == *old(self),
            },
    {
        if self.is_empty() {
            return None;
        }
        let ghost start = *self;
        let any = |key: &K, value: &mut V| -> (taken: bool)
            ensures
                taken,
                *final(value) == *old(value),
            {
                let taken: bool = true;
                taken
            };
        let mut entries = self.extract_if(any);
        let ghost before = entries;
        let taken: Option<(K, V)> = entries.next();
        proof {
            if taken is Some {
                let (key, value) = taken->0;
                assert(before.awaits(key));
                assert(value == start@[key]);
                assert forall|other: K| #[trigger]
                    entries.map@.contains_key(other) implies entries.map@[other]
                    == start@[other] by {
                    assert(before.awaits(other));
                }
                assert(entries.map@ =~= start@.remove(key));
                entries.map.backing().lemma_cleanup();
                assert(Set::<K>::empty().insert(key) =~= set![key]);
                assert(entries.map.backing().cleanup_due_without(Set::empty())
                    == start.backing().cleanup_due_without(Set::<K>::empty().insert(key)));
                assert(entries.map.backing().thinned(&start.backing()));
            } else {
                if forall|key: K| !start@.contains_key(key) {
                    assert(start@ =~= Map::<K, V>::empty());
                }
                let key = choose|key: K| start@.contains_key(key);
                assert(entries.map@.contains_key(key));
                assert(false);
            }
        }
        entries.finish();
        taken
    }
}

impl<K: Eq + Clone, V: Clone, P: TableBackend<K, V>> HashMap<K, V, P> {
    /// Clones of the entries, each once, with the keys that they are cloned from.
    pub(crate) fn cloned_pairs(&self) -> (result: (Vec<(K, V)>, Ghost<Seq<K>>))
        requires
            self.wf(),
        ensures
            laws::clones_of(result.0@, self@, result.1@),
            result.0@.len() == self@.len(),
    {
        let mut pairs: Vec<(K, V)> = Vec::with_capacity(self.len());
        let ghost mut keys: Seq<K> = Seq::empty();
        let mut entries = self.iter();
        proof {
            self.backing().lemma_wf();
        }
        loop
            invariant
                entries.wf(),
                self@.dom().finite(),
                entries.rest().submap_of(self@),
                pairs@.len() + entries.rest().dom().len() == self@.len(),
                keys.len() == pairs@.len(),
                keys.no_duplicates(),
                forall|i: int|
                    #![trigger pairs@[i]]
                    #![trigger keys[i]]
                    0 <= i < keys.len() ==> self@.contains_key(keys[i])
                        && !entries.rest().contains_key(keys[i]) && cloned::<K>(
                        keys[i],
                        pairs@[i].0,
                    ) && cloned::<V>(self@[keys[i]], pairs@[i].1),
                forall|key: K| #[trigger]
                    self@.contains_key(key) && !entries.rest().contains_key(key) ==> exists|i: int|
                        0 <= i < keys.len() && #[trigger] keys[i] == key,
            decreases entries.rest().dom().len(),
        {
            let ghost left = entries.rest();
            let ghost earlier = keys;
            proof {
                vstd::set_lib::lemma_set_subset_finite(self@.dom(), left.dom());
            }
            match entries.next() {
                Some((key, value)) => {
                    let copy: (K, V) = (key.clone(), value.clone());
                    pairs.push(copy);
                    proof {
                        assert(cloned::<K>(*key, copy.0));
                        assert(cloned::<V>(*value, copy.1));
                        keys = keys.push(*key);
                        assert(entries.rest().dom() =~= left.dom().remove(*key));
                        assert forall|other: K| #[trigger]
                            self@.contains_key(other) && !entries.rest().contains_key(
                                other,
                            ) implies exists|i: int|
                            0 <= i < keys.len() && #[trigger] keys[i] == other by {
                            if other == *key {
                                assert(keys[earlier.len() as int] == other);
                            } else {
                                assert(!left.contains_key(other));
                                let i = choose|i: int|
                                    0 <= i < earlier.len() && #[trigger] earlier[i] == other;
                                assert(keys[i] == other);
                            }
                        }
                    }
                },
                None => {
                    return (pairs, Ghost(keys));
                },
            }
        }
    }
}

/// A map that counts its changes.
pub struct VersionedMap<K: Eq, V, P: TableBackend<K, V>> {
    map: HashMap<K, V, P>,
    generation: u64,
}

impl<K: Eq, V, P: TableBackend<K, V>> View for VersionedMap<K, V, P> {
    type V = Map<K, V>;

    /// The entries.
    open spec fn view(&self) -> Map<K, V> {
        self.store()@
    }
}

impl<K: Eq, V, P: TableBackend<K, V>> VersionedMap<K, V, P> {
    /// The map.
    pub closed spec fn store(&self) -> HashMap<K, V, P> {
        self.map
    }

    /// The number of changes, modulo `2^64`.
    pub closed spec fn version(&self) -> u64 {
        self.generation
    }

    /// The invariant.
    pub open spec fn wf(&self) -> bool {
        self.store().wf()
    }

    /// A map without changes so far.
    pub fn from_map(map: HashMap<K, V, P>) -> (result: Self)
        ensures
            result.store() == map,
            result.version() == 0,
    {
        VersionedMap { map, generation: 0 }
    }

    /// The map.
    pub fn as_map(&self) -> (result: &HashMap<K, V, P>)
        ensures
            *result == self.store(),
    {
        &self.map
    }

    /// The number of changes, modulo `2^64`.
    pub fn generation(&self) -> (result: u64)
        ensures
            result == self.version(),
    {
        self.generation
    }

    /// Counts a change.
    fn bump(&mut self)
        ensures
            final(self).store() == old(self).store(),
            final(self).version() == bumped(old(self).version()),
    {
        self.generation = self.generation.wrapping_add(1);
    }

    /// Reserves room for at least `additional` more entries. This is no change; on an
    /// error everything is as it was.
    pub fn try_reserve(&mut self, additional: usize) -> (result: Result<(), TryReserveError>)
        requires
            old(self).wf(),
        ensures
            final(self).wf(),
            final(self)@ == old(self)@,
            final(self).store().reserve_tried(&old(self).store(), additional as nat, result),
            final(self).version() == old(self).version(),
    {
        self.map.try_reserve(additional)
    }

    /// Stores a value under a key.
    pub fn set_item(&mut self, key: K, value: V)
        requires
            old(self).wf(),
            table::stored(old(self)@, key) is Some || old(self).store().backing().has_room(),
        ensures
            final(self).wf(),
            final(self)@ == table::put(old(self)@, key, value),
            final(self).version() == bumped(old(self).version()),
            if table::stored(old(self)@, key) is Some {
                final(self).store().same_frame(&old(self).store())
            } else {
                final(self).store().stored_one_more(&old(self).store(), key)
            },
    {
        let _ = self.map.insert(key, value);
        self.bump();
    }

    /// Removes the entry of a key, or reports that there is none.
    pub fn del_item<Q: Equivalent<K>>(&mut self, key: &Q) -> (result: Result<(), MissingKey>) where
        P::Hasher: HashBuilder<Q>,

        requires
            old(self).wf(),
            old(self).store().accepts(*key),
        ensures
            final(self).wf(),
            match table::stored(old(self)@, *key) {
                Some(stored) => {
                    &&& result is Ok
                    &&& final(self).store().removed_one(&old(self).store(), stored)
                    &&& final(self).version() == bumped(old(self).version())
                },
                None => result == Err::<(), _>(MissingKey) && *final(self) == *old(self),
            },
    {
        match self.map.remove(key) {
            Some(_) => {
                self.bump();
                Ok(())
            },
            None => Err(MissingKey),
        }
    }

    /// Removes the entry of a key and returns its value; without one, returns the
    /// default, or reports that there is none.
    pub fn pop<Q: Equivalent<K>>(&mut self, key: &Q, default: Option<V>) -> (result: Result<
        V,
        MissingKey,
    >) where P::Hasher: HashBuilder<Q>
        requires
            old(self).wf(),
            old(self).store().accepts(*key),
        ensures
            final(self).wf(),
            match table::stored(old(self)@, *key) {
                Some(stored) => {
                    &&& result == Ok::<V, MissingKey>(old(self)@[stored])
                    &&& final(self).store().removed_one(&old(self).store(), stored)
                    &&& final(self).version() == bumped(old(self).version())
                },
                None => {
                    &&& *final(self) == *old(self)
                    &&& result == match default {
                        Some(value) => Ok::<V, MissingKey>(value),
                        None => Err::<V, MissingKey>(MissingKey),
                    }
                },
            },
    {
        match self.map.remove(key) {
            Some(value) => {
                self.bump();
                Ok(value)
            },
            None => match default {
                Some(value) => Ok(value),
                None => Err(MissingKey),
            },
        }
    }

    /// Removes and returns some entry.
    pub fn pop_item(&mut self) -> (result: Result<(K, V), EmptyCollection>)
        requires
            old(self).wf(),
        ensures
            final(self).wf(),
            match result {
                Ok((key, value)) => {
                    &&& old(self)@.contains_key(key)
                    &&& old(self)@[key] == value
                    &&& final(self).store().took_one(&old(self).store(), key)
                    &&& final(self).version() == bumped(old(self).version())
                },
                Err(_) => old(self)@ == Map::<K, V>::empty() && *final(self) == *old(self),
            },
            old(self)@ == Map::<K, V>::empty() ==> result is Err,
    {
        match self.map.take_any() {
            Some(entry) => {
                self.bump();
                Ok(entry)
            },
            None => Err(EmptyCollection),
        }
    }

    /// Removes all entries.
    pub fn clear(&mut self)
        requires
            old(self).wf(),
        ensures
            final(self).wf(),
            final(self).store().cleared_from(&old(self).store()),
            final(self).version() == bumped(old(self).version()),
    {
        self.map.clear();
        self.bump();
    }

    /// Inserts the pairs in order, after reserving room for all of them. A change
    /// is counted if there is a pair.
    pub fn update_pairs(&mut self, pairs: Vec<(K, V)>)
        requires
            old(self).wf(),
            old(self)@.len() + pairs@.len() <= usize::MAX,
            old(self).store().backing().can_reserve(pairs@.len()),
        ensures
            final(self).wf(),
            final(self)@ == put_all(old(self)@, pairs@),
            final(self).store().extended_from(&old(self).store(), pairs@),
            final(self).version() == if pairs@.len() > 0 {
                bumped(old(self).version())
            } else {
                old(self).version()
            },
    {
        let touched: bool = pairs.len() > 0;
        self.map.extend(pairs);
        if touched {
            self.bump();
        }
    }

    /// A description: the name, the number of entries and the capacity.
    pub fn describe(&self, name: &str) -> (result: String)
        requires
            self.wf(),
        ensures
            result@ == description(name@, self@.len(), self.store().backing().limit() as nat),
    {
        describe_collection(name, self.map.len(), self.map.capacity())
    }
}

/// The description of a collection.
pub open spec fn description(name: Seq<char>, len: nat, capacity: nat) -> Seq<char> {
    name + "(len="@ + decimal(len) + ", capacity="@ + decimal(capacity) + ")"@
}

/// The description of a collection.
fn describe_collection(name: &str, len: usize, capacity: usize) -> (result: String)
    ensures
        result@ == description(name@, len as nat, capacity as nat),
{
    let mut text: String = String::from_str(name);
    text.append("(len=");
    text.append(decimal_text(len).as_str());
    text.append(", capacity=");
    text.append(decimal_text(capacity).as_str());
    text.append(")");
    text
}

/// Whether lookups find clones of what they find in one map, and else what they find
/// in another.
pub open spec fn updated<K: Eq, V: Clone>(
    after: Map<K, V>,
    before: Map<K, V>,
    other: Map<K, V>,
) -> bool {
    forall|query: K| #[trigger]
        updated_at(after, before, other, query)
}

/// Whether a lookup finds a clone of what it finds in one map, and else what it finds
/// in another.
pub open spec fn updated_at<K: Eq, V: Clone>(
    after: Map<K, V>,
    before: Map<K, V>,
    other: Map<K, V>,
    query: K,
) -> bool {
    match table::looked_up(other, query) {
        Some(value) => table::looked_up(after, query) matches Some(copy) && cloned::<V>(
            value,
            copy,
        ),
        None => table::looked_up(after, query) == table::looked_up(before, query),
    }
}

impl<K: Eq, V: Clone, P: TableBackend<K, V>> VersionedMap<K, V, P> {
    /// The value of a key; without one, the default, which is then stored.
    pub fn set_default(&mut self, key: K, default: V) -> (result: V)
        requires
            old(self).wf(),
            table::stored(old(self)@, key) is Some || old(self).store().backing().has_room(),
        ensures
            final(self).wf(),
            match table::looked_up(old(self)@, key) {
                Some(value) => cloned::<V>(value, result) && *final(self) == *old(self),
                None => {
                    &&& result == default
                    &&& exists|copy: V| #[trigger]
                        cloned::<V>(default, copy) && final(self)@ == old(self)@.insert(key, copy)
                    &&& final(self).store().stored_one_more(&old(self).store(), key)
                    &&& final(self).version() == bumped(old(self).version())
                },
            },
    {
        proof {
            self.map.lemma_keys_are_accepted(key);
        }
        match self.map.get(&key) {
            Some(value) => value.clone(),
            None => {
                let copy: V = default.clone();
                proof {
                    assert(cloned::<V>(default, copy));
                }
                let _ = self.map.insert(key, copy);
                self.bump();
                default
            },
        }
    }
}

impl<K: Eq + Clone, V: Clone, P: TableBackend<K, V>> VersionedMap<K, V, P> {
    /// Inserts clones of the entries of another map, after reserving room for all of
    /// them. A change is counted if there is an entry.
    pub fn update_from(&mut self, other: &HashMap<K, V, P>)
        requires
            old(self).wf(),
            other.wf(),
            table::clones_are_equal::<K>(),
            old(self)@.len() + other@.len() <= usize::MAX,
            old(self).store().backing().can_reserve(other@.len()),
        ensures
            final(self).wf(),
            updated(final(self)@, old(self)@, other@),
            old(self).store().backing().room_for(other@.len()) == Some(
                final(self).store().backing().slot_count(),
            ),
            exists|pairs: Seq<(K, V)>, keys: Seq<K>| #[trigger]
                laws::clones_of(pairs, other@, keys) && final(self).store().extended_from(
                    &old(self).store(),
                    pairs,
                ),
            final(self).version() == if other@ == Map::<K, V>::empty() {
                old(self).version()
            } else {
                bumped(old(self).version())
            },
    {
        let ghost start = self@;
        let (pairs, Ghost(keys)) = other.cloned_pairs();
        proof {
            self.map.backing().lemma_wf();
            other.backing().lemma_wf();
            assert forall|query: K| #[trigger]
                updated_at(put_all(start, pairs@), start, other@, query) by {
                laws::law_update_prefers_the_other(start, other@, pairs@, keys, query);
            }
            if other@.len() == 0 {
                vstd::set_lib::lemma_set_empty_equivalency_len(other@.dom());
                assert(other@ =~= Map::<K, V>::empty());
            }
        }
        self.update_pairs(pairs);
    }
}

/// The reserve fraction of an exponent, an eighth without one.
pub fn reserve_of(exponent: Option<u32>) -> (result: Result<ReserveFraction, ReserveFractionError>)
    ensures
        match exponent {
            Some(exponent) => if exponent == 0 {
                result == Err::<ReserveFraction, _>(ReserveFractionError::ExponentZero)
            } else {
                result matches Ok(reserve) && reserve.wf() && reserve.d() == exponent
            },
            None => result matches Ok(reserve) && reserve.wf() && reserve.d() == 3,
        },
{
    match exponent {
        Some(exponent) => ReserveFraction::from_exponent(exponent),
        None => Ok(ReserveFraction::default()),
    }
}

impl<K: Eq, V, P> VersionedMap<K, V, P> where
    P: TableBackend<K, V> + TableModel<K, V, Hasher = DefaultHashBuilder>,
    DefaultHashBuilder: HashBuilder<K>,
 {
    /// Empty map for at least `capacity` entries, with a reserve of
    /// `2^-reserve_exponent`, an eighth without one.
    pub fn with_options(capacity: usize, reserve_exponent: Option<u32>) -> (result: Result<
        Self,
        TryBuildError,
    >)
        requires
            hashing::lawful_keys::<K>(),
            bulk::default_hashing_is_lawful::<K>(),
        ensures
            reserve_exponent == Some(0u32) ==> result == Err::<Self, _>(
                TryBuildError::InvalidReserveFraction(ReserveFractionError::ExponentZero),
            ),
            reserve_exponent != Some(0u32) ==> exists|reserve: ReserveFraction| #[trigger]
                reserve.wf() && reserve.d() == (match reserve_exponent {
                    Some(exponent) => exponent,
                    None => 3u32,
                }) && match result {
                    Ok(map) => map.version() == 0 && map.store().backing().built(
                        capacity as nat,
                        reserve,
                        map.store().backing().builder(),
                    ),
                    Err(error) => match P::build_slots(capacity as nat, reserve) {
                        Ok(slots) => slots > 0 && error == TryBuildError::AllocError,
                        Err(refusal) => error == refusal,
                    },
                },
    {
        let reserve: ReserveFraction = match reserve_of(reserve_exponent) {
            Ok(reserve) => reserve,
            Err(error) => {
                return Err(TryBuildError::InvalidReserveFraction(error));
            },
        };
        assert(reserve.wf());
        match HashMap::try_with_capacity_and_reserve(capacity, reserve) {
            Ok(map) => Ok(VersionedMap::from_map(map)),
            Err(error) => Err(error),
        }
    }
}

impl<K: Eq + Clone, V: Clone, P> VersionedMap<K, V, P> where
    P: TableBackend<K, V> + TableModel<K, V, Hasher = DefaultHashBuilder>,
    DefaultHashBuilder: HashBuilder<K>,
 {
    /// A map without changes so far that holds clones of the entries, with room for
    /// at least `capacity` entries.
    fn copy_with_capacity(&self, capacity: usize) -> (result: Self)
        requires
            self.wf(),
            capacity >= self@.len(),
            table::clones_are_equal::<K>(),
            bulk::default_hashing_is_lawful::<K>(),
            forall|reserve: ReserveFraction|
                reserve.d() == 3 ==> #[trigger] P::build_slots(capacity as nat, reserve) is Ok,
        ensures
            result.wf(),
            updated(result@, Map::empty(), self@),
            result.version() == 0,
            result@.len() <= self@.len(),
            result.store().backing().fraction().d() == 3,
            result.store().backing().limit() >= capacity,
            P::build_slots(capacity as nat, result.store().backing().fraction()) == Ok::<
                nat,
                TryBuildError,
            >(result.store().backing().slot_count()),
            exists|pairs: Seq<(K, V)>, keys: Seq<K>| #[trigger]
                laws::clones_of(pairs, self@, keys) && result.store().collected_from(
                    capacity as nat,
                    pairs,
                ),
    {
        proof {
            self.map.backing().lemma_wf();
        }
        let mut map: HashMap<K, V, P> = HashMap::with_capacity(capacity);
        let (pairs, Ghost(keys)) = self.map.cloned_pairs();
        proof {
            assert(map@.len() == 0);
            map.backing().lemma_wf();
            assert forall|query: K| #[trigger]
                updated_at(put_all(map@, pairs@), map@, self@, query) by {
                laws::law_update_prefers_the_other(map@, self@, pairs@, keys, query);
            }
            lemma_no_longer(map@, pairs@);
        }
        let ghost fresh = map;
        let ghost all = pairs@;
        map.extend(pairs);
        proof {
            assert(fresh.backing().built(
                capacity as nat,
                map.backing().fraction(),
                map.backing().builder(),
            ));
            assert(laws::clones_of(all, self@, keys) && map.collected_from(capacity as nat, all));
        }
        VersionedMap::from_map(map)
    }

    /// A map without changes so far that holds clones of the entries.
    pub fn copy(&self) -> (result: Self)
        requires
            self.wf(),
            table::clones_are_equal::<K>(),
            bulk::default_hashing_is_lawful::<K>(),
            forall|reserve: ReserveFraction|
                reserve.d() == 3 ==> #[trigger] P::build_slots(self@.len(), reserve) is Ok,
        ensures
            result.wf(),
            updated(result@, Map::empty(), self@),
            result.version() == 0,
            result.store().backing().fraction().d() == 3,
            P::build_slots(self@.len(), result.store().backing().fraction()) == Ok::<
                nat,
                TryBuildError,
            >(result.store().backing().slot_count()),
            exists|pairs: Seq<(K, V)>, keys: Seq<K>| #[trigger]
                laws::clones_of(pairs, self@, keys) && result.store().collected_from(
                    self@.len(),
                    pairs,
                ),
    {
        let capacity: usize = self.map.len();
        assert(capacity as nat == self@.len());
        self.copy_with_capacity(capacity)
    }

    /// A map of clones of the entries of this map and of another, which wins where
    /// both have an entry.
    pub fn merged(&self, other: &Self) -> (result: Self)
        requires
            self.wf(),
            other.wf(),
            self@.len() + other@.len() <= usize::MAX,
            table::clones_are_equal::<K>(),
            bulk::default_hashing_is_lawful::<K>(),
            forall|reserve: ReserveFraction|
                reserve.d() == 3 ==> #[trigger] P::build_slots(
                    self@.len() + other@.len(),
                    reserve,
                ) is Ok,
        ensures
            result.wf(),
            exists|base: Self| #[trigger] base.merges_into(&result, self, other),
            result.store().backing().fraction().d() == 3,
            P::build_slots(self@.len() + other@.len(), result.store().backing().fraction()) == Ok::<
                nat,
                TryBuildError,
            >(result.store().backing().slot_count()),
    {
        let mut result: Self = self.copy_with_capacity(self.map.len() + other.map.len());
        let ghost base = result;
        result.update_from(&other.map);
        assert(base.merges_into(&result, self, other));
        result
    }

    /// Whether this map holds clones of the entries of a first map, with room for those
    /// of a second, and another map is this one after clones of those were inserted.
    pub open spec fn merges_into(&self, merged: &Self, first: &Self, second: &Self) -> bool {
        &&& updated(self@, Map::empty(), first@)
        &&& updated(merged@, self@, second@)
        &&& exists|pairs: Seq<(K, V)>, keys: Seq<K>| #[trigger]
            laws::clones_of(pairs, first@, keys) && self.store().collected_from(
                first@.len() + second@.len(),
                pairs,
            )
        &&& exists|pairs: Seq<(K, V)>, keys: Seq<K>| #[trigger]
            laws::clones_of(pairs, second@, keys) && merged.store().extended_from(
                &self.store(),
                pairs,
            )
    }
}

/// Inserting pairs adds no more entries than there are pairs.
proof fn lemma_no_longer<K: Eq, V>(entries: Map<K, V>, pairs: Seq<(K, V)>)
    requires
        hashing::lawful_keys::<K>(),
        entries.dom().finite(),
    ensures
        put_all(entries, pairs).dom().finite(),
        put_all(entries, pairs).len() <= entries.len() + pairs.len(),
    decreases pairs.len(),
{
    if pairs.len() > 0 {
        let before = put_all(entries, pairs.drop_last());
        lemma_no_longer(entries, pairs.drop_last());
        laws::law_insert_counts_distinct_keys(before, pairs.last().0, pairs.last().1);
    }
}

/// A set that counts its changes.
pub struct VersionedSet<K: Eq, P: TableBackend<K, ()>> {
    set: HashSet<K, P>,
    generation: u64,
}

impl<K: Eq, P: TableBackend<K, ()>> View for VersionedSet<K, P> {
    type V = Set<K>;

    /// The elements.
    open spec fn view(&self) -> Set<K> {
        self.store()@
    }
}

impl<K: Eq, P: TableBackend<K, ()>> VersionedSet<K, P> {
    /// The set.
    pub closed spec fn store(&self) -> HashSet<K, P> {
        self.set
    }

    /// The number of changes, modulo `2^64`.
    pub closed spec fn version(&self) -> u64 {
        self.generation
    }

    /// The invariant.
    pub open spec fn wf(&self) -> bool {
        self.store().wf()
    }

    /// Whether a change is counted if and only if the elements are not those from
    /// before.
    pub open spec fn counted(&self, before: &Self) -> bool {
        self.version() == if self@ != before@ {
            bumped(before.version())
        } else {
            before.version()
        }
    }

    /// A set without changes so far.
    pub fn from_set(set: HashSet<K, P>) -> (result: Self)
        ensures
            result.store() == set,
            result.version() == 0,
    {
        VersionedSet { set, generation: 0 }
    }

    /// The set.
    pub fn as_set(&self) -> (result: &HashSet<K, P>)
        ensures
            *result == self.store(),
    {
        &self.set
    }

    /// The number of changes, modulo `2^64`.
    pub fn generation(&self) -> (result: u64)
        ensures
            result == self.version(),
    {
        self.generation
    }

    /// Counts a change if there was one.
    fn bump_if_changed(&mut self, changed: bool)
        ensures
            final(self).store() == old(self).store(),
            final(self).version() == if changed {
                bumped(old(self).version())
            } else {
                old(self).version()
            },
    {
        if changed {
            self.generation = self.generation.wrapping_add(1);
        }
    }

    /// Reserves room for at least `additional` more elements. This is no change; on an
    /// error everything is as it was.
    pub fn try_reserve(&mut self, additional: usize) -> (result: Result<(), TryReserveError>)
        requires
            old(self).wf(),
        ensures
            final(self).wf(),
            final(self)@ == old(self)@,
            final(self).store().store().reserve_tried(
                &old(self).store().store(),
                additional as nat,
                result,
            ),
            final(self).version() == old(self).version(),
    {
        self.set.try_reserve(additional)
    }

    /// Adds an element unless an equal one is there.
    pub fn add(&mut self, value: K)
        requires
            old(self).wf(),
            holds(old(self)@, value) || old(self).store().store().backing().has_room(),
        ensures
            final(self).wf(),
            final(self)@ == if holds(old(self)@, value) {
                old(self)@
            } else {
                old(self)@.insert(value)
            },
            final(self).version() == if holds(old(self)@, value) {
                old(self).version()
            } else {
                bumped(old(self).version())
            },
            if holds(old(self)@, value) {
                final(self).store().store().same_frame(&old(self).store().store())
            } else {
                final(self).store().store().stored_one_more(&old(self).store().store(), value)
            },
    {
        let added: bool = self.set.insert(value);
        self.bump_if_changed(added);
    }

    /// Removes an element if it is there.
    pub fn discard<Q: Equivalent<K>>(&mut self, value: &Q) where P::Hasher: HashBuilder<Q>
        requires
            old(self).wf(),
            old(self).store().store().accepts(*value),
        ensures
            final(self).wf(),
            match table::stored(old(self).store().store()@, *value) {
                Some(stored) => {
                    &&& final(self)@ == old(self)@.remove(stored)
                    &&& final(self).store().store().removed_one(
                        &old(self).store().store(),
                        stored,
                    )
                    &&& final(self).version() == bumped(old(self).version())
                },
                None => *final(self) == *old(self),
            },
    {
        let removed: bool = self.set.remove(value);
        self.bump_if_changed(removed);
    }

    /// Removes an element, or reports that it is not there.
    pub fn remove<Q: Equivalent<K>>(&mut self, value: &Q) -> (result: Result<(), MissingKey>) where
        P::Hasher: HashBuilder<Q>,

        requires
            old(self).wf(),
            old(self).store().store().accepts(*value),
        ensures
            final(self).wf(),
            match table::stored(old(self).store().store()@, *value) {
                Some(stored) => {
                    &&& result is Ok
                    &&& final(self)@ == old(self)@.remove(stored)
                    &&& final(self).store().store().removed_one(
                        &old(self).store().store(),
                        stored,
                    )
                    &&& final(self).version() == bumped(old(self).version())
                },
                None => result == Err::<(), _>(MissingKey) && *final(self) == *old(self),
            },
    {
        let removed: bool = self.set.remove(value);
        self.bump_if_changed(removed);
        if removed {
            Ok(())
        } else {
            Err(MissingKey)
        }
    }

    /// Removes and returns some element.
    pub fn pop(&mut self) -> (result: Result<K, EmptyCollection>)
        requires
            old(self).wf(),
        ensures
            final(self).wf(),
            match result {
                Ok(value) => {
                    &&& old(self)@.contains(value)
                    &&& final(self)@ == old(self)@.remove(value)
                    &&& final(self).store().store().took_one(&old(self).store().store(), value)
                    &&& final(self).version() == bumped(old(self).version())
                },
                Err(_) => old(self)@ == Set::<K>::empty() && *final(self) == *old(self),
            },
            old(self)@ == Set::<K>::empty() ==> result is Err,
    {
        match self.set.take_any() {
            Some(value) => {
                self.bump_if_changed(true);
                Ok(value)
            },
            None => Err(EmptyCollection),
        }
    }

    /// Removes all elements. This counts as a change in any case.
    pub fn clear(&mut self)
        requires
            old(self).wf(),
        ensures
            final(self).wf(),
            final(self)@ == Set::<K>::empty(),
            final(self).store().store().cleared_from(&old(self).store().store()),
            final(self).version() == bumped(old(self).version()),
    {
        self.set.clear();
        self.bump_if_changed(true);
    }

    /// Adds the items in order.
    pub fn update_items(&mut self, items: Vec<K>)
        requires
            old(self).wf(),
            old(self)@.len() + items@.len() <= usize::MAX,
            old(self).store().store().backing().can_reserve(items@.len()),
        ensures
            final(self).wf(),
            old(self)@.subset_of(final(self)@),
            forall|query: K|
                #![trigger holds(final(self)@, query)]
                holds(final(self)@, query) <==> holds(old(self)@, query) || algebra::listed(
                    items@,
                    query,
                ),
            final(self).store().store().extended_from(
                &old(self).store().store(),
                algebra::unit_pairs(items@),
            ),
            final(self).counted(old(self)),
    {
        let changed: bool = self.set.add_items(items);
        self.bump_if_changed(changed);
    }

    /// Keeps the elements that equal one of another set.
    pub fn intersection_update(&mut self, other: &HashSet<K, P>)
        requires
            old(self).wf(),
            other.wf(),
        ensures
            final(self).wf(),
            final(self)@ == old(self)@.filter(|key: K| holds(other@, key)),
            final(self).store().store().swept_from(&old(self).store().store()),
            final(self).counted(old(self)),
    {
        let changed: bool = self.set.retain_in(other);
        self.bump_if_changed(changed);
    }

    /// Removes the elements that equal one of another set.
    pub fn difference_update(&mut self, other: &HashSet<K, P>)
        requires
            old(self).wf(),
            other.wf(),
        ensures
            final(self).wf(),
            final(self)@ == old(self)@.filter(|key: K| !holds(other@, key)),
            exists|items: Seq<&K>| #[trigger]
                algebra::enumerates(other@, items) && algebra::dropped_all(
                    old(self).store().store(),
                    final(self).store().store(),
                    items,
                ),
            final(self).store().store().backing().builder()
                == old(self).store().store().backing().builder(),
            final(self).store().store().backing().fraction()
                == old(self).store().store().backing().fraction(),
            final(self).store().store().backing().slot_count()
                == old(self).store().store().backing().slot_count(),
            final(self).counted(old(self)),
    {
        let changed: bool = self.set.remove_all(other);
        self.bump_if_changed(changed);
    }

    /// A description: the name, the number of elements and the capacity.
    pub fn describe(&self, name: &str) -> (result: String)
        requires
            self.wf(),
        ensures
            result@ == description(
                name@,
                self@.len(),
                self.store().store().backing().limit() as nat,
            ),
    {
        describe_collection(name, self.set.len(), self.set.capacity())
    }
}

impl<K: Eq + Clone, P: TableBackend<K, ()>> VersionedSet<K, P> {
    /// Adds clones of the elements of another set.
    pub fn update(&mut self, other: &HashSet<K, P>)
        requires
            old(self).wf(),
            other.wf(),
            table::clones_are_equal::<K>(),
            old(self)@.len() + other@.len() <= usize::MAX,
            old(self).store().store().backing().can_reserve(other@.len()),
        ensures
            final(self).wf(),
            old(self)@.subset_of(final(self)@),
            forall|query: K|
                #![trigger holds(final(self)@, query)]
                holds(final(self)@, query) <==> holds(old(self)@, query) || holds(other@, query),
            exists|copies: Seq<K>| #[trigger]
                algebra::copies_all(other@, copies) && final(self).store().store().extended_from(
                    &old(self).store().store(),
                    algebra::unit_pairs(copies),
                ),
            final(self).counted(old(self)),
    {
        let changed: bool = self.set.add_all(other);
        self.bump_if_changed(changed);
    }

    /// Removes the elements that equal one of another set and adds clones of the
    /// other elements of that set. A change is counted if that set has an element.
    pub fn symmetric_difference_update(&mut self, other: &HashSet<K, P>)
        requires
            old(self).wf(),
            other.wf(),
            table::clones_are_equal::<K>(),
            algebra::grows_to::<K, (), P>(
                old(self).store().store().backing(),
                old(self)@.len() + other@.len(),
            ),
        ensures
            final(self).wf(),
            forall|query: K|
                #![trigger holds(final(self)@, query)]
                holds(final(self)@, query) <==> holds(old(self)@, query) != holds(other@, query),
            exists|items: Seq<&K>| #[trigger]
                algebra::enumerates(other@, items) && algebra::toggled_all(
                    old(self).store().store(),
                    final(self).store().store(),
                    items,
                ),
            final(self).store().store().backing().builder()
                == old(self).store().store().backing().builder(),
            final(self).store().store().backing().fraction()
                == old(self).store().store().backing().fraction(),
            final(self).version() == if other@ == Set::<K>::empty() {
                old(self).version()
            } else {
                bumped(old(self).version())
            },
    {
        let touched: bool = self.set.symmetric_difference_with(other);
        self.bump_if_changed(touched);
    }
}

/// A change is always noticed, and changes are counted one by one up to the largest word.
pub proof fn law_changes_are_noticed(generation: u64)
    ensures
        bumped(generation) != generation,
        generation < u64::MAX ==> bumped(generation) == generation + 1,
        bumped(u64::MAX) == 0,
{
}

/// A description starts with the name and shows the number of entries and the capacity.
pub proof fn law_descriptions_show_the_counts(name: Seq<char>, len: nat, capacity: nat)
    ensures
        ({
            let text = description(name, len, capacity);
            let first = name.len() as int + 5;
            let second = first + decimal(len).len() + 11;
            &&& text.take(name.len() as int) == name
            &&& error::number_of(text.subrange(first, first + decimal(len).len())) == len
            &&& error::number_of(text.subrange(second, second + decimal(capacity).len()))
                == capacity
            &&& text.len() == second + decimal(capacity).len() + 1
        }),
{
    reveal_strlit("(len=");
    reveal_strlit(", capacity=");
    reveal_strlit(")");
    let text = description(name, len, capacity);
    let first = name.len() as int + 5;
    let second = first + decimal(len).len() + 11;
    error::law_decimals_denote_their_number(len);
    error::law_decimals_denote_their_number(capacity);
    assert(text.take(name.len() as int) =~= name);
    assert(text.subrange(first, first + decimal(len).len()) =~= decimal(len));
    assert(text.subrange(second, second + decimal(capacity).len()) =~= decimal(capacity));
}

/// Taking out an entry leaves no cleanup due, and is counted as a delete unless a cleanup
/// starts an epoch.
pub proof fn law_taking_leaves_no_cleanup_due<K: Eq, V, P: TableBackend<K, V>>(
    before: HashMap<K, V, P>,
    after: HashMap<K, V, P>,
    key: K,
)
    requires
        after.took_one(&before, key),
    ensures
        !after.backing().cleanup_due(),
        after@ == before@.remove(key),
        after.backing().slot_count() == before.backing().slot_count(),
        after.backing().lifecycle().generation == before.backing().lifecycle().generation
            && before.backing().lifecycle().generation < u32::MAX
            && before.backing().lifecycle().deletions < usize::MAX ==> {
            &&& after.backing().lifecycle().deletions == before.backing().lifecycle().deletions + 1
            &&& after.backing().lifecycle().had_delete
        },
        after.backing().lifecycle().generation != before.backing().lifecycle().generation
            ==> after.backing().lifecycle().transition == EpochTransition::TombstoneCleanup,
{
    let counted = before.backing().lifecycle().deleted();
    let due = before.backing().cleanup_due_without(set![key]);
    let left = choose|left: P| #[trigger]
        left.thinned(&before.backing()) && left.entries() == after@ && left.lifecycle() == counted
            && left.cleanup_due() == due && after.backing().cleaned_from(&left);
    placement::law_deferred_cleanups_are_done::<K, V, P>(left, after.backing());
}

} // verus!
