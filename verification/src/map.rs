//! A hash map over a table that stores its entries.

use core::marker::PhantomData;

use vstd::prelude::*;

use crate::control::control_fingerprint;
use crate::epoch::{EpochSnapshot, EpochTransition};
use crate::error::{TryBuildError, TryReserveError};
use crate::hashing::{self, Equivalent, HashBuilder};
use crate::laws;
use crate::placement;
use crate::reserve::{self, ReserveFraction};
use crate::slots::SlotEntry;
use crate::table::{self, TableBackend, TableFacts};

verus! {

/// A map that stores key-value pairs in a table.
pub struct HashMap<K: Eq, V, P: TableBackend<K, V>> {
    table: P,
    marker: PhantomData<(K, V)>,
}

impl<K: Eq, V, P: TableBackend<K, V>> View for HashMap<K, V, P> {
    type V = Map<K, V>;

    /// The stored entries.
    open spec fn view(&self) -> Map<K, V> {
        self.backing().entries()
    }
}

impl<K: Eq, V, P: TableBackend<K, V>> HashMap<K, V, P> {
    /// The table.
    pub closed spec fn backing(&self) -> P {
        self.table
    }

    /// The table's invariant.
    pub open spec fn wf(&self) -> bool {
        self.backing().wf()
    }

    /// Whether a lookup value may be used: it is equivalent to keys of one class
    /// and hashes like them.
    pub open spec fn accepts<Q: Equivalent<K>>(&self, query: Q) -> bool where
        P::Hasher: HashBuilder<Q>,
     {
        hashing::lawful_query::<K, Q, P::Hasher>(self.backing().builder(), query)
    }

    /// Whether everything but the values is as in another map.
    pub open spec fn same_frame(&self, other: &Self) -> bool {
        self.backing().same_frame(&other.backing())
    }

    /// Whether a map is another after storing an entry under a new key: the table has
    /// grown if it was full, and keeps its hash builder and reserve fraction; the key
    /// stands where the construction places it, and a placement recovery is counted if
    /// and only if the construction has no place for it. While there is room and a
    /// place, no other key moves.
    pub open spec fn stored_one_more(&self, before: &Self, key: K) -> bool {
        &&& self.backing().builder() == before.backing().builder()
        &&& self.backing().fraction() == before.backing().fraction()
        &&& self.backing().slot_count() == before.backing().slots_for_one_more()
        &&& self.backing().placed_from(&before.backing(), key, self@[key])
    }

    /// Whether a map is another after removing the entry of a key: the slots, the
    /// hash builder and the reserve fraction stay, the deletion is counted, and the
    /// table is rebuilt if that removal makes a cleanup due, and no other key moves
    /// else.
    pub open spec fn removed_one(&self, before: &Self, key: K) -> bool {
        &&& self@ == before@.remove(key)
        &&& self.backing().builder() == before.backing().builder()
        &&& self.backing().fraction() == before.backing().fraction()
        &&& self.backing().slot_count() == before.backing().slot_count()
        &&& exists|loc: P::Location| #[trigger]
            before.backing().key_at(loc) == Some(key) && self.backing().removed_from(
                &before.backing(),
                loc,
            )
    }

    #[inline]
    pub(crate) fn from_table(table: P) -> (result: Self)
        ensures
            result.backing() == table,
    {
        HashMap { table, marker: PhantomData }
    }

    /// The table behind this map.
    #[inline]
    pub fn table(&self) -> (result: &P)
        ensures
            *result == self.backing(),
    {
        &self.table
    }

    /// The table behind this map, for change.
    #[inline]
    pub(crate) fn table_mut(&mut self) -> (result: &mut P)
        ensures
            *result == old(self).backing(),
            final(self).backing() == *final(result),
    {
        &mut self.table
    }

    /// Full exact constructor: capacity, reserve and hasher.
    #[must_use]
    pub fn with_capacity_and_reserve_and_hasher(
        capacity: usize,
        reserve: ReserveFraction,
        hash_builder: P::Hasher,
    ) -> (result: Self)
        requires
            reserve.wf(),
            hashing::lawful_keys::<K>(),
            hashing::lawful_hashing::<K, P::Hasher>(hash_builder),
            P::build_slots(capacity as nat, reserve) is Ok,
        ensures
            result.backing().built(capacity as nat, reserve, hash_builder),
    {
        HashMap::from_table(
            P::with_capacity_and_reserve_and_hasher(capacity, reserve, hash_builder),
        )
    }

    /// Fallible full exact constructor.
    ///
    /// Returns [`TryBuildError`] for an unsupported reserve, capacity overflow, or
    /// allocator failure.
    pub fn try_with_capacity_and_reserve_and_hasher(
        capacity: usize,
        reserve: ReserveFraction,
        hash_builder: P::Hasher,
    ) -> (result: Result<Self, TryBuildError>)
        requires
            reserve.wf(),
            hashing::lawful_keys::<K>(),
            hashing::lawful_hashing::<K, P::Hasher>(hash_builder),
        ensures
            match result {
                Ok(map) => map.backing().built(capacity as nat, reserve, hash_builder),
                Err(error) => match P::build_slots(capacity as nat, reserve) {
                    Ok(slots) => slots > 0 && error == TryBuildError::AllocError,
                    Err(refusal) => error == refusal,
                },
            },
    {
        match P::try_with_capacity_and_reserve_and_hasher(capacity, reserve, hash_builder) {
            Ok(table) => Ok(HashMap::from_table(table)),
            Err(error) => Err(error),
        }
    }

    /// Fallible constructor accepting the binary64 pattern of a reserve, which
    /// must be exactly an inverse power of two.
    pub fn try_with_capacity_and_reserve_bits_and_hasher(
        capacity: usize,
        reserve_bits: u64,
        hash_builder: P::Hasher,
    ) -> (result: Result<Self, TryBuildError>)
        requires
            hashing::lawful_keys::<K>(),
            hashing::lawful_hashing::<K, P::Hasher>(hash_builder),
        ensures
            match reserve::pattern_error(reserve_bits) {
                Some(error) => result matches Err(TryBuildError::InvalidReserveFraction(refusal))
                    && refusal == error,
                None => exists|reserve: ReserveFraction| #[trigger]
                    reserve::denotes_inverse_pow2(reserve_bits, reserve.d() as nat)
                        && reserve.wf() && match result {
                        Ok(map) => map.backing().built(capacity as nat, reserve, hash_builder),
                        Err(error) => match P::build_slots(capacity as nat, reserve) {
                            Ok(slots) => slots > 0 && error == TryBuildError::AllocError,
                            Err(refusal) => error == refusal,
                        },
                    },
            },
    {
        match ReserveFraction::try_from_f64_bits(reserve_bits) {
            Ok(reserve) => {
                assert(reserve::denotes_inverse_pow2(reserve_bits, reserve.d() as nat));
                HashMap::try_with_capacity_and_reserve_and_hasher(capacity, reserve, hash_builder)
            },
            Err(error) => Err(TryBuildError::from(error)),
        }
    }

    /// Reference to the map's hash builder.
    pub fn hasher(&self) -> (result: &P::Hasher)
        ensures
            *result == self.backing().builder(),
    {
        self.table.hasher()
    }

    /// Number of entries.
    pub fn len(&self) -> (result: usize)
        requires
            self.wf(),
        ensures
            result == self@.len(),
    {
        self.table.len()
    }

    /// Returns `true` if empty.
    pub fn is_empty(&self) -> (result: bool)
        requires
            self.wf(),
        ensures
            result == (self@ == Map::<K, V>::empty()),
    {
        proof {
            self.table.lemma_wf();
            if self@.len() == 0 {
                vstd::set_lib::lemma_set_empty_equivalency_len(self@.dom());
                assert(self@ =~= Map::<K, V>::empty());
            }
        }
        self.table.len() == 0
    }

    /// Maximum entries before the next automatic resize.
    pub fn capacity(&self) -> (result: usize)
        requires
            self.wf(),
        ensures
            result == self.backing().limit(),
            result >= self@.len(),
    {
        proof {
            self.table.lemma_wf();
        }
        self.table.capacity()
    }

    /// Returns the exact reserve fraction fixed for the current epoch.
    #[must_use]
    pub fn reserve_fraction(&self) -> (result: ReserveFraction)
        requires
            self.wf(),
        ensures
            result == self.backing().fraction(),
    {
        self.table.reserve_config()
    }

    /// Returns the current allocation epoch.
    #[must_use]
    pub fn epoch(&self) -> (result: EpochSnapshot)
        requires
            self.wf(),
        ensures
            result == self.backing().lifecycle().snapshot(self@.len()),
    {
        self.table.epoch_snapshot()
    }

    /// Whether an absent key can be inserted: there is room, or the table can grow.
    pub fn takes_one_more(&self) -> (result: bool)
        requires
            self.wf(),
        ensures
            result == self.backing().has_room(),
    {
        self.table.takes_one_more()
    }

    /// Reserves room for at least `additional` more entries.
    pub fn reserve(&mut self, additional: usize)
        requires
            old(self).wf(),
            old(self).backing().can_reserve(additional as nat),
        ensures
            final(self).wf(),
            final(self).backing().reserved_from(&old(self).backing(), additional as nat),
    {
        self.table.reserve(additional);
    }

    /// Fallible [`reserve`](Self::reserve): on an error the map is as it was.
    pub fn try_reserve(&mut self, additional: usize) -> (result: Result<(), TryReserveError>)
        requires
            old(self).wf(),
        ensures
            final(self).reserve_tried(old(self), additional as nat, result),
    {
        self.table.try_reserve(additional)
    }

    /// Whether a map is another after trying to reserve room for `additional` more
    /// entries: on an error it is as it was.
    pub open spec fn reserve_tried(
        &self,
        before: &Self,
        additional: nat,
        result: Result<(), TryReserveError>,
    ) -> bool {
        match result {
            Ok(_) => {
                &&& before@.len() + additional <= usize::MAX
                &&& self.wf()
                &&& self.backing().reserved_from(&before.backing(), additional)
            },
            Err(error) => {
                &&& *self == *before
                &&& before@.len() + additional > before.backing().limit()
                &&& if before@.len() + additional > usize::MAX {
                    error == TryReserveError::CapacityOverflow
                } else {
                    match before.backing().room_for(additional) {
                        None => error == TryReserveError::CapacityOverflow,
                        Some(slots) => match P::refusal(slots, before.backing().fraction()) {
                            Some(refusal) => error == refusal,
                            None => error == TryReserveError::AllocError,
                        },
                    }
                }
            },
        }
    }

    /// Shrinks capacity to fit the current length.
    pub fn shrink_to_fit(&mut self)
        requires
            old(self).wf(),
            old(self).backing().slots_after_shrinking(0) is Some,
        ensures
            final(self).wf(),
            final(self).shrunk_from(old(self), 0),
    {
        self.table.shrink_to(0);
    }

    /// Shrinks capacity toward `min_capacity`.
    pub fn shrink_to(&mut self, min_capacity: usize)
        requires
            old(self).wf(),
            old(self).backing().slots_after_shrinking(min_capacity as nat) is Some,
        ensures
            final(self).wf(),
            final(self).shrunk_from(old(self), min_capacity as nat),
    {
        self.table.shrink_to(min_capacity);
    }

    /// Whether a map is another after shrinking toward `min_capacity`.
    pub open spec fn shrunk_from(&self, before: &Self, min_capacity: nat) -> bool {
        &&& self@ == before@
        &&& self.backing().builder() == before.backing().builder()
        &&& self.backing().fraction() == before.backing().fraction()
        &&& Some(self.backing().slot_count()) == before.backing().slots_after_shrinking(
            min_capacity,
        )
        &&& if self.backing().slot_count() == before.backing().slot_count() {
            self.backing() == before.backing()
        } else {
            self.backing().rebuilt_from(
                &before.backing(),
                self.backing().slot_count(),
                EpochTransition::ExplicitResize,
            )
        }
    }

    /// Removes all entries, keeping allocated capacity.
    pub fn clear(&mut self)
        requires
            old(self).wf(),
        ensures
            final(self).wf(),
            final(self).cleared_from(old(self)),
    {
        self.table.clear();
    }

    /// Whether a map is another with all entries removed in a new epoch.
    pub open spec fn cleared_from(&self, before: &Self) -> bool {
        &&& self@ == Map::<K, V>::empty()
        &&& self.backing().builder() == before.backing().builder()
        &&& self.backing().fraction() == before.backing().fraction()
        &&& self.backing().slot_count() == before.backing().slot_count()
        &&& self.backing().lifecycle() == before.backing().lifecycle().started(
            EpochTransition::Clear,
        )
        &&& !self.backing().exceptional()
        &&& forall|loc: P::Location| !#[trigger] self.backing().buried_at(loc)
    }
}

impl<K: Eq, V, P: TableBackend<K, V>> HashMap<K, V, P> {
    /// An accepted lookup value has one hash for all keys that it stands for.
    proof fn lemma_accepted<Q: Equivalent<K>>(&self, query: Q) where P::Hasher: HashBuilder<Q>
        requires
            self.wf(),
            self.accepts(query),
        ensures
            table::hashes_to::<K, Q, P::Hasher>(
                self.backing().builder(),
                query,
                HashBuilder::<Q>::hash_of(&self.backing().builder(), query),
            ),
    {
    }

    /// A key is an accepted lookup value.
    pub proof fn lemma_keys_are_accepted(&self, key: K)
        requires
            self.wf(),
        ensures
            self.accepts(key),
    {
        self.table.lemma_wf();
        hashing::law_keys_are_lawful_queries::<K, P::Hasher>(self.backing().builder(), key);
    }

    /// A location that holds a key holds one of the map.
    pub proof fn lemma_locations(&self)
        requires
            self.wf(),
        ensures
            forall|loc: P::Location| (#[trigger] self.backing().key_at(loc)) matches Some(key)
                ==> self@.contains_key(key),
    {
        self.table.lemma_wf();
    }

    #[inline]
    pub(crate) fn find_location<Q: Equivalent<K>>(&self, key: &Q) -> (result: Option<P::Location>) where
        P::Hasher: HashBuilder<Q>,

        requires
            self.wf(),
            self.accepts(*key),
        ensures
            match result {
                Some(loc) => self.backing().key_at(loc) == table::stored(self@, *key)
                    && self.backing().key_at(loc) is Some,
                None => table::stored(self@, *key) is None,
            },
    {
        proof {
            self.lemma_accepted(*key);
        }
        let hash: u64 = HashBuilder::<Q>::hash_one(self.table.hasher(), key);
        self.table.find(key, hash, control_fingerprint(hash))
    }

    #[inline]
    fn lookup_entry<Q: Equivalent<K>>(&self, key: &Q) -> (result: Option<&SlotEntry<K, V>>) where
        P::Hasher: HashBuilder<Q>,

        requires
            self.wf(),
            self.accepts(*key),
        ensures
            match result {
                Some(entry) => table::stored(self@, *key) == Some(entry.key) && self@[entry.key]
                    == entry.value,
                None => table::stored(self@, *key) is None,
            },
    {
        proof {
            self.lemma_accepted(*key);
        }
        let hash: u64 = HashBuilder::<Q>::hash_one(self.table.hasher(), key);
        self.table.find_entry(key, hash, control_fingerprint(hash))
    }

    /// Inserts `key` and `value`. Returns the previous value for `key`, if any; an
    /// equal key that is stored stays.
    pub fn insert(&mut self, key: K, value: V) -> (result: Option<V>)
        requires
            old(self).wf(),
            table::stored(old(self)@, key) is Some || old(self).backing().has_room(),
        ensures
            final(self).wf(),
            result == table::looked_up(old(self)@, key),
            final(self)@ == table::put(old(self)@, key, value),
            table::looked_up(final(self)@, key) == Some(value),
            forall|other: K|
                !hashing::same_key(other, key) ==> #[trigger] table::looked_up(final(self)@, other)
                    == table::looked_up(old(self)@, other),
            if table::stored(old(self)@, key) is Some {
                final(self).same_frame(old(self))
            } else {
                final(self).stored_one_more(old(self), key)
            },
    {
        proof {
            self.table.lemma_wf();
            laws::law_get_after_insert(self@, key, value, key);
            assert forall|other: K|
                !hashing::same_key(other, key) implies #[trigger] table::looked_up(
                table::put(self@, key, value),
                other,
            ) == table::looked_up(self@, other) by {
                laws::law_insert_leaves_other_keys(self@, key, value, other);
            }
        }
        let hash: u64 = self.table.hasher().hash_one(&key);
        self.table.insert(key, value, hash)
    }

    /// Returns a reference to the value for `key`.
    pub fn get<Q: Equivalent<K>>(&self, key: &Q) -> (result: Option<&V>) where
        P::Hasher: HashBuilder<Q>,

        requires
            self.wf(),
            self.accepts(*key),
        ensures
            match result {
                Some(value) => table::looked_up(self@, *key) == Some(*value),
                None => table::looked_up(self@, *key) is None,
            },
    {
        match self.lookup_entry(key) {
            Some(entry) => Some(&entry.value),
            None => None,
        }
    }

    /// Returns the stored pair for `key`.
    pub fn get_key_value<Q: Equivalent<K>>(&self, key: &Q) -> (result: Option<(&K, &V)>) where
        P::Hasher: HashBuilder<Q>,

        requires
            self.wf(),
            self.accepts(*key),
        ensures
            match result {
                Some((stored, value)) => table::stored(self@, *key) == Some(*stored)
                    && self@[*stored] == *value,
                None => table::stored(self@, *key) is None,
            },
    {
        match self.lookup_entry(key) {
            Some(entry) => Some((&entry.key, &entry.value)),
            None => None,
        }
    }

    /// Returns a mutable reference to the value for `key`.
    pub fn get_mut<Q: Equivalent<K>>(&mut self, key: &Q) -> (result: Option<&mut V>) where
        P::Hasher: HashBuilder<Q>,

        requires
            old(self).wf(),
            old(self).accepts(*key),
        ensures
            match result {
                Some(value) => {
                    &&& table::looked_up(old(self)@, *key) == Some(*value)
                    &&& final(self).wf()
                    &&& final(self)@ == old(self)@.insert(
                        table::stored(old(self)@, *key)->0,
                        *final(value),
                    )
                    &&& final(self).same_frame(old(self))
                },
                None => table::stored(old(self)@, *key) is None && *final(self) == *old(self),
            },
    {
        match self.find_location(key) {
            Some(loc) => Some(self.table.pair_mut(loc).1),
            None => None,
        }
    }

    /// Returns `true` if `key` is present.
    pub fn contains_key<Q: Equivalent<K>>(&self, key: &Q) -> (result: bool) where
        P::Hasher: HashBuilder<Q>,

        requires
            self.wf(),
            self.accepts(*key),
        ensures
            result == (table::stored(self@, *key) is Some),
    {
        self.find_location(key).is_some()
    }

    /// Removes `key`, returning its value.
    pub fn remove<Q: Equivalent<K>>(&mut self, key: &Q) -> (result: Option<V>) where
        P::Hasher: HashBuilder<Q>,

        requires
            old(self).wf(),
            old(self).accepts(*key),
        ensures
            final(self).wf(),
            result == table::looked_up(old(self)@, *key),
            match table::stored(old(self)@, *key) {
                Some(stored) => final(self).removed_one(old(self), stored),
                None => *final(self) == *old(self),
            },
            table::looked_up(final(self)@, *key) is None,
            forall|other: K|
                !key.stands_for(other) ==> #[trigger] table::looked_up(final(self)@, other)
                    == table::looked_up(old(self)@, other),
    {
        proof {
            self.table.lemma_wf();
            laws::law_remove_by_query::<K, V, Q, P::Hasher>(self.backing().builder(), self@, *key);
        }
        match self.remove_entry(key) {
            Some((_, value)) => Some(value),
            None => None,
        }
    }

    /// Removes `key`, returning the stored pair.
    pub fn remove_entry<Q: Equivalent<K>>(&mut self, key: &Q) -> (result: Option<(K, V)>) where
        P::Hasher: HashBuilder<Q>,

        requires
            old(self).wf(),
            old(self).accepts(*key),
        ensures
            final(self).wf(),
            match result {
                Some((stored, value)) => {
                    &&& table::stored(old(self)@, *key) == Some(stored)
                    &&& old(self)@[stored] == value
                    &&& final(self).removed_one(old(self), stored)
                },
                None => table::stored(old(self)@, *key) is None && *final(self) == *old(self),
            },
    {
        match self.find_location(key) {
            Some(loc) => Some(self.table.remove(loc)),
            None => None,
        }
    }

    /// The value for `key`, which must be present.
    pub fn index<Q: Equivalent<K>>(&self, key: &Q) -> (result: &V) where P::Hasher: HashBuilder<Q>
        requires
            self.wf(),
            self.accepts(*key),
            table::stored(self@, *key) is Some,
        ensures
            table::looked_up(self@, *key) == Some(*result),
    {
        self.get(key).unwrap()
    }
}

/// Whether lookup values stand for different stored keys, as far as they stand
/// for any.
pub open spec fn distinct_hits<K: Eq, V, Q: Equivalent<K>>(
    entries: Map<K, V>,
    keys: Seq<&Q>,
) -> bool {
    forall|i: int, j: int|
        0 <= i < j < keys.len() && table::stored(entries, *#[trigger] keys[i]) is Some
            && table::stored(entries, *#[trigger] keys[j]) is Some ==> table::stored(
            entries,
            *keys[i],
        ) != table::stored(entries, *keys[j])
}

/// Whether a stored key is that of one of the lookup values.
pub open spec fn hit_by<K: Eq, V, Q: Equivalent<K>>(
    entries: Map<K, V>,
    keys: Seq<&Q>,
    key: K,
) -> bool {
    exists|i: int|
        0 <= i < keys.len() && table::stored(entries, *#[trigger] keys[i]) == Some(key)
}

impl<K: Eq, V, P: TableBackend<K, V>> HashMap<K, V, P> {
    /// The location of each key that is stored.
    fn locate_disjoint<Q: Equivalent<K>>(&self, keys: &[&Q]) -> (result: Vec<
        Option<P::Location>,
    >) where P::Hasher: HashBuilder<Q>
        requires
            self.wf(),
            forall|i: int| 0 <= i < keys@.len() ==> self.accepts(*#[trigger] keys@[i]),
        ensures
            result@.len() == keys@.len(),
            forall|i: int|
                0 <= i < keys@.len() ==> match #[trigger] result@[i] {
                    Some(loc) => self.backing().key_at(loc) is Some && self.backing().key_at(loc)
                        == table::stored(self@, *keys@[i]),
                    None => table::stored(self@, *keys@[i]) is None,
                },
    {
        let mut locations: Vec<Option<P::Location>> = Vec::with_capacity(keys.len());
        for i in 0..keys.len()
            invariant
                self.wf(),
                forall|j: int| 0 <= j < keys@.len() ==> self.accepts(*#[trigger] keys@[j]),
                locations@.len() == i,
                forall|j: int|
                    0 <= j < i ==> match #[trigger] locations@[j] {
                        Some(loc) => self.backing().key_at(loc) is Some
                            && self.backing().key_at(loc) == table::stored(self@, *keys@[j]),
                        None => table::stored(self@, *keys@[j]) is None,
                    },
        {
            locations.push(self.find_location(keys[i]));
        }
        locations
    }

    /// Whether no two of the keys resolve to the same entry.
    pub fn check_disjoint_aliasing<Q: Equivalent<K>>(&self, keys: &[&Q]) -> (result: bool) where
        P::Hasher: HashBuilder<Q>,

        requires
            self.wf(),
            forall|i: int| 0 <= i < keys@.len() ==> self.accepts(*#[trigger] keys@[i]),
        ensures
            result == distinct_hits(self@, keys@),
    {
        proof {
            self.table.lemma_wf();
        }
        let locations: Vec<Option<P::Location>> = self.locate_disjoint(keys);
        for i in 0..locations.len()
            invariant
                self.wf(),
                hashing::lawful_keys::<K>(),
                table::distinct(self@),
                forall|loc: P::Location|
                    (#[trigger] self.backing().key_at(loc)) matches Some(key)
                        ==> self@.contains_key(key),
                locations@.len() == keys@.len(),
                forall|k: int|
                    0 <= k < keys@.len() ==> match #[trigger] locations@[k] {
                        Some(loc) => self.backing().key_at(loc) is Some
                            && self.backing().key_at(loc) == table::stored(self@, *keys@[k]),
                        None => table::stored(self@, *keys@[k]) is None,
                    },
                forall|k: int, l: int|
                    0 <= k < l < i && table::stored(self@, *#[trigger] keys@[k]) is Some
                        && table::stored(self@, *#[trigger] keys@[l]) is Some ==> table::stored(
                        self@,
                        *keys@[k],
                    ) != table::stored(self@, *keys@[l]),
        {
            if let Some(later) = locations[i] {
                for j in 0..i
                    invariant
                        self.wf(),
                        hashing::lawful_keys::<K>(),
                        table::distinct(self@),
                        forall|loc: P::Location|
                            (#[trigger] self.backing().key_at(loc)) matches Some(key)
                                ==> self@.contains_key(key),
                        i < locations@.len(),
                        locations@.len() == keys@.len(),
                        locations@[i as int] == Some(later),
                        forall|k: int|
                            0 <= k < keys@.len() ==> match #[trigger] locations@[k] {
                                Some(loc) => self.backing().key_at(loc) is Some
                                    && self.backing().key_at(loc) == table::stored(
                                    self@,
                                    *keys@[k],
                                ),
                                None => table::stored(self@, *keys@[k]) is None,
                            },
                        forall|k: int|
                            0 <= k < j && table::stored(self@, *#[trigger] keys@[k]) is Some
                                ==> table::stored(self@, *keys@[k]) != table::stored(
                                self@,
                                *keys@[i as int],
                            ),
                {
                    proof {
                        assert(locations@[j as int] is Some <==> table::stored(
                            self@,
                            *keys@[j as int],
                        ) is Some);
                        assert(locations@[i as int] is Some);
                    }
                    if let Some(earlier) = locations[j] {
                        let held = &self.table.slot_ref(earlier).key;
                        let other = &self.table.slot_ref(later).key;
                        let same: bool = held.equivalent(other);
                        proof {
                            assert(same == hashing::same_key(*held, *other));
                            assert(hashing::same_key(*held, *held));
                            assert(self@.contains_key(*held) && self@.contains_key(*other));
                        }
                        if same {
                            proof {
                                assert(table::stored(self@, *keys@[j as int]) == table::stored(
                                    self@,
                                    *keys@[i as int],
                                ));
                            }
                            return false;
                        }
                    }
                }
            }
            proof {
                assert(locations@[i as int] is Some <==> table::stored(
                    self@,
                    *keys@[i as int],
                ) is Some);
            }
        }
        true
    }

    /// Borrows the stored pairs for several keys at once, the values for change in
    /// place. No two keys may resolve to the same entry.
    pub fn get_disjoint_key_value_mut<'a, Q: Equivalent<K>>(&'a mut self, keys: &[&Q]) -> (result:
        Vec<Option<(&'a K, &'a mut V)>>) where P::Hasher: HashBuilder<Q>
        requires
            old(self).wf(),
            forall|i: int| 0 <= i < keys@.len() ==> old(self).accepts(*#[trigger] keys@[i]),
            distinct_hits(old(self)@, keys@),
        ensures
            result@.len() == keys@.len(),
            final(self).wf(),
            final(self).same_frame(old(self)),
            final(self)@.dom() == old(self)@.dom(),
            forall|i: int|
                0 <= i < keys@.len() ==> match table::stored(old(self)@, *#[trigger] keys@[i]) {
                    Some(stored) => {
                        &&& result@[i] is Some
                        &&& *(result@[i]->0).0 == stored
                        &&& *(result@[i]->0).1 == old(self)@[stored]
                        &&& final(self)@[stored] == *final((result@[i]->0).1)
                    },
                    None => result@[i] is None,
                },
            forall|key: K| #[trigger]
                old(self)@.contains_key(key) && !hit_by(old(self)@, keys@, key) ==> final(self)@[key]
                    == old(self)@[key],
    {
        let locations: Vec<Option<P::Location>> = self.locate_disjoint(keys);
        proof {
            assert forall|i: int| 0 <= i < keys@.len() implies (locations@[i] is Some
                <==> table::stored(self@, *#[trigger] keys@[i]) is Some) by {
                assert(locations@[i] is Some || locations@[i] is None);
            }
            assert forall|i: int, j: int|
                0 <= i < j < locations@.len() && (#[trigger] locations@[i]) is Some && (
                #[trigger] locations@[j]) is Some implies self.backing().key_at(locations@[i]->0)
                != self.backing().key_at(locations@[j]->0) by {
                assert(table::stored(self@, *keys@[i]) is Some && table::stored(
                    self@,
                    *keys@[j],
                ) is Some);
            }
            assert forall|key: K| self@.contains_key(key) && !#[trigger] hit_by(
                self@,
                keys@,
                key,
            ) implies forall|i: int|
                0 <= i < locations@.len() && (#[trigger] locations@[i]) is Some
                    ==> self.backing().key_at(locations@[i]->0) != Some(key) by {
                assert forall|i: int| 0 <= i < locations@.len() && (
                #[trigger] locations@[i]) is Some implies self.backing().key_at(locations@[i]->0)
                    != Some(key) by {
                    assert(table::stored(self@, *keys@[i]) != Some(key));
                }
            }
        }
        self.table.pairs_mut(locations.as_slice())
    }

    /// Returns a mutable reference to the value for each key. No two keys may
    /// resolve to the same entry.
    pub fn get_disjoint_mut<'a, Q: Equivalent<K>>(&'a mut self, keys: &[&Q]) -> (result: Vec<
        Option<&'a mut V>,
    >) where P::Hasher: HashBuilder<Q>
        requires
            old(self).wf(),
            forall|i: int| 0 <= i < keys@.len() ==> old(self).accepts(*#[trigger] keys@[i]),
            distinct_hits(old(self)@, keys@),
        ensures
            result@.len() == keys@.len(),
            final(self).wf(),
            final(self).same_frame(old(self)),
            final(self)@.dom() == old(self)@.dom(),
            forall|i: int|
                0 <= i < keys@.len() ==> match table::stored(old(self)@, *#[trigger] keys@[i]) {
                    Some(stored) => {
                        &&& result@[i] is Some
                        &&& *(result@[i]->0) == old(self)@[stored]
                        &&& final(self)@[stored] == *final(result@[i]->0)
                    },
                    None => result@[i] is None,
                },
            forall|key: K| #[trigger]
                old(self)@.contains_key(key) && !hit_by(old(self)@, keys@, key) ==> final(self)@[key]
                    == old(self)@[key],
    {
        let pairs = self.get_disjoint_key_value_mut(keys);
        let ghost all = pairs@;
        let mut values: Vec<Option<&'a mut V>> = Vec::new();
        for pair in iter: pairs.into_iter()
            invariant
                iter.seq() == all,
                values@.len() == iter.index(),
                forall|i: int|
                    0 <= i < iter.index() ==> match #[trigger] values@[i] {
                        Some(value) => all[i] is Some && *value == *(all[i]->0).1 && *final(value)
                            == *final((all[i]->0).1),
                        None => all[i] is None,
                    },
        {
            match pair {
                Some((_, value)) => values.push(Some(value)),
                None => values.push(None),
            }
        }
        values
    }
}

/// Replacing a value moves no key and starts no epoch.
pub proof fn law_updates_move_nothing<K: Eq, V, P: TableBackend<K, V>>(
    before: HashMap<K, V, P>,
    after: HashMap<K, V, P>,
)
    requires
        after.same_frame(&before),
    ensures
        placement::none_moved::<K, V, P>(before.backing(), after.backing()),
        after.backing().lifecycle() == before.backing().lifecycle(),
        after.backing().slot_count() == before.backing().slot_count(),
        after.backing().exceptional() == before.backing().exceptional(),
{
}

/// A new key of a map that has room stands where the construction places it; while it has a
/// place, no other key moves and no epoch starts.
pub proof fn law_insertions_follow_the_construction<K: Eq, V, P: TableBackend<K, V>>(
    before: HashMap<K, V, P>,
    after: HashMap<K, V, P>,
    key: K,
)
    requires
        after.stored_one_more(&before, key),
        before@.len() < before.backing().limit(),
        before.backing().place_of_new(key) is Some,
    ensures
        after.backing().key_at(before.backing().place_of_new(key)->0) == Some(key),
        placement::none_moved::<K, V, P>(before.backing(), after.backing()),
        after.backing().lifecycle() == before.backing().lifecycle(),
        after.backing().slot_count() == before.backing().slot_count(),
{
}

/// Removing a key from a map leaves no cleanup due where none was, and keeps the slots.
pub proof fn law_removals_clean_up<K: Eq, V, P: TableBackend<K, V>>(
    before: HashMap<K, V, P>,
    after: HashMap<K, V, P>,
    key: K,
)
    requires
        before.wf(),
        !before.backing().cleanup_due(),
        after.removed_one(&before, key),
    ensures
        !after.backing().cleanup_due(),
        after@ == before@.remove(key),
        after.backing().slot_count() == before.backing().slot_count(),
{
    let loc = choose|loc: P::Location| #[trigger]
        before.backing().key_at(loc) == Some(key) && after.backing().removed_from(
            &before.backing(),
            loc,
        );
    placement::law_removals_leave_no_cleanup_due::<K, V, P>(
        before.backing(),
        after.backing(),
        loc,
    );
}

/// Clearing a map keeps its slots and starts one epoch, in which there are no entries, no
/// tombstones and no deletes.
pub proof fn law_clearing_starts_one_epoch<K: Eq, V, P: TableBackend<K, V>>(
    before: HashMap<K, V, P>,
    after: HashMap<K, V, P>,
)
    requires
        after.cleared_from(&before),
    ensures
        after@ == Map::<K, V>::empty(),
        after.backing().slot_count() == before.backing().slot_count(),
        after.backing().limit() == before.backing().limit(),
        after.backing().lifecycle().transition == EpochTransition::Clear,
        before.backing().lifecycle().generation < u32::MAX
            ==> after.backing().lifecycle().generation == before.backing().lifecycle().generation
            + 1,
        after.backing().lifecycle().recoveries == before.backing().lifecycle().recoveries,
        !after.backing().lifecycle().had_delete,
        forall|loc: P::Location| !#[trigger] after.backing().buried_at(loc),
{
}

/// Shrinking a map keeps its entries and never gives it more slots; a map that gets fewer
/// starts one epoch of an explicit resize, and any other stays as it was.
pub proof fn law_shrinking_keeps_the_entries<K: Eq, V, P: TableBackend<K, V>>(
    before: HashMap<K, V, P>,
    after: HashMap<K, V, P>,
    min_capacity: nat,
)
    requires
        before.wf(),
        after.shrunk_from(&before, min_capacity),
    ensures
        after@ == before@,
        after.backing().slot_count() <= before.backing().slot_count(),
        after.backing().slot_count() == before.backing().slot_count() ==> after.backing()
            == before.backing(),
        after.backing().slot_count() != before.backing().slot_count() ==> {
            &&& after.backing().lifecycle().transition == EpochTransition::ExplicitResize
            &&& before.backing().lifecycle().generation < u32::MAX
                ==> after.backing().lifecycle().generation
                == before.backing().lifecycle().generation + 1
            &&& forall|loc: P::Location| !#[trigger] after.backing().buried_at(loc)
        },
{
    if after.backing().slot_count() != before.backing().slot_count() {
        placement::law_rebuilds_leave_no_tombstone::<K, V, P>(
            before.backing(),
            after.backing(),
            after.backing().slot_count(),
            EpochTransition::ExplicitResize,
        );
    }
}

} // verus!
