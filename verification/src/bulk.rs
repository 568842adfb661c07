//! Convenience constructors, bulk insertion, copies and comparison of maps.

use vstd::prelude::*;
use vstd::std_specs::cmp::*;

use crate::error::TryBuildError;
use crate::hashing::{self, DefaultHashBuilder, HashBuilder};
use crate::iter;
use crate::map::HashMap;
use crate::reserve::{self, ReserveFraction};
use crate::table::{self, TableBackend, TableFacts, TableModel};

verus! {

/// The entries after inserting pairs one after the other.
pub open spec fn put_all<K: Eq, V>(entries: Map<K, V>, pairs: Seq<(K, V)>) -> Map<K, V>
    decreases pairs.len(),
{
    if pairs.len() == 0 {
        entries
    } else {
        table::put(put_all(entries, pairs.drop_last()), pairs.last().0, pairs.last().1)
    }
}

/// Whether default hash builders give equal keys equal hashes, whatever the seed.
pub open spec fn default_hashing_is_lawful<K: Eq>() -> bool where DefaultHashBuilder: HashBuilder<K> {
    forall|builder: DefaultHashBuilder| #[trigger]
        hashing::lawful_hashing::<K, DefaultHashBuilder>(builder)
}

impl<K: Eq, V, P: TableBackend<K, V>> HashMap<K, V, P> {
    /// Empty map with the given hash builder.
    #[must_use]
    pub fn with_hasher(hash_builder: P::Hasher) -> (result: Self)
        requires
            hashing::lawful_keys::<K>(),
            hashing::lawful_hashing::<K, P::Hasher>(hash_builder),
            forall|reserve: ReserveFraction|
                reserve.d() == 3 ==> #[trigger] P::build_slots(0, reserve) is Ok,
        ensures
            result.backing().fraction().d() == 3,
            result.backing().built(0, result.backing().fraction(), hash_builder),
    {
        HashMap::with_capacity_and_hasher(0, hash_builder)
    }

    /// Map for at least `capacity` entries, with the given hash builder.
    #[must_use]
    pub fn with_capacity_and_hasher(capacity: usize, hash_builder: P::Hasher) -> (result: Self)
        requires
            hashing::lawful_keys::<K>(),
            hashing::lawful_hashing::<K, P::Hasher>(hash_builder),
            forall|reserve: ReserveFraction|
                reserve.d() == 3 ==> #[trigger] P::build_slots(capacity as nat, reserve) is Ok,
        ensures
            result.backing().fraction().d() == 3,
            result.backing().built(capacity as nat, result.backing().fraction(), hash_builder),
    {
        HashMap::with_capacity_and_reserve_and_hasher(
            capacity,
            ReserveFraction::default(),
            hash_builder,
        )
    }

    /// Inserts the pairs in order, after reserving room for all of them.
    pub fn extend(&mut self, pairs: Vec<(K, V)>)
        requires
            old(self).wf(),
            old(self)@.len() + pairs@.len() <= usize::MAX,
            old(self).backing().can_reserve(pairs@.len()),
        ensures
            final(self).wf(),
            final(self)@ == put_all(old(self)@, pairs@),
            final(self).extended_from(old(self), pairs@),
    {
        let ghost start = *self;
        self.reserve(pairs.len());
        let ghost roomy = *self;
        let ghost all = pairs@;
        let ghost mut stages: Seq<Self> = seq![*self];
        for pair in iter: pairs.into_iter()
            invariant
                iter.seq() == all,
                self.wf(),
                roomy.backing().reserved_from(&start.backing(), all.len()),
                start@.len() + all.len() <= usize::MAX,
                self@ == put_all(start@, all.take(iter.index() as int)),
                self@.len() <= start@.len() + iter.index(),
                self.backing().builder() == roomy.backing().builder(),
                self.backing().fraction() == roomy.backing().fraction(),
                self.backing().slot_count() == roomy.backing().slot_count(),
                stages.len() == iter.index() + 1,
                stages[iter.index() as int] == *self,
                stages[0] == roomy,
                forall|i: int| 0 <= i < iter.index() ==> #[trigger] Self::puts_at(stages, all, i),
        {
            let ghost before = *self;
            let ghost earlier = stages;
            let ghost i = iter.index() as int;
            proof {
                before.backing().lemma_wf();
                assert(all.take(i + 1).drop_last() =~= all.take(i));
                assert(all.take(i + 1).last() == all[i]);
            }
            let (key, value) = pair;
            let _ = self.insert(key, value);
            proof {
                stages = earlier.push(*self);
                assert forall|j: int| 0 <= j < i + 1 implies #[trigger] Self::puts_at(
                    stages,
                    all,
                    j,
                ) by {
                    if j < i {
                        assert(Self::puts_at(earlier, all, j));
                    }
                }
            }
        }
        proof {
            assert(all.take(all.len() as int) =~= all);
            assert(Self::puts(stages, all));
        }
    }

    /// Whether a map is another after inserting an entry.
    pub open spec fn put_from(&self, before: &Self, key: K, value: V) -> bool {
        &&& self.wf()
        &&& self@ == table::put(before@, key, value)
        &&& if table::stored(before@, key) is Some {
            self.same_frame(before)
        } else {
            self.stored_one_more(before, key)
        }
    }

    /// Whether a map is the one before it after inserting the next of some pairs.
    pub open spec fn puts_at(stages: Seq<Self>, pairs: Seq<(K, V)>, i: int) -> bool {
        stages[i + 1].put_from(&stages[i], pairs[i].0, pairs[i].1)
    }

    /// Whether maps show how pairs are inserted into the first of them, one after the
    /// other.
    pub open spec fn puts(stages: Seq<Self>, pairs: Seq<(K, V)>) -> bool {
        &&& stages.len() == pairs.len() + 1
        &&& forall|i: int| 0 <= i < pairs.len() ==> #[trigger] Self::puts_at(stages, pairs, i)
    }

    /// Whether a map is another after room was made for pairs and they were inserted,
    /// one after the other.
    pub open spec fn extended_from(&self, before: &Self, pairs: Seq<(K, V)>) -> bool {
        &&& self.backing().builder() == before.backing().builder()
        &&& self.backing().fraction() == before.backing().fraction()
        &&& before.backing().room_for(pairs.len()) == Some(self.backing().slot_count())
        &&& exists|stages: Seq<Self>| #[trigger]
            Self::puts(stages, pairs) && stages[0].backing().reserved_from(
                &before.backing(),
                pairs.len(),
            ) && stages.last() == *self
    }

    /// Whether a map is a new one for `capacity` entries into which pairs were
    /// inserted, one after the other.
    pub open spec fn collected_from(&self, capacity: nat, pairs: Seq<(K, V)>) -> bool {
        exists|fresh: Self| #[trigger]
            fresh.backing().built(capacity, self.backing().fraction(), self.backing().builder())
                && self.extended_from(&fresh, pairs)
    }
}

impl<K: Eq, V, P> HashMap<K, V, P> where
    P: TableBackend<K, V> + TableModel<K, V, Hasher = DefaultHashBuilder>,
    DefaultHashBuilder: HashBuilder<K>,
 {
    /// Empty map with default reserve and hasher.
    #[must_use]
    pub fn new() -> (result: Self)
        requires
            hashing::lawful_keys::<K>(),
            default_hashing_is_lawful::<K>(),
            forall|reserve: ReserveFraction|
                reserve.d() == 3 ==> #[trigger] P::build_slots(0, reserve) is Ok,
        ensures
            result.backing().fraction().d() == 3,
            result.backing().built(0, result.backing().fraction(), result.backing().builder()),
    {
        HashMap::with_capacity(0)
    }

    /// Map for at least `capacity` entries, with default reserve and hasher.
    #[must_use]
    pub fn with_capacity(capacity: usize) -> (result: Self)
        requires
            hashing::lawful_keys::<K>(),
            default_hashing_is_lawful::<K>(),
            forall|reserve: ReserveFraction|
                reserve.d() == 3 ==> #[trigger] P::build_slots(capacity as nat, reserve) is Ok,
        ensures
            result.backing().fraction().d() == 3,
            result.backing().built(
                capacity as nat,
                result.backing().fraction(),
                result.backing().builder(),
            ),
    {
        HashMap::with_capacity_and_reserve(capacity, ReserveFraction::default())
    }

    /// Empty map with an exact reserve and the default hasher.
    #[must_use]
    pub fn with_reserve(reserve: ReserveFraction) -> (result: Self)
        requires
            reserve.wf(),
            hashing::lawful_keys::<K>(),
            default_hashing_is_lawful::<K>(),
            P::build_slots(0, reserve) is Ok,
        ensures
            result.backing().built(0, reserve, result.backing().builder()),
    {
        HashMap::with_capacity_and_reserve(0, reserve)
    }

    /// Map with an exact reserve and the default hasher.
    #[must_use]
    pub fn with_capacity_and_reserve(capacity: usize, reserve: ReserveFraction) -> (result: Self)
        requires
            reserve.wf(),
            hashing::lawful_keys::<K>(),
            default_hashing_is_lawful::<K>(),
            P::build_slots(capacity as nat, reserve) is Ok,
        ensures
            result.backing().built(capacity as nat, reserve, result.backing().builder()),
    {
        let hash_builder: DefaultHashBuilder = DefaultHashBuilder::default();
        assert(hashing::lawful_hashing::<K, DefaultHashBuilder>(hash_builder));
        HashMap::with_capacity_and_reserve_and_hasher(capacity, reserve, hash_builder)
    }

    /// Fallible constructor with an exact reserve and the default hasher.
    ///
    /// Returns [`TryBuildError`] for an unsupported reserve, capacity overflow, or
    /// allocator failure.
    pub fn try_with_capacity_and_reserve(capacity: usize, reserve: ReserveFraction) -> (result: Result<
        Self,
        TryBuildError,
    >)
        requires
            reserve.wf(),
            hashing::lawful_keys::<K>(),
            default_hashing_is_lawful::<K>(),
        ensures
            match result {
                Ok(map) => map.backing().built(capacity as nat, reserve, map.backing().builder()),
                Err(error) => match P::build_slots(capacity as nat, reserve) {
                    Ok(slots) => slots > 0 && error == TryBuildError::AllocError,
                    Err(refusal) => error == refusal,
                },
            },
    {
        let hash_builder: DefaultHashBuilder = DefaultHashBuilder::default();
        assert(hashing::lawful_hashing::<K, DefaultHashBuilder>(hash_builder));
        HashMap::try_with_capacity_and_reserve_and_hasher(capacity, reserve, hash_builder)
    }

    /// Fallible constructor accepting the binary64 pattern of a reserve, which
    /// must be exactly an inverse power of two.
    pub fn try_with_capacity_and_reserve_bits(capacity: usize, reserve_bits: u64) -> (result: Result<
        Self,
        TryBuildError,
    >)
        requires
            hashing::lawful_keys::<K>(),
            default_hashing_is_lawful::<K>(),
        ensures
            match reserve::pattern_error(reserve_bits) {
                Some(error) => result matches Err(TryBuildError::InvalidReserveFraction(refusal))
                    && refusal == error,
                None => exists|reserve: ReserveFraction| #[trigger]
                    reserve::denotes_inverse_pow2(reserve_bits, reserve.d() as nat)
                        && reserve.wf() && match result {
                        Ok(map) => map.backing().built(
                            capacity as nat,
                            reserve,
                            map.backing().builder(),
                        ),
                        Err(error) => match P::build_slots(capacity as nat, reserve) {
                            Ok(slots) => slots > 0 && error == TryBuildError::AllocError,
                            Err(refusal) => error == refusal,
                        },
                    },
            },
    {
        let hash_builder: DefaultHashBuilder = DefaultHashBuilder::default();
        assert(hashing::lawful_hashing::<K, DefaultHashBuilder>(hash_builder));
        HashMap::try_with_capacity_and_reserve_bits_and_hasher(capacity, reserve_bits, hash_builder)
    }

    /// Collects pairs into a map, later pairs over earlier ones.
    pub fn from_iter(pairs: Vec<(K, V)>) -> (result: Self)
        requires
            hashing::lawful_keys::<K>(),
            default_hashing_is_lawful::<K>(),
            forall|reserve: ReserveFraction|
                reserve.d() == 3 ==> #[trigger] P::build_slots(pairs@.len(), reserve) is Ok,
        ensures
            result.wf(),
            result@ == put_all(Map::empty(), pairs@),
            result.backing().fraction().d() == 3,
            P::build_slots(pairs@.len(), result.backing().fraction()) == Ok::<nat, TryBuildError>(
                result.backing().slot_count(),
            ),
            result.collected_from(pairs@.len(), pairs@),
    {
        let mut map: Self = HashMap::with_capacity(pairs.len());
        let ghost fresh = map;
        map.extend(pairs);
        assert(fresh.backing().built(
            pairs@.len(),
            map.backing().fraction(),
            map.backing().builder(),
        ));
        map
    }
}

impl<K: Eq + Copy, V: Copy, P: TableBackend<K, V>> HashMap<K, V, P> {
    /// Inserts copies of the pairs in order, after reserving room for all of them.
    pub fn extend_copied(&mut self, pairs: &[(K, V)])
        requires
            old(self).wf(),
            old(self)@.len() + pairs@.len() <= usize::MAX,
            old(self).backing().can_reserve(pairs@.len()),
        ensures
            final(self).wf(),
            final(self)@ == put_all(old(self)@, pairs@),
            final(self).extended_from(old(self), pairs@),
    {
        let mut owned: Vec<(K, V)> = Vec::with_capacity(pairs.len());
        for i in 0..pairs.len()
            invariant
                owned@ == pairs@.take(i as int),
        {
            let pair: (K, V) = pairs[i];
            proof {
                assert(pairs@.take(i + 1) =~= pairs@.take(i as int).push(pair));
            }
            owned.push(pair);
        }
        proof {
            assert(pairs@.take(pairs@.len() as int) =~= pairs@);
        }
        self.extend(owned);
    }
}

impl<K: Eq + Clone, V: Clone, P: TableBackend<K, V>> HashMap<K, V, P> where P::Hasher: Clone {
    /// A copy of the map with clones of its entries in the same places.
    pub fn clone(&self) -> (result: Self)
        requires
            self.wf(),
            table::clones_are_equal::<K>(),
            table::clones_hash_alike::<K, P::Hasher>(self.backing().builder()),
        ensures
            result.wf(),
            table::all_cloned(self@, result@),
            cloned::<P::Hasher>(self.backing().builder(), result.backing().builder()),
            result.backing().slot_count() == self.backing().slot_count(),
            result.backing().fraction() == self.backing().fraction(),
            result.backing().lifecycle() == self.backing().lifecycle(),
            result.backing().exceptional() == self.backing().exceptional(),
            forall|loc: P::Location|
                match #[trigger] result.backing().key_at(loc) {
                    Some(copy) => self.backing().key_at(loc) matches Some(key) && cloned::<K>(
                        key,
                        copy,
                    ),
                    None => self.backing().key_at(loc) is None,
                },
            forall|loc: P::Location| #[trigger]
                result.backing().buried_at(loc) == self.backing().buried_at(loc),
    {
        HashMap::from_table(self.table().clone_table())
    }
}

/// Whether a map has as many entries as another and an equal value for each key.
pub open spec fn matches_entries<K: Eq, V: PartialEq>(left: Map<K, V>, right: Map<K, V>) -> bool {
    &&& left.len() == right.len()
    &&& forall|key: K| #[trigger]
        left.contains_key(key) ==> matched(left, right, key)
}

/// Whether two maps have an equal value for a key.
pub open spec fn matched<K: Eq, V: PartialEq>(left: Map<K, V>, right: Map<K, V>, key: K) -> bool {
    table::looked_up(right, key) matches Some(value) && left[key].eq_spec(&value)
}

impl<K: Eq, V: PartialEq, P: TableBackend<K, V>> HashMap<K, V, P> {
    /// Whether the two maps have as many entries and an equal value for each key.
    pub fn eq(&self, other: &Self) -> (result: bool)
        requires
            self.wf(),
            other.wf(),
            V::obeys_eq_spec(),
        ensures
            result == matches_entries(self@, other@),
    {
        if self.len() != other.len() {
            return false;
        }
        let mut entries = self.iter();
        proof {
            self.backing().lemma_wf();
        }
        loop
            invariant
                self.wf(),
                other.wf(),
                V::obeys_eq_spec(),
                self@.len() == other@.len(),
                self@.dom().finite(),
                entries.wf(),
                entries.rest().submap_of(self@),
                forall|key: K| #[trigger]
                    self@.contains_key(key) && !entries.rest().contains_key(key) ==> matched(
                        self@,
                        other@,
                        key,
                    ),
            decreases entries.rest().len(),
        {
            let ghost left = entries.rest();
            match entries.next() {
                Some((key, value)) => {
                    proof {
                        other.lemma_keys_are_accepted(*key);
                        vstd::set_lib::lemma_set_subset_finite(self@.dom(), left.dom());
                        assert(self@.contains_key(*key));
                        assert forall|other: K| #[trigger]
                            entries.rest().dom().contains(other) implies self@.dom().contains(other)
                            && entries.rest()[other] == self@[other] by {
                            assert(left.dom().contains(other));
                        }
                        assert(entries.rest().submap_of(self@));
                    }
                    match other.get(key) {
                        Some(held) => {
                            let equal: bool = *value == *held;
                            if !equal {
                                assert(!matched(self@, other@, *key));
                                return false;
                            }
                        },
                        None => {
                            assert(!matched(self@, other@, *key));
                            return false;
                        },
                    }
                },
                None => {
                    return true;
                },
            }
        }
    }
}

} // verus!
