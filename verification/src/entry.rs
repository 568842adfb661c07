//! Views into single map entries.

use vstd::prelude::*;

use crate::hashing::{self, Equivalent, HashBuilder};
use crate::map::HashMap;
use crate::table::{self, TableBackend, TableFacts};

verus! {

/// A view into a single map entry, occupied or vacant.
pub enum Entry<'a, K: Eq, V, P: TableBackend<K, V>> {
    /// Key present.
    Occupied(OccupiedEntry<'a, K, V, P>),
    /// Key absent.
    Vacant(VacantEntry<'a, K, V, P>),
}

/// View of an occupied entry.
pub struct OccupiedEntry<'a, K: Eq, V, P: TableBackend<K, V>> {
    /// The map.
    pub map: &'a mut HashMap<K, V, P>,
    /// Where the entry stands.
    pub loc: P::Location,
}

/// View of a vacant entry.
pub struct VacantEntry<'a, K: Eq, V, P: TableBackend<K, V>> {
    /// The map.
    pub map: &'a mut HashMap<K, V, P>,
    /// The absent key.
    pub key: K,
    /// The key's hash.
    pub hash: u64,
}

/// Error returned by [`HashMap::try_insert`] on key collision. Holds the
/// occupied entry that blocked the insertion and the rejected value.
pub struct OccupiedError<'a, K: Eq, V, P: TableBackend<K, V>> {
    /// The entry whose key was already present.
    pub entry: OccupiedEntry<'a, K, V, P>,
    /// The value that could not be inserted.
    pub value: V,
}

/// The key at a location of a map.
pub open spec fn key_in<K: Eq, V, P: TableBackend<K, V>>(
    map: HashMap<K, V, P>,
    loc: P::Location,
) -> K {
    map.backing().key_at(loc)->0
}

/// Whether a location of a map holds an entry.
pub open spec fn holds_entry<K: Eq, V, P: TableBackend<K, V>>(
    map: HashMap<K, V, P>,
    loc: P::Location,
) -> bool {
    map.wf() && map.backing().key_at(loc) is Some && map@.contains_key(key_in(map, loc))
}

/// Whether a key is absent from a map and has a hash.
pub open spec fn awaits<K: Eq, V, P: TableBackend<K, V>>(
    map: HashMap<K, V, P>,
    key: K,
    hash: u64,
) -> bool {
    map.wf() && table::stored(map@, key) is None && hash == map.backing().builder().hash_of(key)
}

impl<'a, K: Eq, V, P: TableBackend<K, V>> OccupiedEntry<'a, K, V, P> {
    /// Reference to the entry's key.
    #[must_use]
    pub fn key(&self) -> (result: &K)
        requires
            holds_entry(*self.map, self.loc),
        ensures
            *result == key_in(*old(self.map), self.loc),
    {
        &self.map.table().slot_ref(self.loc).key
    }

    /// Reference to the entry's value.
    #[must_use]
    pub fn get(&self) -> (result: &V)
        requires
            holds_entry(*self.map, self.loc),
        ensures
            *result == old(self.map)@[key_in(*old(self.map), self.loc)],
    {
        &self.map.table().slot_ref(self.loc).value
    }

    /// Mutable reference to the value, tied to the entry.
    pub fn get_mut(&mut self) -> (result: &mut V)
        requires
            holds_entry(*old(self).map, old(self).loc),
        ensures
            *result == old(self).map@[key_in(*old(self).map, old(self).loc)],
            final(self).loc == old(self).loc,
            holds_entry(*final(self).map, final(self).loc),
            key_in(*final(self).map, final(self).loc) == key_in(*old(self).map, old(self).loc),
            final(self).map@ == old(self).map@.insert(
                key_in(*old(self).map, old(self).loc),
                *final(result),
            ),
            final(self).map.same_frame(old(self).map),
            *final(final(self).map) == *final(old(self).map),
    {
        self.map.table_mut().pair_mut(self.loc).1
    }

    /// Consumes the entry, returning a reference to the value for the map's
    /// lifetime.
    #[must_use]
    pub fn into_mut(self) -> (result: &'a mut V)
        requires
            holds_entry(*self.map, self.loc),
        ensures
            *result == old(self.map)@[key_in(*old(self.map), self.loc)],
            final(self.map).wf(),
            final(self.map)@ == old(self.map)@.insert(
                key_in(*old(self.map), self.loc),
                *final(result),
            ),
            final(self.map).same_frame(old(self.map)),
    {
        self.map.table_mut().pair_mut(self.loc).1
    }

    /// Consumes the entry, returning a reference to its key for the map's
    /// lifetime.
    pub fn into_key(self) -> (result: &'a K)
        requires
            holds_entry(*self.map, self.loc),
        ensures
            *result == key_in(*old(self.map), self.loc),
            *final(self.map) == *old(self.map),
    {
        &self.map.table().slot_ref(self.loc).key
    }

    /// Replaces the value, returning the old one.
    pub fn insert(&mut self, value: V) -> (result: V)
        requires
            holds_entry(*old(self).map, old(self).loc),
        ensures
            result == old(self).map@[key_in(*old(self).map, old(self).loc)],
            final(self).loc == old(self).loc,
            holds_entry(*final(self).map, final(self).loc),
            key_in(*final(self).map, final(self).loc) == key_in(*old(self).map, old(self).loc),
            final(self).map@ == old(self).map@.insert(
                key_in(*old(self).map, old(self).loc),
                value,
            ),
            final(self).map.same_frame(old(self).map),
            *final(final(self).map) == *final(old(self).map),
    {
        self.map.table_mut().replace_value(self.loc, value)
    }

    /// Removes the entry and returns its value.
    #[must_use]
    pub fn remove(self) -> (result: V)
        requires
            holds_entry(*self.map, self.loc),
        ensures
            result == old(self.map)@[key_in(*old(self.map), self.loc)],
            final(self.map).wf(),
            final(self.map).removed_one(old(self.map), key_in(*old(self.map), self.loc)),
    {
        self.remove_entry().1
    }

    /// Removes the entry and returns the pair.
    #[must_use]
    pub fn remove_entry(self) -> (result: (K, V))
        requires
            holds_entry(*self.map, self.loc),
        ensures
            result.0 == key_in(*old(self.map), self.loc),
            result.1 == old(self.map)@[result.0],
            final(self.map).wf(),
            final(self.map).removed_one(old(self.map), result.0),
    {
        self.map.table_mut().remove(self.loc)
    }
}

impl<'a, K: Eq, V, P: TableBackend<K, V>> VacantEntry<'a, K, V, P> {
    /// Reference to the key that would be inserted.
    pub fn key(&self) -> (result: &K)
        ensures
            *result == self.key,
    {
        &self.key
    }

    /// Consumes the entry and returns the key without inserting.
    #[must_use]
    pub fn into_key(self) -> (result: K)
        ensures
            result == self.key,
            *final(self.map) == *old(self.map),
    {
        self.key
    }

    /// Inserts `value` for the entry's key, returning a reference to it.
    pub fn insert(self, value: V) -> (result: &'a mut V)
        requires
            awaits(*self.map, self.key, self.hash),
            self.map.backing().has_room(),
        ensures
            *result == value,
            final(self.map).wf(),
            final(self.map)@ == old(self.map)@.insert(self.key, *final(result)),
            final(self.map).stored_one_more(old(self.map), self.key),
    {
        let ghost before = self.map.backing();
        let table = self.map.table_mut();
        let loc: P::Location = table.insert_for_vacant(self.key, value, self.hash);
        let ghost stored = *table;
        let ghost key = self.key;
        proof {
            assert forall|after: P, last: V|
                after.wf() && after.entries() == stored.entries().insert(key, last)
                    && after.same_frame(&stored) implies #[trigger] after.placed_from(
                &before,
                key,
                last,
            ) by {
                assert(after.entries() =~= before.entries().insert(key, last));
                table::lemma_placed_revalued::<K, V, P>(before, stored, after, key, value, last);
            }
        }
        table.pair_mut(loc).1
    }

    /// Inserts `value` and returns the resulting [`OccupiedEntry`].
    pub fn insert_entry(self, value: V) -> (result: OccupiedEntry<'a, K, V, P>)
        requires
            awaits(*self.map, self.key, self.hash),
            self.map.backing().has_room(),
        ensures
            holds_entry(*result.map, result.loc),
            key_in(*result.map, result.loc) == self.key,
            result.map@ == old(self.map)@.insert(self.key, value),
            result.map.stored_one_more(old(self.map), self.key),
            *final(result.map) == *final(self.map),
    {
        let loc: P::Location = self.map.table_mut().insert_for_vacant(self.key, value, self.hash);
        OccupiedEntry { map: self.map, loc }
    }
}

impl<'a, K: Eq, V, P: TableBackend<K, V>> Entry<'a, K, V, P> {
    /// Whether the entry describes its map.
    pub open spec fn wf(&self) -> bool {
        match *self {
            Entry::Occupied(e) => holds_entry(*e.map, e.loc),
            Entry::Vacant(e) => awaits(*e.map, e.key, e.hash),
        }
    }

    /// Whether the entry's key is stored or can be.
    pub open spec fn insertable(&self) -> bool {
        match *self {
            Entry::Occupied(_) => true,
            Entry::Vacant(e) => e.map.backing().has_room(),
        }
    }

    /// Returns `&mut V`, inserting `default` if vacant.
    pub fn or_insert(self, default: V) -> (result: &'a mut V)
        requires
            self.wf(),
            self.insertable(),
        ensures
            match self {
                Entry::Occupied(e) => {
                    &&& *result == e.map@[key_in(*e.map, e.loc)]
                    &&& final(e.map).wf()
                    &&& final(e.map)@ == e.map@.insert(
                        key_in(*e.map, e.loc),
                        *final(result),
                    )
                    &&& final(e.map).same_frame(e.map)
                },
                Entry::Vacant(e) => {
                    &&& *result == default
                    &&& final(e.map).wf()
                    &&& final(e.map)@ == e.map@.insert(e.key, *final(result))
                    &&& final(e.map).stored_one_more(e.map, e.key)
                },
            },
    {
        match self {
            Entry::Occupied(e) => e.into_mut(),
            Entry::Vacant(e) => e.insert(default),
        }
    }

    /// Like [`or_insert`](Self::or_insert) with a lazily-computed default.
    pub fn or_insert_with<F: FnOnce() -> V>(self, default: F) -> (result: &'a mut V)
        requires
            self.wf(),
            self.insertable(),
            self is Vacant ==> default.requires(()),
        ensures
            match self {
                Entry::Occupied(e) => {
                    &&& *result == e.map@[key_in(*e.map, e.loc)]
                    &&& final(e.map).wf()
                    &&& final(e.map)@ == e.map@.insert(
                        key_in(*e.map, e.loc),
                        *final(result),
                    )
                    &&& final(e.map).same_frame(e.map)
                },
                Entry::Vacant(e) => {
                    &&& default.ensures((), *result)
                    &&& final(e.map).wf()
                    &&& final(e.map)@ == e.map@.insert(e.key, *final(result))
                    &&& final(e.map).stored_one_more(e.map, e.key)
                },
            },
    {
        match self {
            Entry::Occupied(e) => e.into_mut(),
            Entry::Vacant(e) => e.insert(default()),
        }
    }

    /// Like [`or_insert_with`](Self::or_insert_with); the closure gets the key.
    pub fn or_insert_with_key<F: FnOnce(&K) -> V>(self, default: F) -> (result: &'a mut V)
        requires
            self.wf(),
            self.insertable(),
            self matches Entry::Vacant(e) ==> default.requires((&e.key,)),
        ensures
            match self {
                Entry::Occupied(e) => {
                    &&& *result == e.map@[key_in(*e.map, e.loc)]
                    &&& final(e.map).wf()
                    &&& final(e.map)@ == e.map@.insert(
                        key_in(*e.map, e.loc),
                        *final(result),
                    )
                    &&& final(e.map).same_frame(e.map)
                },
                Entry::Vacant(e) => {
                    &&& default.ensures((&e.key,), *result)
                    &&& final(e.map).wf()
                    &&& final(e.map)@ == e.map@.insert(e.key, *final(result))
                    &&& final(e.map).stored_one_more(e.map, e.key)
                },
            },
    {
        match self {
            Entry::Occupied(e) => e.into_mut(),
            Entry::Vacant(e) => {
                let value: V = default(e.key());
                e.insert(value)
            },
        }
    }

    /// Reference to this entry's key.
    pub fn key(&self) -> (result: &K)
        requires
            self.wf(),
        ensures
            match *self {
                Entry::Occupied(e) => *result == key_in(*e.map, e.loc),
                Entry::Vacant(e) => *result == e.key,
            },
    {
        match self {
            Entry::Occupied(e) => e.key(),
            Entry::Vacant(e) => e.key(),
        }
    }

    /// Runs `f` on the value if occupied, then returns the entry.
    #[must_use]
    pub fn and_modify<F: FnOnce(&mut V)>(self, f: F) -> (result: Self)
        requires
            self.wf(),
            self matches Entry::Occupied(e) ==> forall|value: &mut V|
                *value == e.map@[key_in(*e.map, e.loc)] ==> #[trigger] f.requires((value,)),
        ensures
            result.wf(),
            match self {
                Entry::Occupied(e) => {
                    &&& result matches Entry::Occupied(after)
                    &&& after.loc == e.loc
                    &&& key_in(*after.map, after.loc) == key_in(*e.map, e.loc)
                    &&& after.map.same_frame(e.map)
                    &&& *final(after.map) == *final(e.map)
                    &&& exists|value: &mut V| #[trigger]
                        f.ensures((value,), ()) && *value == e.map@[key_in(
                            *e.map,
                            e.loc,
                        )] && after.map@ == e.map@.insert(
                            key_in(*e.map, e.loc),
                            *final(value),
                        )
                },
                Entry::Vacant(e) => result == self,
            },
    {
        match self {
            Entry::Occupied(mut e) => {
                f(e.get_mut());
                Entry::Occupied(e)
            },
            Entry::Vacant(e) => Entry::Vacant(e),
        }
    }
}

impl<'a, K: Eq, V: Default, P: TableBackend<K, V>> Entry<'a, K, V, P> {
    /// Returns `&mut V`, inserting `V::default()` if vacant.
    pub fn or_default(self) -> (result: &'a mut V)
        requires
            self.wf(),
            self.insertable(),
            self is Vacant ==> call_requires(V::default, ()),
        ensures
            match self {
                Entry::Occupied(e) => {
                    &&& *result == e.map@[key_in(*e.map, e.loc)]
                    &&& final(e.map).wf()
                    &&& final(e.map)@ == e.map@.insert(key_in(*e.map, e.loc), *final(result))
                    &&& final(e.map).same_frame(e.map)
                },
                Entry::Vacant(e) => {
                    &&& call_ensures(V::default, (), *result)
                    &&& final(e.map).wf()
                    &&& final(e.map)@ == e.map@.insert(e.key, *final(result))
                    &&& final(e.map).stored_one_more(e.map, e.key)
                },
            },
    {
        match self {
            Entry::Occupied(e) => e.into_mut(),
            Entry::Vacant(e) => e.insert(V::default()),
        }
    }
}

impl<K: Eq, V, P: TableBackend<K, V>> HashMap<K, V, P> {
    /// Gets the [`Entry`] for `key` for in-place manipulation.
    pub fn entry(&mut self, key: K) -> (result: Entry<'_, K, V, P>)
        requires
            old(self).wf(),
        ensures
            result.wf(),
            match result {
                Entry::Occupied(e) => {
                    &&& table::stored(old(self)@, key) == Some(key_in(*e.map, e.loc))
                    &&& *e.map == *old(self)
                    &&& *final(e.map) == *final(self)
                },
                Entry::Vacant(e) => {
                    &&& table::stored(old(self)@, key) is None
                    &&& e.key == key
                    &&& *e.map == *old(self)
                    &&& *final(e.map) == *final(self)
                },
            },
    {
        proof {
            self.lemma_keys_are_accepted(key);
            self.lemma_locations();
        }
        match self.find_location(&key) {
            Some(loc) => Entry::Occupied(OccupiedEntry { map: self, loc }),
            None => {
                let hash: u64 = self.hasher().hash_one(&key);
                Entry::Vacant(VacantEntry { map: self, key, hash })
            },
        }
    }

    /// Inserts `key` and `value` only if absent; otherwise returns an
    /// [`OccupiedError`] carrying the rejected value.
    pub fn try_insert(&mut self, key: K, value: V) -> (result: Result<
        &mut V,
        OccupiedError<'_, K, V, P>,
    >)
        requires
            old(self).wf(),
            table::stored(old(self)@, key) is Some || old(self).backing().has_room(),
        ensures
            match result {
                Ok(stored) => {
                    &&& table::stored(old(self)@, key) is None
                    &&& *stored == value
                    &&& final(self).wf()
                    &&& final(self)@ == old(self)@.insert(key, *final(stored))
                    &&& final(self).stored_one_more(old(self), key)
                },
                Err(error) => {
                    &&& table::stored(old(self)@, key) == Some(
                        key_in(*error.entry.map, error.entry.loc),
                    )
                    &&& error.value == value
                    &&& holds_entry(*error.entry.map, error.entry.loc)
                    &&& *error.entry.map == *old(self)
                    &&& *final(error.entry.map) == *final(self)
                },
            },
    {
        match self.entry(key) {
            Entry::Occupied(entry) => Err(OccupiedError { entry, value }),
            Entry::Vacant(entry) => Ok(entry.insert(value)),
        }
    }

    /// Returns the stored key that `key` stands for, storing `f(key)` with `value`
    /// first if there is none.
    pub fn get_or_insert_key_with<Q: Equivalent<K>, F: FnOnce(&Q) -> K>(
        &mut self,
        key: &Q,
        value: V,
        f: F,
    ) -> (result: &K) where P::Hasher: HashBuilder<Q>
        requires
            old(self).wf(),
            old(self).accepts(*key),
            table::stored(old(self)@, *key) is None ==> {
                &&& old(self).backing().has_room()
                &&& f.requires((key,))
                &&& forall|owned: K| #[trigger]
                    f.ensures((key,), owned) ==> key.stands_for(owned)
            },
        ensures
            final(self).wf(),
            match table::stored(old(self)@, *key) {
                Some(present) => *result == present && *final(self) == *old(self),
                None => {
                    &&& f.ensures((key,), *result)
                    &&& final(self)@ == old(self)@.insert(*result, value)
                    &&& final(self).stored_one_more(old(self), *result)
                },
            },
    {
        let hash: u64 = HashBuilder::<Q>::hash_one(self.hasher(), key);
        match self.find_location(key) {
            Some(loc) => &self.table().slot_ref(loc).key,
            None => {
                let owned: K = f(key);
                proof {
                    if table::stored(self@, owned) is Some {
                        let present = table::stored(self@, owned)->0;
                        assert(owned.stands_for(present));
                        assert(hashing::same_key(owned, present));
                        assert(key.stands_for(present));
                    }
                }
                let loc: P::Location = self.table_mut().insert_for_vacant(owned, value, hash);
                &self.table().slot_ref(loc).key
            },
        }
    }
}

} // verus!
