//! Hash sets: maps that store nothing beside their keys.

use vstd::prelude::*;

use crate::error::TryReserveError;
use crate::hashing::{self, Equivalent, HashBuilder};
use crate::iter::Keys;
use crate::map::HashMap;
use crate::table::{self, TableBackend, TableFacts};

verus! {

/// Whether a lookup value stands for an element.
pub open spec fn holds<K: Eq, Q: Equivalent<K>>(elements: Set<K>, query: Q) -> bool {
    exists|key: K| elements.contains(key) && #[trigger] query.stands_for(key)
}


/// A set of keys in a table.
pub struct HashSet<K: Eq, P: TableBackend<K, ()>> {
    map: HashMap<K, (), P>,
}

impl<K: Eq, P: TableBackend<K, ()>> View for HashSet<K, P> {
    type V = Set<K>;

    /// The elements.
    open spec fn view(&self) -> Set<K> {
        self.store()@.dom()
    }
}

impl<K: Eq, P: TableBackend<K, ()>> HashSet<K, P> {
    /// The map behind this set.
    pub closed spec fn store(&self) -> HashMap<K, (), P> {
        self.map
    }

    /// The invariant.
    pub open spec fn wf(&self) -> bool {
        self.store().wf()
    }

    /// A set of the keys of a map.
    pub fn from_map(map: HashMap<K, (), P>) -> (result: Self)
        ensures
            result.store() == map,
    {
        HashSet { map }
    }

    /// The map behind this set.
    pub fn into_map(self) -> (result: HashMap<K, (), P>)
        ensures
            result == self.store(),
    {
        self.map
    }

    /// The map behind this set.
    #[inline]
    pub fn as_map(&self) -> (result: &HashMap<K, (), P>)
        ensures
            *result == self.store(),
    {
        &self.map
    }

    /// The map behind this set, for change.
    #[inline]
    pub(crate) fn map_mut(&mut self) -> (result: &mut HashMap<K, (), P>)
        ensures
            *result == old(self).store(),
            final(self).store() == *final(result),
    {
        &mut self.map
    }

    /// What the invariant says of the elements.
    pub proof fn lemma_wf(&self)
        requires
            self.wf(),
        ensures
            hashing::lawful_keys::<K>(),
            self@.finite(),
            self@.len() == self.store()@.len(),
            forall|left: K, right: K|
                self@.contains(left) && self@.contains(right) && #[trigger] hashing::same_key(
                    left,
                    right,
                ) ==> left == right,
    {
        self.map.backing().lemma_wf();
    }

    /// Number of elements.
    pub fn len(&self) -> (result: usize)
        requires
            self.wf(),
        ensures
            result == self@.len(),
    {
        self.map.len()
    }

    /// Returns `true` if there is no element.
    pub fn is_empty(&self) -> (result: bool)
        requires
            self.wf(),
        ensures
            result == (self@ == Set::<K>::empty()),
    {
        proof {
            assert(self@ == Set::<K>::empty() ==> self.map@ =~= Map::<K, ()>::empty());
            assert(self.map@ == Map::<K, ()>::empty() ==> self@ =~= Set::<K>::empty());
        }
        self.map.is_empty()
    }

    /// Maximum elements before the next automatic resize.
    pub fn capacity(&self) -> (result: usize)
        requires
            self.wf(),
        ensures
            result == self.store().backing().limit(),
    {
        self.map.capacity()
    }

    /// Returns `true` if an element is equivalent to `value`.
    pub fn contains<Q: Equivalent<K>>(&self, value: &Q) -> (result: bool) where
        P::Hasher: HashBuilder<Q>,

        requires
            self.wf(),
            self.store().accepts(*value),
        ensures
            result == holds(self@, *value),
    {
        self.map.contains_key(value)
    }

    /// Adds `value` unless an equal element is there, and says whether it did.
    pub fn insert(&mut self, value: K) -> (result: bool)
        requires
            old(self).wf(),
            holds(old(self)@, value) || old(self).store().backing().has_room(),
        ensures
            final(self).wf(),
            result == !holds(old(self)@, value),
            final(self)@ == if result {
                old(self)@.insert(value)
            } else {
                old(self)@
            },
            if result {
                final(self).store().stored_one_more(&old(self).store(), value)
            } else {
                final(self).store().same_frame(&old(self).store())
            },
    {
        let ghost before = self.map@;
        let added: bool = self.map.insert(value, ()).is_none();
        proof {
            if !added {
                assert(self.map@.dom() =~= before.dom());
            }
        }
        added
    }

    /// Removes the element that `value` is equivalent to, and says whether there
    /// was one.
    pub fn remove<Q: Equivalent<K>>(&mut self, value: &Q) -> (result: bool) where
        P::Hasher: HashBuilder<Q>,

        requires
            old(self).wf(),
            old(self).store().accepts(*value),
        ensures
            final(self).wf(),
            result == holds(old(self)@, *value),
            if result {
                &&& table::stored(old(self).store()@, *value) matches Some(stored)
                &&& final(self)@ == old(self)@.remove(stored)
                &&& final(self).store().removed_one(&old(self).store(), stored)
            } else {
                *final(self) == *old(self)
            },
    {
        self.map.remove(value).is_some()
    }

    /// Removes all elements, keeping allocated capacity.
    pub fn clear(&mut self)
        requires
            old(self).wf(),
        ensures
            final(self).wf(),
            final(self)@ == Set::<K>::empty(),
            final(self).store().cleared_from(&old(self).store()),
    {
        self.map.clear();
        assert(self@ =~= Set::<K>::empty());
    }

    /// Removes and returns some element, or `None` if there is none.
    pub fn take_any(&mut self) -> (result: Option<K>)
        requires
            old(self).wf(),
        ensures
            final(self).wf(),
            match result {
                Some(value) => {
                    &&& old(self)@.contains(value)
                    &&& final(self)@ == old(self)@.remove(value)
                    &&& final(self).store().took_one(&old(self).store(), value)
                },
                None => old(self)@ == Set::<K>::empty() && *final(self) == *old(self),
            },
    {
        let ghost start = self.map@;
        match self.map.take_any() {
            Some((value, _)) => {
                assert(start.remove(value).dom() =~= start.dom().remove(value));
                Some(value)
            },
            None => {
                assert(start.dom() =~= Set::<K>::empty());
                None
            },
        }
    }

    /// Whether an absent element can be added: there is room, or the table can grow.
    pub fn takes_one_more(&self) -> (result: bool)
        requires
            self.wf(),
        ensures
            result == self.store().backing().has_room(),
    {
        self.map.takes_one_more()
    }

    /// Reserves room for at least `additional` more elements.
    pub fn reserve(&mut self, additional: usize)
        requires
            old(self).wf(),
            old(self).store().backing().can_reserve(additional as nat),
        ensures
            final(self).wf(),
            final(self)@ == old(self)@,
            final(self).store().backing().reserved_from(
                &old(self).store().backing(),
                additional as nat,
            ),
    {
        self.map.reserve(additional);
    }

    /// Fallible [`reserve`](Self::reserve): on an error the set is as it was.
    pub fn try_reserve(&mut self, additional: usize) -> (result: Result<(), TryReserveError>)
        requires
            old(self).wf(),
        ensures
            final(self).wf(),
            final(self)@ == old(self)@,
            final(self).store().reserve_tried(&old(self).store(), additional as nat, result),
    {
        self.map.try_reserve(additional)
    }

    /// Iterator over the elements.
    pub fn iter(&self) -> (result: Keys<'_, K, (), P>)
        requires
            self.wf(),
        ensures
            result.wf(),
            result.rest() == self.store()@,
    {
        self.map.keys()
    }

    /// The elements, each once.
    pub fn elements(&self) -> (result: Vec<&K>)
        requires
            self.wf(),
        ensures
            result@.len() == self@.len(),
            result@.no_duplicates(),
            forall|i: int| 0 <= i < result@.len() ==> self@.contains(*#[trigger] result@[i]),
            forall|key: K| #[trigger]
                self@.contains(key) ==> exists|i: int|
                    0 <= i < result@.len() && *#[trigger] result@[i] == key,
    {
        let mut items: Vec<&K> = Vec::new();
        let mut keys = self.map.keys();
        proof {
            self.lemma_wf();
        }
        loop
            invariant
                keys.wf(),
                self@.finite(),
                keys.rest().dom().subset_of(self@),
                items@.len() + keys.rest().dom().len() == self@.len(),
                items@.no_duplicates(),
                forall|i: int|
                    0 <= i < items@.len() ==> self@.contains(*#[trigger] items@[i])
                        && !keys.rest().dom().contains(*items@[i]),
                forall|key: K| #[trigger]
                    self@.contains(key) && !keys.rest().dom().contains(key) ==> exists|i: int|
                        0 <= i < items@.len() && *#[trigger] items@[i] == key,
            decreases keys.rest().dom().len(),
        {
            let ghost left = keys.rest().dom();
            proof {
                vstd::set_lib::lemma_set_subset_finite(self@, left);
            }
            match keys.next() {
                Some(key) => {
                    let ghost taken = items@;
                    items.push(key);
                    proof {
                        assert(keys.rest().dom() =~= left.remove(*key));
                        assert forall|other: K| #[trigger]
                            self@.contains(other) && !keys.rest().dom().contains(
                                other,
                            ) implies exists|i: int|
                            0 <= i < items@.len() && *#[trigger] items@[i] == other by {
                            if other == *key {
                                assert(*items@[taken.len() as int] == other);
                            } else {
                                let i = choose|i: int|
                                    0 <= i < taken.len() && *#[trigger] taken[i] == other;
                                assert(*items@[i] == other);
                            }
                        }
                    }
                },
                None => {
                    proof {
                        assert(left =~= Set::<K>::empty());
                    }
                    return items;
                },
            }
        }
    }
}

} // verus!
