//! Iteration that takes the entries out of a map.

use std::collections::VecDeque;

use vstd::prelude::*;

use crate::epoch::EpochTransition;
use crate::listing;
use crate::map::HashMap;
use crate::slots::SlotEntry;
use crate::table::{TableBackend, TableFacts};

verus! {

/// Consuming iterator over `(K, V)`.
pub struct IntoIter<K: Eq, V, P: TableBackend<K, V>> {
    map: HashMap<K, V, P>,
    scan: P::Scan,
    remaining: usize,
}

impl<K: Eq, V, P: TableBackend<K, V>> IntoIter<K, V, P> {
    /// The entries still to come.
    pub closed spec fn rest(&self) -> Map<K, V> {
        self.map@
    }

    /// The iterator's invariant.
    pub closed spec fn wf(&self) -> bool {
        &&& self.map.wf()
        &&& self.map.backing().scanning(self.scan)
        &&& forall|key: K| #[trigger]
            self.map.backing().pending(self.scan, key) <==> self.map@.contains_key(key)
        &&& self.remaining == self.map@.len()
    }

    /// Yields one of the entries still to come, or `None` if there is none.
    pub fn next(&mut self) -> (result: Option<(K, V)>)
        requires
            old(self).wf(),
        ensures
            final(self).wf(),
            match result {
                Some((key, value)) => {
                    &&& old(self).rest().contains_key(key)
                    &&& old(self).rest()[key] == value
                    &&& final(self).rest() == old(self).rest().remove(key)
                },
                None => {
                    &&& old(self).rest() == Map::<K, V>::empty()
                    &&& final(self).rest() == Map::<K, V>::empty()
                },
            },
    {
        let ghost table = self.map.backing();
        let ghost before = self.scan;
        match self.map.table().scan_next(&mut self.scan) {
            Some(loc) => {
                proof {
                    table.lemma_wf();
                }
                let entry: (K, V) = self.map.table_mut().extract_finish(loc);
                self.remaining = self.remaining - 1;
                proof {
                    assert forall|key: K| #[trigger]
                        self.map.backing().pending(self.scan, key)
                            <==> self.map@.contains_key(key) by {
                        assert(table.pending(self.scan, key) <==> table.pending(before, key) && key
                            != entry.0);
                    }
                }
                Some(entry)
            },
            None => {
                proof {
                    assert forall|key: K| !self.map@.contains_key(key) by {
                        assert(!table.pending(self.scan, key));
                        assert(!table.pending(before, key));
                    }
                    assert(self.map@ =~= Map::<K, V>::empty());
                }
                None
            },
        }
    }

    /// Number of entries still to come.
    pub fn len(&self) -> (result: usize)
        requires
            self.wf(),
        ensures
            result == self.rest().len(),
    {
        self.remaining
    }
}

/// Consuming iterator over owned keys.
pub struct IntoKeys<K: Eq, V, P: TableBackend<K, V>> {
    inner: IntoIter<K, V, P>,
}

impl<K: Eq, V, P: TableBackend<K, V>> IntoKeys<K, V, P> {
    /// The entries whose keys are still to come.
    pub closed spec fn rest(&self) -> Map<K, V> {
        self.inner.rest()
    }

    /// The iterator's invariant.
    pub closed spec fn wf(&self) -> bool {
        self.inner.wf()
    }

    /// Yields one of the keys still to come, or `None` if there is none.
    pub fn next(&mut self) -> (result: Option<K>)
        requires
            old(self).wf(),
        ensures
            final(self).wf(),
            match result {
                Some(key) => {
                    &&& old(self).rest().contains_key(key)
                    &&& final(self).rest() == old(self).rest().remove(key)
                },
                None => {
                    &&& old(self).rest() == Map::<K, V>::empty()
                    &&& final(self).rest() == Map::<K, V>::empty()
                },
            },
    {
        match self.inner.next() {
            Some((key, _)) => Some(key),
            None => None,
        }
    }

    /// Number of keys still to come.
    pub fn len(&self) -> (result: usize)
        requires
            self.wf(),
        ensures
            result == self.rest().len(),
    {
        self.inner.len()
    }
}

/// Consuming iterator over owned values.
pub struct IntoValues<K: Eq, V, P: TableBackend<K, V>> {
    inner: IntoIter<K, V, P>,
}

impl<K: Eq, V, P: TableBackend<K, V>> IntoValues<K, V, P> {
    /// The entries whose values are still to come.
    pub closed spec fn rest(&self) -> Map<K, V> {
        self.inner.rest()
    }

    /// The iterator's invariant.
    pub closed spec fn wf(&self) -> bool {
        self.inner.wf()
    }

    /// Yields one of the values still to come, or `None` if there is none.
    pub fn next(&mut self) -> (result: Option<V>)
        requires
            old(self).wf(),
        ensures
            final(self).wf(),
            match result {
                Some(value) => exists|key: K| #[trigger]
                    old(self).rest().contains_key(key) && old(self).rest()[key] == value
                        && final(self).rest() == old(self).rest().remove(key),
                None => {
                    &&& old(self).rest() == Map::<K, V>::empty()
                    &&& final(self).rest() == Map::<K, V>::empty()
                },
            },
    {
        match self.inner.next() {
            Some((key, value)) => {
                assert(old(self).rest().contains_key(key));
                Some(value)
            },
            None => None,
        }
    }

    /// Number of values still to come.
    pub fn len(&self) -> (result: usize)
        requires
            self.wf(),
        ensures
            result == self.rest().len(),
    {
        self.inner.len()
    }
}

/// What is listed behind the first entry.
proof fn lemma_lists_rest<K, V>(listed: Seq<SlotEntry<K, V>>, entries: Map<K, V>)
    requires
        listed.len() > 0,
        listing::lists(listed, entries),
    ensures
        entries.contains_key(listed[0].key),
        entries[listed[0].key] == listed[0].value,
        listing::lists(listed.subrange(1, listed.len() as int), entries.remove(listed[0].key)),
{
    let rest = listed.subrange(1, listed.len() as int);
    let fewer = entries.remove(listed[0].key);
    assert forall|i: int| 0 <= i < rest.len() implies fewer.contains_key((#[trigger] rest[i]).key)
        && fewer[rest[i].key] == rest[i].value by {
        assert(rest[i] == listed[i + 1]);
    }
    assert forall|key: K| #[trigger] fewer.contains_key(key) implies listing::listed_at(
        rest,
        key,
    ) by {
        assert(listing::listed_at(listed, key));
        let i = choose|i: int| 0 <= i < listed.len() && (#[trigger] listed[i]).key == key;
        assert(rest[i - 1] == listed[i]);
    }
    assert forall|i: int, j: int| 0 <= i < j < rest.len() implies (#[trigger] rest[i]).key != (
    #[trigger] rest[j]).key by {
        assert(rest[i] == listed[i + 1] && rest[j] == listed[j + 1]);
    }
}

/// Draining iterator over the entries that a map has given up.
#[verifier::reject_recursive_types(K)]
pub struct Drain<K, V> {
    entries: VecDeque<SlotEntry<K, V>>,
    listed: Ghost<Map<K, V>>,
}

impl<K, V> Drain<K, V> {
    /// The entries still to come.
    pub closed spec fn rest(&self) -> Map<K, V> {
        self.listed@
    }

    /// The iterator's invariant.
    pub closed spec fn wf(&self) -> bool {
        listing::lists(self.entries@, self.listed@)
    }

    /// Yields one of the entries still to come, or `None` if there is none.
    pub fn next(&mut self) -> (result: Option<(K, V)>)
        requires
            old(self).wf(),
        ensures
            final(self).wf(),
            match result {
                Some((key, value)) => {
                    &&& old(self).rest().contains_key(key)
                    &&& old(self).rest()[key] == value
                    &&& final(self).rest() == old(self).rest().remove(key)
                },
                None => {
                    &&& old(self).rest() == Map::<K, V>::empty()
                    &&& final(self).rest() == Map::<K, V>::empty()
                },
            },
    {
        proof {
            if self.entries@.len() > 0 {
                lemma_lists_rest(self.entries@, self.listed@);
            }
        }
        match self.entries.pop_front() {
            Some(entry) => {
                self.listed = Ghost(self.listed@.remove(entry.key));
                Some((entry.key, entry.value))
            },
            None => {
                proof {
                    assert forall|key: K| !self.listed@.contains_key(key) by {
                        if self.listed@.contains_key(key) {
                            assert(listing::listed_at(self.entries@, key));
                        }
                    }
                    assert(self.listed@ =~= Map::<K, V>::empty());
                }
                None
            },
        }
    }

    /// Number of entries still to come.
    pub fn len(&self) -> (result: usize)
        requires
            self.wf(),
        ensures
            result == self.rest().len(),
    {
        proof {
            listing::lemma_lists_len(self.entries@, self.listed@);
        }
        self.entries.len()
    }
}

impl<K: Eq, V, P: TableBackend<K, V>> HashMap<K, V, P> {
    /// Consuming iterator over `(K, V)`.
    pub fn into_iter(self) -> (result: IntoIter<K, V, P>)
        requires
            self.wf(),
        ensures
            result.wf(),
            result.rest() == self@,
    {
        let scan: P::Scan = self.table().scan();
        let remaining: usize = self.len();
        IntoIter { map: self, scan, remaining }
    }

    /// Consuming iterator over owned keys.
    pub fn into_keys(self) -> (result: IntoKeys<K, V, P>)
        requires
            self.wf(),
        ensures
            result.wf(),
            result.rest() == self@,
    {
        IntoKeys { inner: self.into_iter() }
    }

    /// Consuming iterator over owned values.
    pub fn into_values(self) -> (result: IntoValues<K, V, P>)
        requires
            self.wf(),
        ensures
            result.wf(),
            result.rest() == self@,
    {
        IntoValues { inner: self.into_iter() }
    }

    /// Empties the map in a new epoch and hands out what it held.
    pub fn drain(&mut self) -> (result: Drain<K, V>)
        requires
            old(self).wf(),
        ensures
            result.wf(),
            result.rest() == old(self)@,
            final(self).wf(),
            final(self).cleared_from(old(self)),
    {
        let mut entries: VecDeque<SlotEntry<K, V>> = VecDeque::with_capacity(self.len());
        let mut scan: P::Scan = self.table().scan();
        let ghost start = *self;
        let ghost mut gone: Map<K, V> = Map::empty();
        proof {
            assert(listing::lists(entries@, gone));
        }
        loop
            invariant
                start == *old(self),
                start.wf(),
                self.wf(),
                self.backing().scanning(scan),
                forall|key: K| #[trigger]
                    self.backing().pending(scan, key) <==> self@.contains_key(key),
                listing::lists(entries@, gone),
                gone.union_prefer_right(self@) == start@,
                gone.dom().disjoint(self@.dom()),
                self.backing().builder() == start.backing().builder(),
                self.backing().fraction() == start.backing().fraction(),
                self.backing().slot_count() == start.backing().slot_count(),
                self.backing().lifecycle().started(EpochTransition::Clear)
                    == start.backing().lifecycle().started(EpochTransition::Clear),
            ensures
                self@ == Map::<K, V>::empty(),
            decreases self@.len(),
        {
            let ghost table = self.backing();
            let ghost before = scan;
            proof {
                table.lemma_wf();
            }
            match self.table().scan_next(&mut scan) {
                Some(loc) => {
                    let (key, value) = self.table_mut().extract_finish(loc);
                    proof {
                        listing::lemma_lists_push(entries@, gone, SlotEntry { key, value });
                        assert(gone.insert(key, value).union_prefer_right(self@) =~= start@);
                        gone = gone.insert(key, value);
                        assert forall|other: K| #[trigger]
                            self.backing().pending(scan, other) <==> self@.contains_key(other) by {
                            assert(table.pending(scan, other) <==> table.pending(before, other)
                                && other != key);
                        }
                    }
                    entries.push_back(SlotEntry { key, value });
                },
                None => {
                    proof {
                        assert forall|key: K| !self@.contains_key(key) by {
                            assert(!table.pending(scan, key));
                            assert(!table.pending(before, key));
                        }
                        assert(self@ =~= Map::<K, V>::empty());
                    }
                    break;
                },
            }
        }
        proof {
            assert(gone =~= start@);
        }
        self.table_mut().wipe_all();
        Drain { entries, listed: Ghost(gone) }
    }
}

} // verus!
