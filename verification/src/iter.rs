//! Iteration over the entries of a map, in arbitrary order.

use vstd::prelude::*;

use crate::map::HashMap;
use crate::table::{TableBackend, TableFacts};

verus! {

/// The entries that a scan is still to yield.
pub open spec fn pending_entries<K: Eq, V, P: TableBackend<K, V>>(
    table: P,
    scan: P::Scan,
) -> Map<K, V> {
    table.entries().restrict(Set::new(|key: K| table.pending(scan, key)))
}

/// A scan that starts yields every entry.
pub proof fn lemma_scan_started<K: Eq, V, P: TableBackend<K, V>>(table: P, scan: P::Scan)
    requires
        forall|key: K| #[trigger]
            table.pending(scan, key) <==> table.entries().contains_key(key),
    ensures
        pending_entries(table, scan) == table.entries(),
{
    assert(pending_entries(table, scan) =~= table.entries());
}

/// A scan that moves past an entry is still to yield the others.
pub proof fn lemma_scan_moved<K: Eq, V, P: TableBackend<K, V>>(
    table: P,
    before: P::Scan,
    after: P::Scan,
    key: K,
)
    requires
        table.wf(),
        table.entries().contains_key(key),
        table.pending(before, key),
        forall|other: K| #[trigger]
            table.pending(after, other) <==> table.pending(before, other) && other != key,
    ensures
        pending_entries(table, before).contains_key(key),
        pending_entries(table, before)[key] == table.entries()[key],
        pending_entries(table, after) == pending_entries(table, before).remove(key),
        pending_entries(table, after).len() == pending_entries(table, before).len() - 1,
{
    table.lemma_wf();
    assert(pending_entries(table, after) =~= pending_entries(table, before).remove(key));
    assert(pending_entries(table, before).dom().subset_of(table.entries().dom()));
    vstd::set_lib::lemma_set_subset_finite(
        table.entries().dom(),
        pending_entries(table, before).dom(),
    );
}

/// A scan with nothing to yield.
proof fn lemma_scan_done<K: Eq, V, P: TableBackend<K, V>>(table: P, scan: P::Scan)
    requires
        forall|key: K| !#[trigger] table.pending(scan, key),
    ensures
        pending_entries(table, scan) == Map::<K, V>::empty(),
{
    assert(pending_entries(table, scan) =~= Map::<K, V>::empty());
}

/// Borrowing iterator over `(&K, &V)`.
pub struct Iter<'a, K: Eq, V, P: TableBackend<K, V>> {
    map: &'a HashMap<K, V, P>,
    scan: P::Scan,
    remaining: usize,
}

impl<'a, K: Eq, V, P: TableBackend<K, V>> Iter<'a, K, V, P> {
    /// The entries still to come.
    pub closed spec fn rest(&self) -> Map<K, V> {
        pending_entries(self.map.backing(), self.scan)
    }

    /// The iterator's invariant.
    pub closed spec fn wf(&self) -> bool {
        &&& self.map.wf()
        &&& self.map.backing().scanning(self.scan)
        &&& self.remaining == self.rest().len()
    }

    /// Yields one of the entries still to come, or `None` if there is none.
    pub fn next(&mut self) -> (result: Option<(&'a K, &'a V)>)
        requires
            old(self).wf(),
        ensures
            final(self).wf(),
            match result {
                Some((key, value)) => {
                    &&& old(self).rest().contains_key(*key)
                    &&& old(self).rest()[*key] == *value
                    &&& final(self).rest() == old(self).rest().remove(*key)
                },
                None => {
                    &&& old(self).rest() == Map::<K, V>::empty()
                    &&& final(self).rest() == Map::<K, V>::empty()
                },
            },
    {
        let map: &'a HashMap<K, V, P> = self.map;
        let table: &'a P = map.table();
        let ghost before = self.scan;
        match table.scan_next(&mut self.scan) {
            Some(loc) => {
                let entry = table.slot_ref(loc);
                proof {
                    map.lemma_locations();
                    lemma_scan_moved(*table, before, self.scan, entry.key);
                }
                self.remaining = self.remaining - 1;
                Some((&entry.key, &entry.value))
            },
            None => {
                proof {
                    assert forall|key: K| !#[trigger] table.pending(before, key) by {
                        assert(!table.pending(self.scan, key));
                    }
                    lemma_scan_done(*table, before);
                    lemma_scan_done(*table, self.scan);
                }
                None
            },
        }
    }

    /// Number of entries still to come.
    pub fn len(&self) -> (result: usize)
        requires
            self.wf(),
        ensures
            result == self.rest().len(),
    {
        self.remaining
    }
}

impl<'a, K: Eq, V, P: TableBackend<K, V>> Clone for Iter<'a, K, V, P> {
    fn clone(&self) -> (result: Self)
        ensures
            result == *self,
    {
        Iter { map: self.map, scan: self.scan, remaining: self.remaining }
    }
}

/// Iterator over `&K`.
pub struct Keys<'a, K: Eq, V, P: TableBackend<K, V>> {
    inner: Iter<'a, K, V, P>,
}

impl<'a, K: Eq, V, P: TableBackend<K, V>> Keys<'a, K, V, P> {
    /// The entries whose keys are still to come.
    pub closed spec fn rest(&self) -> Map<K, V> {
        self.inner.rest()
    }

    /// The iterator's invariant.
    pub closed spec fn wf(&self) -> bool {
        self.inner.wf()
    }

    /// Yields one of the keys still to come, or `None` if there is none.
    pub fn next(&mut self) -> (result: Option<&'a K>)
        requires
            old(self).wf(),
        ensures
            final(self).wf(),
            match result {
                Some(key) => {
                    &&& old(self).rest().contains_key(*key)
                    &&& final(self).rest() == old(self).rest().remove(*key)
                },
                None => {
                    &&& old(self).rest() == Map::<K, V>::empty()
                    &&& final(self).rest() == Map::<K, V>::empty()
                },
            },
    {
        match self.inner.next() {
            Some((key, _)) => Some(key),
            None => None,
        }
    }

    /// Number of keys still to come.
    pub fn len(&self) -> (result: usize)
        requires
            self.wf(),
        ensures
            result == self.rest().len(),
    {
        self.inner.len()
    }
}

/// Iterator over `&V`.
pub struct Values<'a, K: Eq, V, P: TableBackend<K, V>> {
    inner: Iter<'a, K, V, P>,
}

impl<'a, K: Eq, V, P: TableBackend<K, V>> Values<'a, K, V, P> {
    /// The entries whose values are still to come.
    pub closed spec fn rest(&self) -> Map<K, V> {
        self.inner.rest()
    }

    /// The iterator's invariant.
    pub closed spec fn wf(&self) -> bool {
        self.inner.wf()
    }

    /// Yields one of the values still to come, or `None` if there is none.
    pub fn next(&mut self) -> (result: Option<&'a V>)
        requires
            old(self).wf(),
        ensures
            final(self).wf(),
            match result {
                Some(value) => exists|key: K| #[trigger]
                    old(self).rest().contains_key(key) && old(self).rest()[key] == *value
                        && final(self).rest() == old(self).rest().remove(key),
                None => {
                    &&& old(self).rest() == Map::<K, V>::empty()
                    &&& final(self).rest() == Map::<K, V>::empty()
                },
            },
    {
        match self.inner.next() {
            Some((key, value)) => {
                assert(old(self).rest().contains_key(*key));
                Some(value)
            },
            None => None,
        }
    }

    /// Number of values still to come.
    pub fn len(&self) -> (result: usize)
        requires
            self.wf(),
        ensures
            result == self.rest().len(),
    {
        self.inner.len()
    }
}

impl<K: Eq, V, P: TableBackend<K, V>> HashMap<K, V, P> {
    /// Borrowing iterator over `(&K, &V)`, in arbitrary order.
    pub fn iter(&self) -> (result: Iter<'_, K, V, P>)
        requires
            self.wf(),
        ensures
            result.wf(),
            result.rest() == self@,
    {
        let scan: P::Scan = self.table().scan();
        proof {
            lemma_scan_started(self.backing(), scan);
        }
        Iter { map: self, scan, remaining: self.len() }
    }

    /// Iterator over `&K`.
    pub fn keys(&self) -> (result: Keys<'_, K, V, P>)
        requires
            self.wf(),
        ensures
            result.wf(),
            result.rest() == self@,
    {
        Keys { inner: self.iter() }
    }

    /// Iterator over `&V`.
    pub fn values(&self) -> (result: Values<'_, K, V, P>)
        requires
            self.wf(),
        ensures
            result.wf(),
            result.rest() == self@,
    {
        Values { inner: self.iter() }
    }
}

/// Changing the value of an entry that a scan has passed leaves what it is still
/// to yield.
pub proof fn lemma_passed_value<K: Eq, V, P: TableBackend<K, V>>(table: P, scan: P::Scan, passed: K)
    requires
        !table.pending(scan, passed),
    ensures
        forall|after: P, value: V|
            after.entries() == #[trigger] table.entries().insert(passed, value) && (forall|key: K|
                #[trigger]
                after.pending(scan, key) == table.pending(scan, key)) ==> #[trigger] pending_entries(
                after,
                scan,
            ) == pending_entries(table, scan),
{
    assert forall|after: P, value: V|
        after.entries() == #[trigger] table.entries().insert(passed, value) && (forall|key: K|
            #[trigger]
            after.pending(scan, key) == table.pending(scan, key)) implies #[trigger] pending_entries(
        after,
        scan,
    ) == pending_entries(table, scan) by {
        assert(pending_entries(after, scan) =~= pending_entries(table, scan));
    }
}

/// Borrowing iterator over `(&K, &mut V)`.
pub struct IterMut<'a, K: Eq, V, P: TableBackend<K, V>> {
    /// The map.
    pub map: &'a mut HashMap<K, V, P>,
    /// The scan over the map's table.
    pub scan: P::Scan,
    /// Number of entries still to come.
    pub remaining: usize,
}

impl<'a, K: Eq, V, P: TableBackend<K, V>> IterMut<'a, K, V, P> {
    /// The entries still to come.
    pub open spec fn rest(&self) -> Map<K, V> {
        pending_entries(self.map.backing(), self.scan)
    }

    /// The iterator's invariant.
    pub open spec fn wf(&self) -> bool {
        &&& self.map.wf()
        &&& self.map.backing().scanning(self.scan)
        &&& self.remaining == self.rest().len()
    }

    /// Yields one of the entries still to come, its value for change in place, or
    /// `None` if there is none.
    pub fn next(&mut self) -> (result: Option<(&K, &mut V)>)
        requires
            old(self).wf(),
        ensures
            final(self).wf(),
            final(self).map.wf(),
            final(self).map.same_frame(old(self).map),
            *final(final(self).map) == *final(old(self).map),
            match result {
                Some((key, value)) => {
                    &&& old(self).rest().contains_key(*key)
                    &&& old(self).rest()[*key] == *value
                    &&& old(self).map@.contains_key(*key)
                    &&& final(self).rest() == old(self).rest().remove(*key)
                    &&& final(self).map@ == old(self).map@.insert(*key, *final(value))
                },
                None => {
                    &&& old(self).rest() == Map::<K, V>::empty()
                    &&& final(self).rest() == Map::<K, V>::empty()
                    &&& final(self).map@ == old(self).map@
                },
            },
    {
        let ghost table = self.map.backing();
        let ghost before = self.scan;
        match self.map.table().scan_next(&mut self.scan) {
            Some(loc) => {
                proof {
                    let key = table.key_at(loc)->0;
                    self.map.lemma_locations();
                    lemma_scan_moved(table, before, self.scan, key);
                    lemma_passed_value(table, self.scan, key);
                }
                self.remaining = self.remaining - 1;
                Some(self.map.table_mut().pair_mut(loc))
            },
            None => {
                proof {
                    assert forall|key: K| !#[trigger] table.pending(before, key) by {
                        assert(!table.pending(self.scan, key));
                    }
                    lemma_scan_done(table, before);
                    lemma_scan_done(table, self.scan);
                }
                None
            },
        }
    }

    /// Number of entries still to come.
    pub fn len(&self) -> (result: usize)
        requires
            self.wf(),
        ensures
            result == self.rest().len(),
    {
        self.remaining
    }
}

/// Iterator over `&mut V`.
pub struct ValuesMut<'a, K: Eq, V, P: TableBackend<K, V>> {
    /// The iterator over the entries.
    pub inner: IterMut<'a, K, V, P>,
}

impl<'a, K: Eq, V, P: TableBackend<K, V>> ValuesMut<'a, K, V, P> {
    /// Yields one of the values still to come, for change in place, or `None` if
    /// there is none.
    pub fn next(&mut self) -> (result: Option<&mut V>)
        requires
            old(self).inner.wf(),
        ensures
            final(self).inner.wf(),
            final(self).inner.map.wf(),
            final(self).inner.map.same_frame(old(self).inner.map),
            *final(final(self).inner.map) == *final(old(self).inner.map),
            match result {
                Some(value) => exists|key: K| #[trigger]
                    old(self).inner.rest().contains_key(key) && old(self).inner.rest()[key]
                        == *value && old(self).inner.map@.contains_key(key)
                        && final(self).inner.rest() == old(self).inner.rest().remove(key)
                        && final(self).inner.map@ == old(self).inner.map@.insert(
                        key,
                        *final(value),
                    ),
                None => {
                    &&& old(self).inner.rest() == Map::<K, V>::empty()
                    &&& final(self).inner.rest() == Map::<K, V>::empty()
                    &&& final(self).inner.map@ == old(self).inner.map@
                },
            },
    {
        let ghost before = self.inner;
        match self.inner.next() {
            Some((key, value)) => {
                assert(before.rest().contains_key(*key));
                Some(value)
            },
            None => None,
        }
    }

    /// Number of values still to come.
    pub fn len(&self) -> (result: usize)
        requires
            self.inner.wf(),
        ensures
            result == self.inner.rest().len(),
    {
        self.inner.len()
    }
}

impl<K: Eq, V, P: TableBackend<K, V>> HashMap<K, V, P> {
    /// Iterator over `&mut V`.
    pub fn values_mut(&mut self) -> (result: ValuesMut<'_, K, V, P>)
        requires
            old(self).wf(),
        ensures
            result.inner.wf(),
            result.inner.rest() == old(self)@,
            *result.inner.map == *old(self),
            *final(result.inner.map) == *final(self),
    {
        ValuesMut { inner: self.iter_mut() }
    }

    /// Borrowing iterator over `(&K, &mut V)`.
    pub fn iter_mut(&mut self) -> (result: IterMut<'_, K, V, P>)
        requires
            old(self).wf(),
        ensures
            result.wf(),
            result.rest() == old(self)@,
            *result.map == *old(self),
            *final(result.map) == *final(self),
    {
        let scan: P::Scan = self.table().scan();
        proof {
            lemma_scan_started(self.backing(), scan);
        }
        let remaining: usize = self.len();
        IterMut { map: self, scan, remaining }
    }
}

} // verus!
