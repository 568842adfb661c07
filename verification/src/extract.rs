//! Removal of the entries that a predicate picks.

use vstd::prelude::*;

use crate::epoch::{EpochModel, EpochTransition};
use crate::iter;
use crate::map::HashMap;
use crate::placement;
use crate::table::{TableBackend, TableFacts};

verus! {

/// Advances a scan, offering each entry to a predicate, and takes out the first
/// entry of which the predicate says `wanted`. The entries passed on the way stay,
/// with the values that the predicate left there.
fn next_matching<K: Eq, V, P: TableBackend<K, V>, F: FnMut(&K, &mut V) -> bool>(
    map: &mut HashMap<K, V, P>,
    scan: &mut P::Scan,
    pred: &mut F,
    wanted: bool,
) -> (result: Option<(K, V)>)
    requires
        old(map).wf(),
        old(map).backing().scanning(*old(scan)),
        forall|key: K| #[trigger]
            old(map).backing().pending(*old(scan), key) ==> old(map)@.contains_key(key),
        forall|key: K, value: &mut V|
            old(map).backing().pending(*old(scan), key) && *value == old(map)@[key]
                ==> #[trigger] (*old(pred)).requires((&key, value)),
    ensures
        final(map).wf(),
        final(map).backing().scanning(*final(scan)),
        *final(pred) == *old(pred),
        forall|key: K| #[trigger]
            final(map).backing().pending(*final(scan), key) ==> old(map).backing().pending(
                *old(scan),
                key,
            ) && final(map)@.contains_key(key),
        final(map).backing().thinned(&old(map).backing()),
        forall|key: K| #[trigger]
            final(map)@.contains_key(key) ==> if old(map).backing().pending(*old(scan), key)
                && !final(map).backing().pending(*final(scan), key) {
                exists|value: &mut V, said: bool| #[trigger]
                    (*old(pred)).ensures((&key, value), said) && said != wanted
                        && *value == old(map)@[key]
                        && *final(value) == final(map)@[key]
            } else {
                final(map)@[key] == old(map)@[key]
            },
        match result {
            Some((key, last)) => {
                &&& old(map)@.contains_key(key)
                &&& old(map).backing().pending(*old(scan), key)
                &&& !final(map).backing().pending(*final(scan), key)
                &&& final(map)@.dom() == old(map)@.dom().remove(key)
                &&& final(map).backing().lifecycle() == old(map).backing().lifecycle().deleted()
                &&& forall|gone: Set<K>|
                    gone.subset_of(final(map)@.dom())
                        ==> #[trigger] final(map).backing().cleanup_due_without(gone)
                        == old(map).backing().cleanup_due_without(gone.insert(key))
                &&& exists|value: &mut V| #[trigger]
                    (*old(pred)).ensures((&key, value), wanted) && *value == old(map)@[key]
                        && *final(value) == last
            },
            None => {
                &&& final(map)@.dom() == old(map)@.dom()
                &&& final(map).backing().lifecycle() == old(map).backing().lifecycle()
                &&& final(map).backing().cleanup_due() == old(map).backing().cleanup_due()
                &&& forall|gone: Set<K>| #[trigger]
                    final(map).backing().cleanup_due_without(gone)
                        == old(map).backing().cleanup_due_without(gone)
                &&& forall|key: K| !#[trigger] final(map).backing().pending(*final(scan), key)
            },
        },
{
    let ghost start = *map;
    let ghost begin = *scan;
    let ghost asked = *pred;
    proof {
        start.lemma_locations();
    }
    loop
        invariant
            start == *old(map),
            forall|loc: P::Location| (#[trigger] start.backing().key_at(loc)) matches Some(key)
                ==> start@.contains_key(key),
            begin == *old(scan),
            asked == *old(pred),
            *pred == asked,
            map.wf(),
            map.backing().scanning(*scan),
            forall|key: K| #[trigger]
                map.backing().pending(*scan, key) ==> start.backing().pending(begin, key)
                    && start@.contains_key(key),
            forall|key: K, value: &mut V|
                start.backing().pending(begin, key) && *value == start@[key]
                    ==> #[trigger] asked.requires((&key, value)),
            map@.dom() == start@.dom(),
            map.backing().builder() == start.backing().builder(),
            map.backing().fraction() == start.backing().fraction(),
            map.backing().slot_count() == start.backing().slot_count(),
            map.backing().exceptional() == start.backing().exceptional(),
            forall|loc: P::Location| #[trigger]
                map.backing().key_at(loc) == start.backing().key_at(loc),
            forall|loc: P::Location| #[trigger]
                map.backing().buried_at(loc) == start.backing().buried_at(loc),
            map.backing().lifecycle() == start.backing().lifecycle(),
            map.backing().cleanup_due() == start.backing().cleanup_due(),
            forall|gone: Set<K>| #[trigger]
                map.backing().cleanup_due_without(gone) == start.backing().cleanup_due_without(gone),
            forall|key: K| #[trigger]
                map@.contains_key(key) ==> if start.backing().pending(begin, key)
                    && !map.backing().pending(*scan, key) {
                    exists|value: &mut V, said: bool| #[trigger]
                        asked.ensures((&key, value), said) && said != wanted
                            && *value == start@[key] && *final(value) == map@[key]
                } else {
                    map@[key] == start@[key]
                },
        decreases iter::pending_entries(map.backing(), *scan).len(),
    {
        let ghost before = *map;
        let ghost place = *scan;
        match map.table().scan_next(scan) {
            Some(loc) => {
                let ghost passed = before.backing().key_at(loc)->0;
                proof {
                    before.lemma_locations();
                    iter::lemma_scan_moved(before.backing(), place, *scan, passed);
                    iter::lemma_passed_value(before.backing(), *scan, passed);
                }
                let hit: bool = {
                    let (key, value) = map.table_mut().pair_mut(loc);
                    pred(key, value)
                };
                proof {
                    assert(before.backing().entries().insert(passed, map@[passed]) =~= map@);
                    assert(exists|value: &mut V| #[trigger]
                        asked.ensures((&passed, value), hit) && *value == start@[passed]
                            && *final(value) == map@[passed]);
                    assert forall|key: K| #[trigger]
                        map.backing().pending(*scan, key) <==> before.backing().pending(place, key)
                            && key != passed by {
                        assert(before.backing().pending(*scan, key) <==> before.backing().pending(
                            place,
                            key,
                        ) && key != passed);
                    }
                }
                if hit == wanted {
                    let ghost offered = *map;
                    let entry: (K, V) = map.table_mut().extract_finish(loc);
                    proof {
                        assert forall|gone: Set<K>| gone.subset_of(
                            map@.dom(),
                        ) implies #[trigger] map.backing().cleanup_due_without(gone)
                            == start.backing().cleanup_due_without(gone.insert(entry.0)) by {
                            assert(offered.backing().cleanup_due_without(gone.insert(entry.0))
                                == before.backing().cleanup_due_without(gone.insert(entry.0)));
                        }
                        assert(entry.0 == passed);
                        assert(map@.dom() =~= start@.dom().remove(passed));
                        assert(!offered.backing().pending(*scan, passed));
                        assert(!map.backing().pending(*scan, passed));
                        assert(exists|value: &mut V| #[trigger]
                            asked.ensures((&entry.0, value), wanted) && *value == start@[entry.0]
                                && *final(value) == entry.1);
                    }
                    return Some(entry);
                }
            },
            None => {
                proof {
                    assert forall|key: K|
                        !#[trigger] before.backing().pending(place, key)
                            && !before.backing().pending(*scan, key) by {
                        assert(!before.backing().pending(*scan, key));
                    }
                }
                return None;
            },
        }
    }
}

/// Iterator yielding entries removed by [`HashMap::extract_if`]. Unyielded
/// non-matching entries are retained. Exhausting the iterator may clean
/// accumulated tombstones after the scan is finished.
pub struct ExtractIf<'a, K: Eq, V, P: TableBackend<K, V>, F> {
    /// The map.
    pub map: &'a mut HashMap<K, V, P>,
    /// The scan over the map's table.
    pub scan: P::Scan,
    /// The predicate.
    pub pred: F,
    /// Whether the scan is exhausted.
    pub finished: bool,
}

impl<'a, K: Eq, V, P: TableBackend<K, V>, F> ExtractIf<'a, K, V, P, F> {
    /// Whether an entry is still to be offered to the predicate.
    pub open spec fn awaits(&self, key: K) -> bool {
        !self.finished && self.map.backing().pending(self.scan, key)
    }

    /// The iterator's invariant.
    pub open spec fn wf(&self) -> bool {
        &&& self.map.wf()
        &&& !self.finished ==> self.map.backing().scanning(self.scan)
        &&& forall|key: K| #[trigger] self.awaits(key) ==> self.map@.contains_key(key)
    }

    /// Completes the maintenance that the removals deferred. The entries stay.
    pub fn finish(self)
        requires
            self.wf(),
        ensures
            final(self.map).wf(),
            final(self.map)@ == old(self.map)@,
            if self.finished {
                *final(self.map) == *old(self.map)
            } else {
                final(self.map).backing().cleaned_from(&old(self.map).backing())
            },
    {
        if !self.finished {
            self.map.table_mut().finish_deferred_removals();
        }
    }
}

impl<'a, K: Eq, V, P: TableBackend<K, V>, F: FnMut(&K, &mut V) -> bool> ExtractIf<'a, K, V, P, F> {
    /// Removes and yields the next entry for which the predicate returns `true`, or
    /// `None` if there is none. The entries passed on the way stay, with the values
    /// that the predicate left there.
    pub fn next(&mut self) -> (result: Option<(K, V)>)
        requires
            old(self).wf(),
            forall|key: K, value: &mut V|
                old(self).awaits(key) && *value == old(self).map@[key]
                    ==> #[trigger] old(self).pred.requires((&key, value)),
        ensures
            final(self).wf(),
            final(self).pred == old(self).pred,
            *final(final(self).map) == *final(old(self).map),
            final(self).map.backing().builder() == old(self).map.backing().builder(),
            final(self).map.backing().fraction() == old(self).map.backing().fraction(),
            final(self).map.backing().slot_count() == old(self).map.backing().slot_count(),
            forall|key: K| #[trigger] final(self).awaits(key) ==> old(self).awaits(key),
            forall|key: K| #[trigger]
                final(self).map@.contains_key(key) ==> if old(self).awaits(key)
                    && !final(self).awaits(key) {
                    exists|value: &mut V| #[trigger]
                        old(self).pred.ensures((&key, value), false)
                            && *value == old(self).map@[key]
                            && *final(value) == final(self).map@[key]
                } else {
                    final(self).map@[key] == old(self).map@[key]
                },
            match result {
                Some((key, last)) => {
                    &&& old(self).map@.contains_key(key)
                    &&& old(self).awaits(key)
                    &&& !final(self).awaits(key)
                    &&& !final(self).finished
                    &&& final(self).map@.dom() == old(self).map@.dom().remove(key)
                    &&& final(self).map.backing().thinned(&old(self).map.backing())
                    &&& final(self).map.backing().lifecycle()
                        == old(self).map.backing().lifecycle().deleted()
                    &&& forall|gone: Set<K>|
                        gone.subset_of(final(self).map@.dom())
                            ==> #[trigger] final(self).map.backing().cleanup_due_without(gone)
                            == old(self).map.backing().cleanup_due_without(gone.insert(key))
                    &&& exists|value: &mut V| #[trigger]
                        old(self).pred.ensures((&key, value), true)
                            && *value == old(self).map@[key] && *final(value) == last
                },
                None => {
                    &&& final(self).finished
                    &&& final(self).map@.dom() == old(self).map@.dom()
                    &&& if old(self).finished {
                        *final(self).map == *old(self).map
                    } else {
                        final(self).map.cleaned_after(
                            old(self).map,
                            old(self).map.backing().lifecycle(),
                            old(self).map.backing().cleanup_due(),
                        )
                    }
                },
            },
    {
        if self.finished {
            return None;
        }
        proof {
            assert forall|key: K| #[trigger]
                self.map.backing().pending(self.scan, key) implies self.map@.contains_key(key) by {
                assert(self.awaits(key));
            }
            assert forall|key: K, value: &mut V|
                self.map.backing().pending(self.scan, key) && *value
                    == self.map@[key] implies #[trigger] self.pred.requires((&key, value)) by {
                assert(self.awaits(key));
            }
        }
        match next_matching(self.map, &mut self.scan, &mut self.pred, true) {
            Some(entry) => Some(entry),
            None => {
                self.finished = true;
                let ghost left = self.map.backing();
                self.map.table_mut().finish_deferred_removals();
                assert(left.thinned(&old(self).map.backing()));
                None
            },
        }
    }
}

impl<K: Eq, V, P: TableBackend<K, V>> HashMap<K, V, P> {
    /// Removes and yields the entries for which `f` returns `true`.
    pub fn extract_if<F: FnMut(&K, &mut V) -> bool>(&mut self, f: F) -> (result: ExtractIf<
        '_,
        K,
        V,
        P,
        F,
    >)
        requires
            old(self).wf(),
        ensures
            result.wf(),
            result.pred == f,
            !result.finished,
            *result.map == *old(self),
            *final(result.map) == *final(self),
            forall|key: K| #[trigger] result.awaits(key) <==> old(self)@.contains_key(key),
    {
        let scan: P::Scan = self.table().scan();
        ExtractIf { map: self, scan, pred: f, finished: false }
    }

    /// Whether a map is another after entries left it and then, if it was due, a cleanup:
    /// until the cleanup no key moved.
    pub open spec fn cleaned_after(&self, before: &Self, counted: EpochModel, due: bool) -> bool {
        exists|left: P| #[trigger]
            left.thinned(&before.backing()) && left.entries() == self@ && left.lifecycle()
                == counted && left.cleanup_due() == due && self.backing().cleaned_from(&left)
    }

    /// Whether a map is another after removing entries in one sweep: the slots, the hash
    /// builder and the reserve fraction stay, each deletion is counted, and the table is
    /// rebuilt if the removals make a cleanup due, and no key moves else.
    pub open spec fn swept_from(&self, before: &Self) -> bool {
        let counted = before.backing().lifecycle().deleted_times(
            (before@.len() - self@.len()) as nat,
        );
        &&& self.backing().builder() == before.backing().builder()
        &&& self.backing().fraction() == before.backing().fraction()
        &&& self.backing().slot_count() == before.backing().slot_count()
        &&& self.cleaned_after(
            before,
            counted,
            before.backing().cleanup_due_without(before@.dom().difference(self@.dom())),
        )
    }

    /// Drops every entry for which `f(&K, &mut V)` returns `false`. The others keep
    /// the values that `f` left there.
    pub fn retain<F: FnMut(&K, &mut V) -> bool>(&mut self, f: F)
        requires
            old(self).wf(),
            forall|key: K, value: &mut V|
                old(self)@.contains_key(key) && *value == old(self)@[key]
                    ==> #[trigger] f.requires((&key, value)),
        ensures
            final(self).wf(),
            forall|key: K| #[trigger]
                old(self)@.contains_key(key) ==> exists|value: &mut V, keep: bool| #[trigger]
                    f.ensures((&key, value), keep) && *value == old(self)@[key]
                        && keep == final(self)@.contains_key(key)
                        && (keep ==> *final(value) == final(self)@[key]),
            final(self)@.dom().subset_of(old(self)@.dom()),
            final(self).swept_from(old(self)),
    {
        let mut pred: F = f;
        let mut scan: P::Scan = self.table().scan();
        let ghost start = *self;
        proof {
            self.backing().lemma_wf();
            assert(self.backing().thinned(&start.backing()));
            assert forall|gone: Set<K>| #[trigger]
                self.backing().cleanup_due_without(gone) == start.backing().cleanup_due_without(
                    gone.union(start@.dom().difference(self@.dom())),
                ) by {
                assert(gone.union(start@.dom().difference(self@.dom())) =~= gone);
            }
        }
        loop
            invariant
                start == *old(self),
                start@.dom().finite(),
                pred == f,
                self.wf(),
                self.backing().scanning(scan),
                forall|key: K| #[trigger]
                    self.backing().pending(scan, key) ==> self@.contains_key(key),
                forall|key: K, value: &mut V|
                    start@.contains_key(key) && *value == start@[key]
                        ==> #[trigger] f.requires((&key, value)),
                self@.dom().subset_of(start@.dom()),
                forall|key: K| #[trigger]
                    start@.contains_key(key) ==> if self.backing().pending(scan, key) {
                        self@[key] == start@[key]
                    } else {
                        exists|value: &mut V, keep: bool| #[trigger]
                            f.ensures((&key, value), keep) && *value == start@[key] && keep
                                == self@.contains_key(key) && (keep ==> *final(value)
                                == self@[key])
                    },
                self.backing().thinned(&start.backing()),
                self@.len() <= start@.len(),
                self.backing().lifecycle() == start.backing().lifecycle().deleted_times(
                    (start@.len() - self@.len()) as nat,
                ),
                forall|gone: Set<K>|
                    gone.subset_of(self@.dom()) ==> #[trigger] self.backing().cleanup_due_without(
                        gone,
                    ) == start.backing().cleanup_due_without(
                        gone.union(start@.dom().difference(self@.dom())),
                    ),
            ensures
                forall|key: K| !#[trigger] self.backing().pending(scan, key),
            decreases self@.len(),
        {
            let ghost before = *self;
            let ghost place = scan;
            proof {
                before.backing().lemma_wf();
            }
            match next_matching(self, &mut scan, &mut pred, false) {
                Some((gone, _)) => {
                    proof {
                        assert(before@.len() == self@.len() + 1);
                        assert forall|keys: Set<K>| keys.subset_of(
                            self@.dom(),
                        ) implies #[trigger] self.backing().cleanup_due_without(keys)
                            == start.backing().cleanup_due_without(
                            keys.union(start@.dom().difference(self@.dom())),
                        ) by {
                            assert(keys.insert(gone).subset_of(before@.dom()));
                            assert(keys.insert(gone).union(start@.dom().difference(before@.dom()))
                                =~= keys.union(start@.dom().difference(self@.dom())));
                        }
                    }
                },
                None => {
                    break;
                },
            }
        }
        proof {
            self.backing().lemma_cleanup();
            let removed = start@.dom().difference(self@.dom());
            assert(Set::<K>::empty().union(removed) =~= removed);
            assert(self.backing().cleanup_due_without(Set::empty())
                == start.backing().cleanup_due_without(Set::<K>::empty().union(removed)));
        }
        let ghost left = self.backing();
        self.table_mut().finish_deferred_removals();
        assert(left.thinned(&start.backing()));
    }
}

/// After a sweep no cleanup is due, and the deletions are counted unless a cleanup started
/// an epoch.
pub proof fn law_sweeps_leave_no_cleanup_due<K: Eq, V, P: TableBackend<K, V>>(
    before: HashMap<K, V, P>,
    after: HashMap<K, V, P>,
)
    requires
        after.swept_from(&before),
        after@.dom().subset_of(before@.dom()),
        before@.dom().finite(),
    ensures
        !after.backing().cleanup_due(),
        after.backing().lifecycle().generation == before.backing().lifecycle().generation
            && before.backing().lifecycle().generation < u32::MAX
            && before.backing().lifecycle().deletions + before@.len() <= usize::MAX
            ==> after.backing().lifecycle().deletions
            == before.backing().lifecycle().deletions + before@.len() - after@.len(),
        after.backing().lifecycle().generation != before.backing().lifecycle().generation
            ==> after.backing().lifecycle().transition == EpochTransition::TombstoneCleanup,
{
    let counted = before.backing().lifecycle().deleted_times((before@.len() - after@.len()) as nat);
    let due = before.backing().cleanup_due_without(before@.dom().difference(after@.dom()));
    let left = choose|left: P| #[trigger]
        left.thinned(&before.backing()) && left.entries() == after@ && left.lifecycle() == counted
            && left.cleanup_due() == due && after.backing().cleaned_from(&left);
    placement::law_deferred_cleanups_are_done::<K, V, P>(left, after.backing());
    vstd::set_lib::lemma_len_subset(after@.dom(), before@.dom());
}

} // verus!
