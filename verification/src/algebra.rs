//! Algebra of hash sets: union, difference, intersection, symmetric difference
//! and comparison.

use vstd::prelude::*;

use crate::bulk::put_all;
use crate::capacity;
use crate::hashing::{self, Equivalent};
use crate::map::HashMap;
use crate::reserve::ReserveFraction;
use crate::set::{holds, HashSet};
use crate::table::{self, TableBackend, TableFacts, TableModel};

verus! {

/// Whether an item is equal to a key.
pub open spec fn listed<K: Eq>(items: Seq<K>, key: K) -> bool {
    exists|i: int| 0 <= i < items.len() && hashing::same_key(#[trigger] items[i], key)
}

/// Whether an item is equal to a key.
pub open spec fn named<K: Eq>(items: Seq<&K>, key: K) -> bool {
    exists|i: int| 0 <= i < items.len() && hashing::same_key(*#[trigger] items[i], key)
}

/// Whether no element of one set is equal to an element of another.
pub open spec fn disjoint<K: Eq>(left: Set<K>, right: Set<K>) -> bool {
    forall|key: K| #[trigger] left.contains(key) ==> !holds(right, key)
}

/// Whether each element of one set is equal to an element of another.
pub open spec fn within<K: Eq>(left: Set<K>, right: Set<K>) -> bool {
    forall|key: K| #[trigger] left.contains(key) ==> holds(right, key)
}

/// Whether a key is a clone of an element.
pub open spec fn copied_from<K: Clone>(elements: Set<K>, copy: K) -> bool {
    exists|key: K| elements.contains(key) && #[trigger] cloned::<K>(key, copy)
}

/// The pairs that hold items and nothing else.
pub open spec fn unit_pairs<K>(items: Seq<K>) -> Seq<(K, ())> {
    Seq::new(items.len(), |i: int| (items[i], ()))
}

/// Whether a sequence holds a clone of each element, and nothing else.
pub open spec fn copies_all<K: Clone>(elements: Set<K>, copies: Seq<K>) -> bool {
    &&& copies.len() == elements.len()
    &&& forall|i: int| 0 <= i < copies.len() ==> #[trigger] copied_from(elements, copies[i])
    &&& forall|key: K| #[trigger]
        elements.contains(key) ==> exists|i: int|
            0 <= i < copies.len() && cloned::<K>(key, #[trigger] copies[i])
}

/// No two elements are equal.
pub open spec fn unequal<K: Eq>(elements: Set<K>) -> bool {
    forall|left: K, right: K|
        elements.contains(left) && elements.contains(right) && #[trigger] hashing::same_key(
            left,
            right,
        ) ==> left == right
}

/// Equal keys are found alike.
proof fn lemma_equal_keys<K: Eq>(elements: Set<K>, left: K, right: K)
    requires
        hashing::lawful_keys::<K>(),
        hashing::same_key(left, right),
    ensures
        holds(elements, left) == holds(elements, right),
{
    assert(hashing::same_key(right, left));
    if holds(elements, left) {
        let key = choose|key: K| elements.contains(key) && #[trigger] left.stands_for(key);
        assert(hashing::same_key(left, key));
        assert(right.stands_for(key));
    }
    if holds(elements, right) {
        let key = choose|key: K| elements.contains(key) && #[trigger] right.stands_for(key);
        assert(hashing::same_key(right, key));
        assert(left.stands_for(key));
    }
}

/// What an element is found by.
proof fn lemma_element<K: Eq>(elements: Set<K>, element: K, query: K)
    requires
        hashing::lawful_keys::<K>(),
        elements.contains(element),
        hashing::same_key(query, element),
    ensures
        holds(elements, query),
{
    assert(query.stands_for(element));
}

/// Adding an element makes it found by the keys that equal it.
proof fn lemma_added<K: Eq>(elements: Set<K>, added: K, query: K)
    requires
        hashing::lawful_keys::<K>(),
    ensures
        holds(elements.insert(added), query) == (holds(elements, query) || hashing::same_key(
            query,
            added,
        )),
{
    let after = elements.insert(added);
    if holds(elements, query) {
        let key = choose|key: K| elements.contains(key) && #[trigger] query.stands_for(key);
        assert(after.contains(key));
    }
    if hashing::same_key(query, added) {
        lemma_element(after, added, query);
    }
    if holds(after, query) {
        let key = choose|key: K| after.contains(key) && #[trigger] query.stands_for(key);
        if key != added {
            assert(elements.contains(key));
        }
    }
}

/// What inserting keys in turn leaves.
proof fn lemma_inserted<K: Eq>(entries: Map<K, ()>, pairs: Seq<(K, ())>)
    requires
        hashing::lawful_keys::<K>(),
    ensures
        entries.dom().subset_of(put_all(entries, pairs).dom()),
        forall|key: K| #[trigger]
            put_all(entries, pairs).dom().contains(key) ==> entries.contains_key(key) || exists|
                i: int,
            | 0 <= i < pairs.len() && (#[trigger] pairs[i]).0 == key,
        forall|query: K|
            #![trigger holds(put_all(entries, pairs).dom(), query)]
            holds(put_all(entries, pairs).dom(), query) <==> holds(entries.dom(), query) || exists|
                i: int,
            | 0 <= i < pairs.len() && hashing::same_key((#[trigger] pairs[i]).0, query),
    decreases pairs.len(),
{
    if pairs.len() > 0 {
        let shorter = pairs.drop_last();
        let last = pairs.last().0;
        lemma_inserted(entries, shorter);
        let before = put_all(entries, shorter);
        let after = put_all(entries, pairs);
        assert(after == table::put(before, last, ()));
        let present = table::stored(before, last);
        if present is Some {
            assert(holds(before.dom(), last));
            assert(before.dom().contains(present->0) && last.stands_for(present->0));
            assert(after.dom() =~= before.dom());
        } else {
            assert(after.dom() =~= before.dom().insert(last));
        }
        assert(forall|i: int| 0 <= i < shorter.len() ==> shorter[i] == #[trigger] pairs[i]);
        assert(pairs[pairs.len() - 1].0 == last);
        assert forall|key: K| #[trigger] after.dom().contains(key) implies entries.contains_key(key)
            || exists|i: int| 0 <= i < pairs.len() && (#[trigger] pairs[i]).0 == key by {
            if before.dom().contains(key) && !entries.contains_key(key) {
                let i = choose|i: int| 0 <= i < shorter.len() && (#[trigger] shorter[i]).0 == key;
                assert(pairs[i].0 == key);
            }
        }
        assert forall|query: K| #[trigger] holds(after.dom(), query) <==> holds(
            entries.dom(),
            query,
        ) || exists|i: int|
            0 <= i < pairs.len() && hashing::same_key((#[trigger] pairs[i]).0, query) by {
            if present is None {
                lemma_added(before.dom(), last, query);
            } else if hashing::same_key(last, query) {
                lemma_equal_keys(before.dom(), last, query);
            }
            if hashing::same_key(query, last) {
                assert(hashing::same_key(last, query));
            }
            if hashing::same_key(last, query) {
                assert(hashing::same_key(query, last));
            }
            if exists|i: int|
                0 <= i < shorter.len() && hashing::same_key((#[trigger] shorter[i]).0, query) {
                let i = choose|i: int|
                    0 <= i < shorter.len() && hashing::same_key((#[trigger] shorter[i]).0, query);
                assert(hashing::same_key(pairs[i].0, query));
            }
            if exists|i: int|
                0 <= i < pairs.len() && hashing::same_key((#[trigger] pairs[i]).0, query) {
                let i = choose|i: int|
                    0 <= i < pairs.len() && hashing::same_key((#[trigger] pairs[i]).0, query);
                if i < shorter.len() {
                    assert(hashing::same_key(shorter[i].0, query));
                }
            }
        }
    }
}

/// Whether a map is another after removing the entry of a key, if there is one.
pub open spec fn dropped<K: Eq, P: TableBackend<K, ()>>(
    before: HashMap<K, (), P>,
    after: HashMap<K, (), P>,
    item: K,
) -> bool {
    match table::stored(before@, item) {
        Some(stored) => after.removed_one(&before, stored),
        None => after == before,
    }
}

/// Whether maps show how the entries of keys are removed from the first of them, one
/// after the other.
pub open spec fn drops<K: Eq, P: TableBackend<K, ()>>(
    stages: Seq<HashMap<K, (), P>>,
    items: Seq<&K>,
) -> bool {
    &&& stages.len() == items.len() + 1
    &&& forall|i: int| 0 <= i < items.len() ==> #[trigger] drops_at(stages, items, i)
}

/// Whether a map is the one before it without the entry of the next key.
pub open spec fn drops_at<K: Eq, P: TableBackend<K, ()>>(
    stages: Seq<HashMap<K, (), P>>,
    items: Seq<&K>,
    i: int,
) -> bool {
    dropped(stages[i], stages[i + 1], *items[i])
}

/// Whether a map is another after removing the entries of keys, one after the other.
pub open spec fn dropped_all<K: Eq, P: TableBackend<K, ()>>(
    before: HashMap<K, (), P>,
    after: HashMap<K, (), P>,
    items: Seq<&K>,
) -> bool {
    exists|stages: Seq<HashMap<K, (), P>>| #[trigger]
        drops(stages, items) && stages[0] == before && stages.last() == after
}

/// Whether a map is another after removing the entry of a key, or storing a clone of
/// the key if there is none.
pub open spec fn toggled<K: Eq + Clone, P: TableBackend<K, ()>>(
    before: HashMap<K, (), P>,
    after: HashMap<K, (), P>,
    item: K,
) -> bool {
    match table::stored(before@, item) {
        Some(stored) => after.removed_one(&before, stored),
        None => exists|copy: K| #[trigger]
            cloned::<K>(item, copy) && after@ == before@.insert(copy, ())
                && after.stored_one_more(&before, copy),
    }
}

/// Whether maps show how keys are toggled in the first of them, one after the other.
pub open spec fn toggles<K: Eq + Clone, P: TableBackend<K, ()>>(
    stages: Seq<HashMap<K, (), P>>,
    items: Seq<&K>,
) -> bool {
    &&& stages.len() == items.len() + 1
    &&& forall|i: int| 0 <= i < items.len() ==> #[trigger] toggles_at(stages, items, i)
}

/// Whether a map is the one before it with the next key toggled.
pub open spec fn toggles_at<K: Eq + Clone, P: TableBackend<K, ()>>(
    stages: Seq<HashMap<K, (), P>>,
    items: Seq<&K>,
    i: int,
) -> bool {
    toggled(stages[i], stages[i + 1], *items[i])
}

/// Whether a map is another after toggling keys, one after the other.
pub open spec fn toggled_all<K: Eq + Clone, P: TableBackend<K, ()>>(
    before: HashMap<K, (), P>,
    after: HashMap<K, (), P>,
    items: Seq<&K>,
) -> bool {
    exists|stages: Seq<HashMap<K, (), P>>| #[trigger]
        toggles(stages, items) && stages[0] == before && stages.last() == after
}

/// Whether a sequence holds each element once, and nothing else.
pub open spec fn enumerates<K>(elements: Set<K>, items: Seq<&K>) -> bool {
    &&& items.len() == elements.len()
    &&& items.no_duplicates()
    &&& forall|i: int| 0 <= i < items.len() ==> elements.contains(*#[trigger] items[i])
}

impl<K: Eq, P: TableBackend<K, ()>> HashSet<K, P> {
    /// Adds the items in order, after reserving room for all of them. Returns
    /// whether the set changed.
    pub fn add_items(&mut self, items: Vec<K>) -> (result: bool)
        requires
            old(self).wf(),
            old(self)@.len() + items@.len() <= usize::MAX,
            old(self).store().backing().can_reserve(items@.len()),
        ensures
            final(self).wf(),
            old(self)@.subset_of(final(self)@),
            forall|key: K| #[trigger]
                final(self)@.contains(key) ==> old(self)@.contains(key) || items@.contains(key),
            forall|query: K|
                #![trigger holds(final(self)@, query)]
                holds(final(self)@, query) <==> holds(old(self)@, query) || listed(items@, query),
            result == (final(self)@ != old(self)@),
            final(self).store().extended_from(&old(self).store(), unit_pairs(items@)),
    {
        let ghost start = *self;
        let before: usize = self.len();
        let ghost all = items@;
        let mut pairs: Vec<(K, ())> = Vec::with_capacity(items.len());
        for item in iter: items.into_iter()
            invariant
                iter.seq() == all,
                pairs@.len() == iter.index(),
                forall|i: int| 0 <= i < pairs@.len() ==> #[trigger] pairs@[i] == (all[i], ()),
        {
            pairs.push((item, ()));
        }
        let ghost listing = pairs@;
        proof {
            self.lemma_wf();
            lemma_inserted(self.store()@, listing);
        }
        assert(listing =~= unit_pairs(all));
        self.map_mut().extend(pairs);
        proof {
            self.lemma_wf();
            assert(self@ == put_all(start.store()@, listing).dom());
            assert forall|key: K| #[trigger] self@.contains(key) implies start@.contains(key)
                || all.contains(key) by {
                if !start@.contains(key) {
                    let i = choose|i: int|
                        0 <= i < listing.len() && (#[trigger] listing[i]).0 == key;
                    assert(all[i] == key);
                }
            }
            assert forall|query: K| #[trigger] holds(self@, query) <==> holds(start@, query)
                || listed(all, query) by {
                if exists|i: int|
                    0 <= i < listing.len() && hashing::same_key((#[trigger] listing[i]).0, query) {
                    let i = choose|i: int|
                        0 <= i < listing.len() && hashing::same_key(
                            (#[trigger] listing[i]).0,
                            query,
                        );
                    assert(hashing::same_key(all[i], query));
                }
                if listed(all, query) {
                    let i = choose|i: int|
                        0 <= i < all.len() && hashing::same_key(#[trigger] all[i], query);
                    assert(hashing::same_key(listing[i].0, query));
                }
            }
            if self@.len() == start@.len() {
                vstd::set_lib::lemma_subset_equality(start@, self@);
            }
        }
        self.len() != before
    }

    /// Removes the elements that equal an item. Returns whether the set changed.
    pub fn remove_items(&mut self, items: &[&K]) -> (result: bool)
        requires
            old(self).wf(),
        ensures
            final(self).wf(),
            final(self)@ == old(self)@.filter(|key: K| !named(items@, key)),
            result == (final(self)@ != old(self)@),
            dropped_all(old(self).store(), final(self).store(), items@),
            final(self).store().backing().builder() == old(self).store().backing().builder(),
            final(self).store().backing().fraction() == old(self).store().backing().fraction(),
            final(self).store().backing().slot_count() == old(self).store().backing().slot_count(),
    {
        let ghost start = *self;
        let before: usize = self.len();
        proof {
            self.lemma_wf();
            assert(self@ =~= start@.filter(|key: K| !named(items@.take(0), key)));
        }
        let ghost mut stages: Seq<HashMap<K, (), P>> = seq![self.store()];
        for i in 0..items.len()
            invariant
                self.wf(),
                hashing::lawful_keys::<K>(),
                unequal(start@),
                self@ == start@.filter(|key: K| !named(items@.take(i as int), key)),
                self.store().backing().builder() == start.store().backing().builder(),
                self.store().backing().fraction() == start.store().backing().fraction(),
                self.store().backing().slot_count() == start.store().backing().slot_count(),
                stages.len() == i + 1,
                stages[0] == start.store(),
                stages[i as int] == self.store(),
                forall|j: int| 0 <= j < i ==> #[trigger] drops_at(stages, items@, j),
        {
            let item: &K = items[i];
            let ghost earlier = *self;
            let ghost shown = stages;
            proof {
                self.store().lemma_keys_are_accepted(*item);
            }
            let _ = self.remove(item);
            proof {
                stages = shown.push(self.store());
                assert forall|j: int| 0 <= j < i + 1 implies #[trigger] drops_at(
                    stages,
                    items@,
                    j,
                ) by {
                    if j < i {
                        assert(drops_at(shown, items@, j));
                    }
                }
                let now = items@.take(i + 1);
                let done = items@.take(i as int);
                assert(now[i as int] == item);
                assert(forall|j: int| 0 <= j < i ==> done[j] == #[trigger] now[j]);
                assert forall|key: K| start@.contains(key) implies named(now, key) == (named(
                    done,
                    key,
                ) || hashing::same_key(*item, key)) by {
                    if named(done, key) {
                        let j = choose|j: int|
                            0 <= j < done.len() && hashing::same_key(*#[trigger] done[j], key);
                        assert(hashing::same_key(*now[j], key));
                    }
                    if hashing::same_key(*item, key) {
                        assert(hashing::same_key(*now[i as int], key));
                    }
                    if named(now, key) {
                        let j = choose|j: int|
                            0 <= j < now.len() && hashing::same_key(*#[trigger] now[j], key);
                        if j < i {
                            assert(hashing::same_key(*done[j], key));
                        }
                    }
                }
                let found = table::stored(earlier.store()@, *item);
                if found is Some {
                    assert(earlier@.contains(found->0) && item.stands_for(found->0));
                    assert(hashing::same_key(*item, found->0));
                    assert forall|key: K| earlier@.contains(key) && hashing::same_key(
                        *item,
                        key,
                    ) implies key == found->0 by {
                        assert(hashing::same_key(key, *item));
                        assert(hashing::same_key(key, found->0));
                    }
                } else {
                    assert forall|key: K| earlier@.contains(key) implies !hashing::same_key(
                        *item,
                        key,
                    ) by {
                        assert(item.stands_for(key) == hashing::same_key(*item, key));
                    }
                }
                assert(self@ =~= start@.filter(|key: K| !named(now, key)));
            }
        }
        proof {
            self.lemma_wf();
            assert(items@.take(items@.len() as int) =~= items@);
            assert(drops(stages, items@));
            if self@.len() == start@.len() {
                start.lemma_wf();
                vstd::set_lib::lemma_subset_equality(self@, start@);
            }
        }
        self.len() != before
    }
}

/// If each element of one set is equal to one of another, the other has at least
/// as many elements.
pub proof fn law_subset_is_no_larger<K: Eq>(left: Set<K>, right: Set<K>)
    requires
        hashing::lawful_keys::<K>(),
        left.finite(),
        right.finite(),
        unequal(left),
        within(left, right),
    ensures
        left.len() <= right.len(),
        left.len() == right.len() && unequal(right) ==> within(right, left),
{
    let partner = |key: K|
        choose|found: K| right.contains(found) && #[trigger] key.stands_for(found);
    let image = left.map(partner);
    assert forall|key: K| #[trigger] left.contains(key) implies right.contains(partner(key))
        && hashing::same_key(key, partner(key)) by {
        assert(holds(right, key));
        assert(key.stands_for(partner(key)));
    }
    assert forall|one: K, two: K|
        left.contains(one) && left.contains(two) && #[trigger] partner(one) == #[trigger] partner(
            two,
        ) implies one == two by {
        assert(hashing::same_key(two, partner(two)));
        assert(hashing::same_key(partner(two), two));
        assert(hashing::same_key(one, partner(one)));
        assert(hashing::same_key(one, two));
    }
    vstd::set_lib::lemma_map_size(left, image, partner);
    assert forall|found: K| image.contains(found) implies right.contains(found) by {
        let key = choose|key: K| left.contains(key) && partner(key) == found;
        assert(left.contains(key));
    }
    vstd::set_lib::lemma_len_subset(image, right);
    if left.len() == right.len() {
        vstd::set_lib::lemma_subset_equality(image, right);
        assert forall|key: K| #[trigger] right.contains(key) implies holds(left, key) by {
            assert(image.contains(key));
            let origin = choose|origin: K| left.contains(origin) && partner(origin) == key;
            assert(left.contains(origin));
            assert(hashing::same_key(key, origin));
            lemma_element(left, origin, key);
        }
    }
}

/// Two sets share no element whichever of them is asked.
pub proof fn law_disjointness_is_symmetric<K: Eq>(left: Set<K>, right: Set<K>)
    requires
        hashing::lawful_keys::<K>(),
    ensures
        disjoint(left, right) == disjoint(right, left),
{
    if disjoint(left, right) && !disjoint(right, left) {
        lemma_shared(left, right);
    }
    if disjoint(right, left) && !disjoint(left, right) {
        lemma_shared(right, left);
    }
}

/// An element that two sets share is shared both ways.
proof fn lemma_shared<K: Eq>(left: Set<K>, right: Set<K>)
    requires
        hashing::lawful_keys::<K>(),
        !disjoint(right, left),
    ensures
        !disjoint(left, right),
{
    let key = choose|key: K| #[trigger] right.contains(key) && holds(left, key);
    let found = choose|found: K| left.contains(found) && #[trigger] key.stands_for(found);
    assert(hashing::same_key(key, found));
    assert(hashing::same_key(found, key));
    lemma_element(right, key, found);
    assert(left.contains(found));
}

/// Two sets hold the same keys if and only if each element of one is equal to one
/// of the other and they have as many elements.
pub proof fn law_equal_sets_hold_the_same<K: Eq>(left: Set<K>, right: Set<K>)
    requires
        hashing::lawful_keys::<K>(),
        left.finite(),
        right.finite(),
        unequal(left),
        unequal(right),
    ensures
        (left.len() == right.len() && within(left, right)) <==> (forall|query: K|
            #![trigger holds(left, query)]
            #![trigger holds(right, query)]
            holds(left, query) == holds(right, query)),
{
    if left.len() == right.len() && within(left, right) {
        law_subset_is_no_larger(left, right);
        assert forall|query: K|
            #![trigger holds(left, query)]
            #![trigger holds(right, query)]
            holds(left, query) == holds(right, query) by {
            if holds(left, query) {
                let key = choose|key: K| left.contains(key) && #[trigger] query.stands_for(key);
                assert(holds(right, key));
                lemma_equal_keys(right, query, key);
            }
            if holds(right, query) {
                let key = choose|key: K| right.contains(key) && #[trigger] query.stands_for(key);
                assert(holds(left, key));
                lemma_equal_keys(left, query, key);
            }
        }
    }
    if forall|query: K| #[trigger] holds(left, query) == holds(right, query) {
        assert forall|key: K| #[trigger] left.contains(key) implies holds(right, key) by {
            assert(hashing::same_key(key, key));
            lemma_element(left, key, key);
        }
        assert forall|key: K| #[trigger] right.contains(key) implies holds(left, key) by {
            assert(hashing::same_key(key, key));
            lemma_element(right, key, key);
        }
        law_subset_is_no_larger(left, right);
        law_subset_is_no_larger(right, left);
    }
}

/// What references to all elements of a set name.
proof fn lemma_names<K: Eq>(elements: Set<K>, items: Seq<&K>)
    requires
        hashing::lawful_keys::<K>(),
        forall|i: int| 0 <= i < items.len() ==> elements.contains(*#[trigger] items[i]),
        forall|key: K| #[trigger]
            elements.contains(key) ==> exists|i: int|
                0 <= i < items.len() && *#[trigger] items[i] == key,
    ensures
        forall|key: K| #[trigger] named(items, key) == holds(elements, key),
{
    assert forall|key: K| #[trigger] named(items, key) == holds(elements, key) by {
        if named(items, key) {
            let i = choose|i: int|
                0 <= i < items.len() && hashing::same_key(*#[trigger] items[i], key);
            assert(hashing::same_key(key, *items[i]));
            lemma_element(elements, *items[i], key);
        }
        if holds(elements, key) {
            let found = choose|found: K|
                elements.contains(found) && #[trigger] key.stands_for(found);
            assert(hashing::same_key(key, found));
            assert(hashing::same_key(found, key));
            let i = choose|i: int| 0 <= i < items.len() && *#[trigger] items[i] == found;
            assert(hashing::same_key(*items[i], key));
        }
    }
}

impl<K: Eq, P: TableBackend<K, ()>> HashSet<K, P> {
    /// Removes the elements that equal one of another set. Returns whether the set
    /// changed.
    pub fn remove_all(&mut self, other: &Self) -> (result: bool)
        requires
            old(self).wf(),
            other.wf(),
        ensures
            final(self).wf(),
            final(self)@ == old(self)@.filter(|key: K| !holds(other@, key)),
            result == (final(self)@ != old(self)@),
            exists|items: Seq<&K>| #[trigger]
                enumerates(other@, items) && dropped_all(
                    old(self).store(),
                    final(self).store(),
                    items,
                ),
            final(self).store().backing().builder() == old(self).store().backing().builder(),
            final(self).store().backing().fraction() == old(self).store().backing().fraction(),
            final(self).store().backing().slot_count() == old(self).store().backing().slot_count(),
    {
        let ghost start = self@;
        let items: Vec<&K> = other.elements();
        proof {
            other.lemma_wf();
            lemma_names(other@, items@);
        }
        assert(enumerates(other@, items@));
        let changed: bool = self.remove_items(items.as_slice());
        assert(self@ =~= start.filter(|key: K| !holds(other@, key)));
        changed
    }

    /// Whether the two sets share no element.
    pub fn is_disjoint(&self, other: &Self) -> (result: bool)
        requires
            self.wf(),
            other.wf(),
        ensures
            result == disjoint(self@, other@),
    {
        proof {
            self.lemma_wf();
            law_disjointness_is_symmetric(self@, other@);
        }
        if self.len() <= other.len() {
            self.shares_nothing_with(other)
        } else {
            other.shares_nothing_with(self)
        }
    }

    /// Whether none of the elements is in another set.
    fn shares_nothing_with(&self, other: &Self) -> (result: bool)
        requires
            self.wf(),
            other.wf(),
        ensures
            result == disjoint(self@, other@),
    {
        let items: Vec<&K> = self.elements();
        for i in 0..items.len()
            invariant
                other.wf(),
                forall|j: int| 0 <= j < items@.len() ==> self@.contains(*#[trigger] items@[j]),
                forall|j: int| 0 <= j < i ==> !holds(other@, *#[trigger] items@[j]),
        {
            let item: &K = items[i];
            proof {
                other.store().lemma_keys_are_accepted(*item);
            }
            if other.contains(item) {
                assert(self@.contains(*items@[i as int]));
                return false;
            }
        }
        true
    }

    /// Whether each element is in another set.
    pub fn is_subset(&self, other: &Self) -> (result: bool)
        requires
            self.wf(),
            other.wf(),
        ensures
            result == within(self@, other@),
    {
        proof {
            self.lemma_wf();
            other.lemma_wf();
            if within(self@, other@) {
                law_subset_is_no_larger(self@, other@);
            }
        }
        if self.len() > other.len() {
            return false;
        }
        let items: Vec<&K> = self.elements();
        for i in 0..items.len()
            invariant
                other.wf(),
                forall|j: int| 0 <= j < items@.len() ==> self@.contains(*#[trigger] items@[j]),
                forall|j: int| 0 <= j < i ==> holds(other@, *#[trigger] items@[j]),
        {
            let item: &K = items[i];
            proof {
                other.store().lemma_keys_are_accepted(*item);
            }
            if !other.contains(item) {
                assert(self@.contains(*items@[i as int]));
                return false;
            }
        }
        true
    }

    /// Whether each element of another set is in this one.
    pub fn is_superset(&self, other: &Self) -> (result: bool)
        requires
            self.wf(),
            other.wf(),
        ensures
            result == within(other@, self@),
    {
        other.is_subset(self)
    }

    /// Whether the two sets hold the same keys.
    pub fn eq(&self, other: &Self) -> (result: bool)
        requires
            self.wf(),
            other.wf(),
        ensures
            result == (forall|query: K|
                #![trigger holds(self@, query)]
                #![trigger holds(other@, query)]
                holds(self@, query) == holds(other@, query)),
    {
        proof {
            self.lemma_wf();
            other.lemma_wf();
            law_equal_sets_hold_the_same(self@, other@);
        }
        self.len() == other.len() && self.is_subset(other)
    }

    /// Keeps the elements that equal one of another set. Returns whether the set
    /// changed.
    pub fn retain_in(&mut self, other: &Self) -> (result: bool)
        requires
            old(self).wf(),
            other.wf(),
        ensures
            final(self).wf(),
            final(self)@ == old(self)@.filter(|key: K| holds(other@, key)),
            result == (final(self)@ != old(self)@),
            final(self).store().swept_from(&old(self).store()),
    {
        let ghost start = *self;
        let before: usize = self.len();
        let keep = |key: &K, value: &mut ()| -> (kept: bool)
            requires
                other.wf(),
            ensures
                kept == holds(other@, *key),
            {
                proof {
                    other.store().lemma_keys_are_accepted(*key);
                }
                other.contains(key)
            };
        self.map_mut().retain(keep);
        proof {
            self.lemma_wf();
            start.lemma_wf();
            assert forall|key: K| start@.contains(key) implies self@.contains(key) == holds(
                other@,
                key,
            ) by {
                assert(start.store()@.contains_key(key));
            }
            assert(self@ =~= start@.filter(|key: K| holds(other@, key)));
            if self@.len() == start@.len() {
                vstd::set_lib::lemma_subset_equality(self@, start@);
            }
        }
        self.len() != before
    }
}

/// Whether slot counts are those of a table that grows, one full table after the
/// other, until it takes `needed` entries.
pub open spec fn growth_path<K: Eq, V, P: TableModel<K, V>>(
    path: Seq<nat>,
    reserve: ReserveFraction,
    needed: nat,
) -> bool {
    &&& path.len() > 0
    &&& capacity::insertion_limit(path.last(), reserve) >= needed
    &&& forall|i: int|
        0 <= i < path.len() - 1 ==> P::enlarged(#[trigger] path[i], reserve) == Some(path[i + 1])
            && P::refusal(path[i + 1], reserve) is None
}

/// Whether a table can grow, one full table after the other, until it takes
/// `needed` entries.
pub open spec fn grows_to<K: Eq, V, P: TableModel<K, V>>(table: P, needed: nat) -> bool {
    exists|path: Seq<nat>| #[trigger]
        growth_path::<K, V, P>(path, table.fraction(), needed) && path[0] == table.slot_count()
}

/// A table that takes so many entries as it is need not grow.
pub proof fn law_roomy_tables_need_not_grow<K: Eq, V, P: TableModel<K, V>>(table: P, needed: nat)
    requires
        needed <= table.limit(),
    ensures
        grows_to::<K, V, P>(table, needed),
{
    assert(growth_path::<K, V, P>(seq![table.slot_count()], table.fraction(), needed));
}

/// A key is equal to both of two equal keys or to none.
proof fn lemma_same<K: Eq>(query: K, left: K, right: K)
    requires
        hashing::lawful_keys::<K>(),
        hashing::same_key(left, right),
    ensures
        hashing::same_key(query, left) == hashing::same_key(query, right),
{
    assert(hashing::same_key(right, left));
}

/// Removing an element leaves it not found by the keys that equal it.
proof fn lemma_dropped<K: Eq>(elements: Set<K>, dropped: K, query: K)
    requires
        hashing::lawful_keys::<K>(),
        unequal(elements),
        elements.contains(dropped),
    ensures
        holds(elements.remove(dropped), query) == (holds(elements, query) && !hashing::same_key(
            query,
            dropped,
        )),
{
    let after = elements.remove(dropped);
    if holds(after, query) {
        let key = choose|key: K| after.contains(key) && #[trigger] query.stands_for(key);
        assert(elements.contains(key));
        if hashing::same_key(query, dropped) {
            assert(hashing::same_key(query, key));
            assert(hashing::same_key(key, query));
            assert(hashing::same_key(key, dropped));
        }
    }
    if holds(elements, query) && !hashing::same_key(query, dropped) {
        let key = choose|key: K| elements.contains(key) && #[trigger] query.stands_for(key);
        assert(hashing::same_key(query, key));
        assert(after.contains(key));
    }
}

/// Taking one more item into account, which equals none before it.
proof fn lemma_toggled<K: Eq>(
    start: Set<K>,
    before: Set<K>,
    after: Set<K>,
    items: Seq<&K>,
    i: int,
)
    requires
        hashing::lawful_keys::<K>(),
        0 <= i < items.len(),
        forall|j: int|
            0 <= j < i ==> !hashing::same_key(*#[trigger] items[j], *items[i]),
        forall|query: K| #[trigger]
            holds(before, query) == (holds(start, query) != named(items.take(i), query)),
        if holds(before, *items[i]) {
            forall|query: K| #[trigger]
                holds(after, query) == (holds(before, query) && !hashing::same_key(
                    query,
                    *items[i],
                ))
        } else {
            forall|query: K| #[trigger]
                holds(after, query) == (holds(before, query) || hashing::same_key(
                    query,
                    *items[i],
                ))
        },
    ensures
        forall|query: K| #[trigger]
            holds(after, query) == (holds(start, query) != named(items.take(i + 1), query)),
{
    let item = *items[i];
    let done = items.take(i);
    let now = items.take(i + 1);
    assert(now[i] == items[i]);
    assert(!named(done, item)) by {
        if named(done, item) {
            let j = choose|j: int|
                0 <= j < done.len() && hashing::same_key(*#[trigger] done[j], item);
            assert(!hashing::same_key(*items[j], *items[i]));
        }
    }
    assert forall|query: K| #[trigger] holds(after, query) == (holds(start, query) != named(
        now,
        query,
    )) by {
        if named(done, query) {
            let j = choose|j: int|
                0 <= j < done.len() && hashing::same_key(*#[trigger] done[j], query);
            assert(hashing::same_key(*now[j], query));
            if hashing::same_key(query, item) {
                assert(hashing::same_key(*done[j], item));
            }
        }
        if named(now, query) && !named(done, query) {
            let j = choose|j: int|
                0 <= j < now.len() && hashing::same_key(*#[trigger] now[j], query);
            if j < i {
                assert(hashing::same_key(*done[j], query));
            }
            assert(hashing::same_key(item, query));
            assert(hashing::same_key(query, item));
        }
        if hashing::same_key(query, item) {
            assert(hashing::same_key(item, query));
            assert(hashing::same_key(*now[i], query));
            lemma_equal_keys(before, query, item);
        }
    }
}

/// What clones of all elements of a set list.
proof fn lemma_copies_listed<K: Eq + Clone>(elements: Set<K>, copies: Seq<K>)
    requires
        hashing::lawful_keys::<K>(),
        table::clones_are_equal::<K>(),
        forall|i: int| 0 <= i < copies.len() ==> #[trigger] copied_from(elements, copies[i]),
        forall|key: K| #[trigger]
            elements.contains(key) ==> exists|i: int|
                0 <= i < copies.len() && cloned::<K>(key, #[trigger] copies[i]),
    ensures
        forall|query: K| #[trigger] listed(copies, query) == holds(elements, query),
{
    assert forall|query: K| #[trigger] listed(copies, query) == holds(elements, query) by {
        if listed(copies, query) {
            let i = choose|i: int|
                0 <= i < copies.len() && hashing::same_key(#[trigger] copies[i], query);
            assert(copied_from(elements, copies[i]));
            let key = choose|key: K|
                elements.contains(key) && #[trigger] cloned::<K>(key, copies[i]);
            assert(hashing::same_key(key, copies[i]));
            assert(hashing::same_key(key, query));
            assert(hashing::same_key(query, key));
            lemma_element(elements, key, query);
        }
        if holds(elements, query) {
            let key = choose|key: K| elements.contains(key) && #[trigger] query.stands_for(key);
            let i = choose|i: int| 0 <= i < copies.len() && cloned::<K>(key, #[trigger] copies[i]);
            assert(hashing::same_key(query, key));
            assert(hashing::same_key(key, copies[i]));
            assert(hashing::same_key(query, copies[i]));
            assert(hashing::same_key(copies[i], query));
        }
    }
}

impl<K: Eq + Clone, P: TableBackend<K, ()>> HashSet<K, P> {
    /// Clones of the elements.
    fn cloned_elements(&self) -> (result: Vec<K>)
        requires
            self.wf(),
        ensures
            result@.len() == self@.len(),
            forall|i: int| 0 <= i < result@.len() ==> #[trigger] copied_from(self@, result@[i]),
            forall|key: K| #[trigger]
                self@.contains(key) ==> exists|i: int|
                    0 <= i < result@.len() && cloned::<K>(key, #[trigger] result@[i]),
    {
        let items: Vec<&K> = self.elements();
        let mut copies: Vec<K> = Vec::with_capacity(items.len());
        for i in 0..items.len()
            invariant
                copies@.len() == i,
                forall|j: int|
                    0 <= j < i ==> cloned::<K>(*#[trigger] items@[j], #[trigger] copies@[j]),
        {
            let copy: K = items[i].clone();
            copies.push(copy);
        }
        proof {
            assert forall|i: int| 0 <= i < copies@.len() implies #[trigger] copied_from(
                self@,
                copies@[i],
            ) by {
                assert(self@.contains(*items@[i]));
                assert(cloned::<K>(*items@[i], copies@[i]));
            }
            assert forall|key: K| #[trigger] self@.contains(key) implies exists|i: int|
                0 <= i < copies@.len() && cloned::<K>(key, #[trigger] copies@[i]) by {
                let i = choose|i: int| 0 <= i < items@.len() && *#[trigger] items@[i] == key;
                assert(cloned::<K>(*items@[i], copies@[i]));
            }
        }
        copies
    }

    /// Adds clones of the elements of another set, after reserving room for all of
    /// them. Returns whether the set changed.
    pub fn add_all(&mut self, other: &Self) -> (result: bool)
        requires
            old(self).wf(),
            other.wf(),
            table::clones_are_equal::<K>(),
            old(self)@.len() + other@.len() <= usize::MAX,
            old(self).store().backing().can_reserve(other@.len()),
        ensures
            final(self).wf(),
            old(self)@.subset_of(final(self)@),
            forall|key: K| #[trigger]
                final(self)@.contains(key) ==> old(self)@.contains(key) || copied_from(other@, key),
            forall|query: K|
                #![trigger holds(final(self)@, query)]
                holds(final(self)@, query) <==> holds(old(self)@, query) || holds(other@, query),
            result == (final(self)@ != old(self)@),
            exists|copies: Seq<K>| #[trigger]
                copies_all(other@, copies) && final(self).store().extended_from(
                    &old(self).store(),
                    unit_pairs(copies),
                ),
    {
        let ghost start = *self;
        let items: Vec<K> = other.cloned_elements();
        let ghost all = items@;
        let changed: bool = self.add_items(items);
        proof {
            self.lemma_wf();
            lemma_copies_listed(other@, all);
            assert(copies_all(other@, all));
            assert forall|query: K| #[trigger] holds(self@, query) <==> holds(start@, query)
                || holds(other@, query) by {
                assert(listed(all, query) == holds(other@, query));
            }
            assert forall|key: K| #[trigger] self@.contains(key) implies start@.contains(key)
                || copied_from(other@, key) by {
                if !start@.contains(key) {
                    let i = choose|i: int| 0 <= i < all.len() && all[i] == key;
                    assert(copied_from(other@, all[i]));
                }
            }
        }
        changed
    }

    /// Removes the elements that equal one of another set, and adds clones of the
    /// other elements of that set. Returns whether that set has any element.
    pub fn symmetric_difference_with(&mut self, other: &Self) -> (result: bool)
        requires
            old(self).wf(),
            other.wf(),
            table::clones_are_equal::<K>(),
            grows_to::<K, (), P>(old(self).store().backing(), old(self)@.len() + other@.len()),
        ensures
            final(self).wf(),
            forall|query: K|
                #![trigger holds(final(self)@, query)]
                holds(final(self)@, query) <==> holds(old(self)@, query) != holds(other@, query),
            forall|key: K| #[trigger]
                final(self)@.contains(key) ==> old(self)@.contains(key) || copied_from(other@, key),
            result == (other@ != Set::<K>::empty()),
            exists|items: Seq<&K>| #[trigger]
                enumerates(other@, items) && toggled_all(
                    old(self).store(),
                    final(self).store(),
                    items,
                ),
            final(self).store().backing().builder() == old(self).store().backing().builder(),
            final(self).store().backing().fraction() == old(self).store().backing().fraction(),
    {
        let ghost start = *self;
        let items: Vec<&K> = other.elements();
        let ghost needed = start@.len() + other@.len();
        let ghost reserve = start.store().backing().fraction();
        let ghost path = choose|path: Seq<nat>| #[trigger]
            growth_path::<K, (), P>(path, reserve, needed) && path[0]
                == start.store().backing().slot_count();
        let ghost mut step: int = 0;
        let ghost mut stages: Seq<HashMap<K, (), P>> = seq![self.store()];
        proof {
            self.lemma_wf();
            other.lemma_wf();
            lemma_names(other@, items@);
            assert forall|query: K| #[trigger] holds(self@, query) == (holds(start@, query)
                != named(items@.take(0), query)) by {
                assert(!named(items@.take(0), query));
            }
        }
        for i in 0..items.len()
            invariant
                self.wf(),
                hashing::lawful_keys::<K>(),
                table::clones_are_equal::<K>(),
                unequal(other@),
                items@.no_duplicates(),
                items@.len() == other@.len(),
                forall|j: int| 0 <= j < items@.len() ==> other@.contains(*#[trigger] items@[j]),
                needed == start@.len() + other@.len(),
                self@.len() <= start@.len() + i,
                self.store().backing().builder() == start.store().backing().builder(),
                self.store().backing().fraction() == reserve,
                reserve == start.store().backing().fraction(),
                growth_path::<K, (), P>(path, reserve, needed),
                0 <= step < path.len(),
                self.store().backing().slot_count() == path[step],
                forall|query: K| #[trigger]
                    holds(self@, query) == (holds(start@, query) != named(
                        items@.take(i as int),
                        query,
                    )),
                forall|key: K| #[trigger]
                    self@.contains(key) ==> start@.contains(key) || copied_from(other@, key),
                stages.len() == i + 1,
                stages[0] == start.store(),
                stages[i as int] == self.store(),
                forall|j: int| 0 <= j < i ==> #[trigger] toggles_at(stages, items@, j),
        {
            let item: &K = items[i];
            let ghost earlier = *self;
            let ghost shown = stages;
            proof {
                self.store().lemma_keys_are_accepted(*item);
                self.lemma_wf();
                assert(other@.contains(*items@[i as int]));
            }
            if !self.remove(item) {
                let copy: K = item.clone();
                proof {
                    assert(cloned::<K>(*item, copy));
                    assert(copied_from(other@, copy));
                    assert(hashing::same_key(*item, copy));
                    lemma_equal_keys(self@, *item, copy);
                    if self@.len() >= self.store().backing().limit() {
                        assert(step < path.len() - 1);
                        assert(P::enlarged(path[step], reserve) == Some(path[step + 1]));
                    }
                }
                let _ = self.insert(copy);
                proof {
                    if earlier@.len() >= earlier.store().backing().limit() {
                        step = step + 1;
                    }
                    assert(cloned::<K>(*item, copy));
                    assert(self.store()@ =~= earlier.store()@.insert(copy, ()));
                    assert(toggled(earlier.store(), self.store(), *item));
                    assert forall|query: K| #[trigger] holds(self@, query) == (holds(
                        earlier@,
                        query,
                    ) || hashing::same_key(query, *item)) by {
                        lemma_added(earlier@, copy, query);
                        lemma_same(query, *item, copy);
                    }
                }
            } else {
                proof {
                    let found = table::stored(earlier.store()@, *item)->0;
                    assert(earlier@.contains(found) && item.stands_for(found));
                    assert(hashing::same_key(*item, found));
                    assert forall|query: K| #[trigger] holds(self@, query) == (holds(
                        earlier@,
                        query,
                    ) && !hashing::same_key(query, *item)) by {
                        lemma_dropped(earlier@, found, query);
                        lemma_same(query, *item, found);
                    }
                }
            }
            proof {
                stages = shown.push(self.store());
                assert forall|j: int| 0 <= j < i + 1 implies #[trigger] toggles_at(
                    stages,
                    items@,
                    j,
                ) by {
                    if j < i {
                        assert(toggles_at(shown, items@, j));
                    }
                }
                lemma_toggled(start@, earlier@, self@, items@, i as int);
                self.lemma_wf();
            }
        }
        proof {
            assert(items@.take(items@.len() as int) =~= items@);
            assert forall|query: K| #[trigger] holds(self@, query) <==> holds(start@, query)
                != holds(other@, query) by {
                assert(named(items@, query) == holds(other@, query));
            }
            assert(toggles(stages, items@));
            assert(enumerates(other@, items@));
            if other@.len() == 0 {
                vstd::set_lib::lemma_set_empty_equivalency_len(other@);
            }
        }
        items.len() > 0
    }
}

} // verus!
