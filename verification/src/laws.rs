//! What holds of maps across operations: reads give back what was written, and
//! an operation on one key leaves the others alone.

use vstd::prelude::*;
use vstd::std_specs::cmp::*;

use crate::bulk;
use crate::hashing::{self, Equivalent, HashBuilder};
use crate::table;

verus! {

/// The stored key of a lookup value is stored and stands for it, and is the only
/// one.
pub proof fn law_stored_key_is_unique<K: Eq, V, Q: Equivalent<K>, S>(
    builder: S,
    entries: Map<K, V>,
    query: Q,
    key: K,
) where S: HashBuilder<K> + HashBuilder<Q>
    requires
        table::distinct(entries),
        hashing::lawful_query::<K, Q, S>(builder, query),
        entries.contains_key(key),
        query.stands_for(key),
    ensures
        table::stored(entries, query) == Some(key),
        table::looked_up(entries, query) == Some(entries[key]),
{
    let found = table::stored(entries, query)->0;
    assert(entries.contains_key(found) && query.stands_for(found));
    assert(hashing::same_key(found, key));
}

/// A key that is stored is found, and is the only one found for it.
proof fn lemma_key_found<K: Eq, V>(entries: Map<K, V>, query: K, key: K)
    requires
        hashing::lawful_keys::<K>(),
        table::distinct(entries),
        entries.contains_key(key),
        hashing::same_key(query, key),
    ensures
        table::stored(entries, query) == Some(key),
{
    assert(query.stands_for(key));
    let found = table::stored(entries, query)->0;
    assert(entries.contains_key(found) && query.stands_for(found));
    assert(hashing::same_key(query, found));
    assert(hashing::same_key(found, query));
    assert(hashing::same_key(found, key));
}

/// What is found is stored and equal to what was asked for.
proof fn lemma_found<K: Eq, V>(entries: Map<K, V>, query: K)
    ensures
        table::stored(entries, query) matches Some(key) ==> entries.contains_key(key)
            && hashing::same_key(query, key),
{
    if table::stored(entries, query) is Some {
        let key = table::stored(entries, query)->0;
        assert(entries.contains_key(key) && query.stands_for(key));
    }
}

/// Inserting keeps stored keys pairwise unequal.
pub proof fn law_insert_keeps_keys_distinct<K: Eq, V>(entries: Map<K, V>, key: K, value: V)
    requires
        hashing::lawful_keys::<K>(),
        table::distinct(entries),
    ensures
        table::distinct(table::put(entries, key, value)),
{
    let after = table::put(entries, key, value);
    lemma_found(entries, key);
    assert forall|left: K, right: K|
        after.contains_key(left) && after.contains_key(right) && #[trigger] hashing::same_key(
            left,
            right,
        ) implies left == right by {
        if table::stored(entries, key) is None {
            if left == key && right != key {
                assert(key.stands_for(right));
            }
            if right == key && left != key {
                assert(hashing::same_key(right, left));
                assert(key.stands_for(left));
            }
        }
    }
}

/// A lookup after an insert finds the inserted value.
pub proof fn law_get_after_insert<K: Eq, V>(entries: Map<K, V>, key: K, value: V, query: K)
    requires
        hashing::lawful_keys::<K>(),
        table::distinct(entries),
        hashing::same_key(query, key),
    ensures
        table::looked_up(table::put(entries, key, value), query) == Some(value),
{
    let after = table::put(entries, key, value);
    law_insert_keeps_keys_distinct(entries, key, value);
    lemma_found(entries, key);
    let present = if table::stored(entries, key) is Some {
        table::stored(entries, key)->0
    } else {
        key
    };
    assert(hashing::same_key(key, key));
    assert(hashing::same_key(key, present));
    assert(hashing::same_key(query, present));
    lemma_key_found(after, query, present);
}

/// A lookup of an unequal key does not notice an insert.
pub proof fn law_insert_leaves_other_keys<K: Eq, V>(entries: Map<K, V>, key: K, value: V, query: K)
    requires
        hashing::lawful_keys::<K>(),
        table::distinct(entries),
        !hashing::same_key(query, key),
    ensures
        table::looked_up(table::put(entries, key, value), query) == table::looked_up(
            entries,
            query,
        ),
{
    let after = table::put(entries, key, value);
    law_insert_keeps_keys_distinct(entries, key, value);
    lemma_found(entries, key);
    lemma_found(entries, query);
    lemma_found(after, query);
    if table::stored(entries, query) is Some {
        let held = table::stored(entries, query)->0;
        if table::stored(entries, key) == Some(held) {
            assert(hashing::same_key(key, held));
            assert(hashing::same_key(held, key));
            assert(hashing::same_key(query, key));
        }
        lemma_key_found(after, query, held);
    } else if table::stored(after, query) is Some {
        let held = table::stored(after, query)->0;
        if entries.contains_key(held) {
            lemma_key_found(entries, query, held);
        }
    }
}

/// Inserting makes a map longer by one if and only if no equal key was stored.
pub proof fn law_insert_counts_distinct_keys<K: Eq, V>(entries: Map<K, V>, key: K, value: V)
    requires
        hashing::lawful_keys::<K>(),
        entries.dom().finite(),
    ensures
        table::put(entries, key, value).len() == if table::stored(entries, key) is Some {
            entries.len()
        } else {
            entries.len() + 1
        },
{
    lemma_found(entries, key);
    assert(hashing::same_key(key, key));
    if table::stored(entries, key) is Some {
        assert(table::put(entries, key, value).dom() =~= entries.dom());
    } else if entries.contains_key(key) {
        assert(key.stands_for(key));
    }
}

/// Of two inserts under equal keys the second wins, and the first key stays.
pub proof fn law_insert_twice<K: Eq, V>(
    entries: Map<K, V>,
    key: K,
    first: V,
    again: K,
    second: V,
)
    requires
        hashing::lawful_keys::<K>(),
        table::distinct(entries),
        hashing::same_key(again, key),
    ensures
        table::put(table::put(entries, key, first), again, second) == table::put(
            entries,
            key,
            second,
        ),
{
    let once = table::put(entries, key, first);
    law_insert_keeps_keys_distinct(entries, key, first);
    lemma_found(entries, key);
    let present = if table::stored(entries, key) is Some {
        table::stored(entries, key)->0
    } else {
        key
    };
    assert(hashing::same_key(key, key));
    assert(hashing::same_key(key, present));
    assert(hashing::same_key(again, present));
    lemma_key_found(once, again, present);
    assert(table::put(once, again, second) =~= table::put(entries, key, second));
}

/// A removed key is not found again, and unequal keys do not notice.
pub proof fn law_remove<K: Eq, V>(entries: Map<K, V>, removed: K, query: K)
    requires
        hashing::lawful_keys::<K>(),
        table::distinct(entries),
        entries.contains_key(removed),
    ensures
        table::looked_up(entries.remove(removed), query) == if hashing::same_key(query, removed) {
            None
        } else {
            table::looked_up(entries, query)
        },
        table::distinct(entries.remove(removed)),
{
    let after = entries.remove(removed);
    lemma_found(entries, query);
    lemma_found(after, query);
    if table::stored(after, query) is Some {
        let held = table::stored(after, query)->0;
        if hashing::same_key(query, removed) {
            assert(hashing::same_key(removed, query));
            assert(hashing::same_key(removed, held));
        }
        lemma_key_found(entries, query, held);
    } else if table::stored(entries, query) is Some {
        let held = table::stored(entries, query)->0;
        if held != removed {
            lemma_key_found(after, query, held);
        }
    }
}

/// Removing the stored key of a lookup value leaves nothing for the lookup value
/// to find, and keys that it does not stand for do not notice.
pub proof fn law_remove_by_query<K: Eq, V, Q: Equivalent<K>, S>(
    builder: S,
    entries: Map<K, V>,
    query: Q,
) where S: HashBuilder<K> + HashBuilder<Q>
    requires
        hashing::lawful_keys::<K>(),
        hashing::lawful_query::<K, Q, S>(builder, query),
        table::distinct(entries),
    ensures
        match table::stored(entries, query) {
            Some(removed) => {
                &&& table::looked_up(entries.remove(removed), query) is None
                &&& forall|other: K|
                    !query.stands_for(other) ==> #[trigger] table::looked_up(
                        entries.remove(removed),
                        other,
                    ) == table::looked_up(entries, other)
            },
            None => table::looked_up(entries, query) is None,
        },
{
    if table::stored(entries, query) is Some {
        let removed = table::stored(entries, query)->0;
        let after = entries.remove(removed);
        assert(entries.contains_key(removed) && query.stands_for(removed));
        if table::stored(after, query) is Some {
            let held = table::stored(after, query)->0;
            assert(after.contains_key(held) && query.stands_for(held));
            assert(hashing::same_key(held, removed));
        }
        assert forall|other: K| !query.stands_for(other) implies #[trigger] table::looked_up(
            after,
            other,
        ) == table::looked_up(entries, other) by {
            law_remove(entries, removed, other);
            if hashing::same_key(other, removed) {
                assert(hashing::same_key(removed, other));
            }
        }
    }
}

/// Removing what an insert added gives back the entries from before.
pub proof fn law_remove_undoes_insert<K: Eq, V>(entries: Map<K, V>, key: K, value: V)
    requires
        hashing::lawful_keys::<K>(),
        table::stored(entries, key) is None,
    ensures
        table::put(entries, key, value).remove(key) == entries,
{
    assert(hashing::same_key(key, key));
    if entries.contains_key(key) {
        assert(key.stands_for(key));
    }
    assert(table::put(entries, key, value).remove(key) =~= entries);
}

/// A lookup in a clone finds a clone of what it finds in the map.
pub proof fn law_clone_answers_alike<K: Eq + Clone, V: Clone>(
    entries: Map<K, V>,
    copies: Map<K, V>,
    query: K,
)
    requires
        hashing::lawful_keys::<K>(),
        table::clones_are_equal::<K>(),
        table::distinct(entries),
        table::distinct(copies),
        table::all_cloned(entries, copies),
    ensures
        match table::looked_up(entries, query) {
            Some(value) => table::looked_up(copies, query) matches Some(copy) && cloned::<V>(
                value,
                copy,
            ),
            None => table::looked_up(copies, query) is None,
        },
{
    lemma_found(entries, query);
    lemma_found(copies, query);
    if table::stored(entries, query) is Some {
        let key = table::stored(entries, query)->0;
        let copy = choose|copy: K|
            copies.contains_key(copy) && #[trigger] cloned::<K>(key, copy) && cloned::<V>(
                entries[key],
                copies[copy],
            );
        assert(hashing::same_key(key, copy));
        assert(hashing::same_key(query, copy));
        lemma_key_found(copies, query, copy);
    } else if table::stored(copies, query) is Some {
        let copy = table::stored(copies, query)->0;
        let key = choose|key: K|
            entries.contains_key(key) && #[trigger] cloned::<K>(key, copy) && cloned::<V>(
                entries[key],
                copies[copy],
            );
        assert(hashing::same_key(key, copy));
        assert(hashing::same_key(copy, key));
        assert(hashing::same_key(query, key));
        lemma_key_found(entries, query, key);
    }
}

/// If clones of keys and of values are what they were cloned from, the entries of
/// a clone are those of the map.
pub proof fn law_exact_clones_give_the_same_entries<K: Eq + Clone, V: Clone>(
    entries: Map<K, V>,
    copies: Map<K, V>,
)
    requires
        forall|key: K, copy: K| #[trigger] cloned::<K>(key, copy) ==> key == copy,
        forall|value: V, copy: V| #[trigger] cloned::<V>(value, copy) ==> value == copy,
        table::all_cloned(entries, copies),
    ensures
        copies == entries,
{
    assert forall|key: K| entries.contains_key(key) == copies.contains_key(key) && (
    entries.contains_key(key) ==> entries[key] == copies[key]) by {
        if entries.contains_key(key) {
            let copy = choose|copy: K|
                copies.contains_key(copy) && #[trigger] cloned::<K>(key, copy) && cloned::<V>(
                    entries[key],
                    copies[copy],
                );
            assert(key == copy);
        }
        if copies.contains_key(key) {
            let source = choose|source: K|
                entries.contains_key(source) && #[trigger] cloned::<K>(source, key)
                    && cloned::<V>(entries[source], copies[key]);
            assert(source == key);
        }
    }
    assert(copies =~= entries);
}

/// A map equals itself if its values equal themselves.
pub proof fn law_equality_is_reflexive<K: Eq, V: PartialEq>(entries: Map<K, V>)
    requires
        hashing::lawful_keys::<K>(),
        table::distinct(entries),
        forall|value: V| #[trigger] value.eq_spec(&value),
    ensures
        bulk::matches_entries(entries, entries),
{
    assert forall|key: K| #[trigger] entries.contains_key(key) implies bulk::matched(
        entries,
        entries,
        key,
    ) by {
        assert(hashing::same_key(key, key));
        lemma_key_found(entries, key, key);
    }
}

/// If a map equals another, the other equals it.
pub proof fn law_equality_is_symmetric<K: Eq, V: PartialEq>(left: Map<K, V>, right: Map<K, V>)
    requires
        hashing::lawful_keys::<K>(),
        table::distinct(left),
        table::distinct(right),
        left.dom().finite(),
        right.dom().finite(),
        forall|one: V, two: V| #[trigger] one.eq_spec(&two) ==> two.eq_spec(&one),
        bulk::matches_entries(left, right),
    ensures
        bulk::matches_entries(right, left),
{
    let partner = |key: K| table::stored(right, key)->0;
    let image = left.dom().map(partner);
    assert forall|key: K| #[trigger] left.contains_key(key) implies right.contains_key(
        partner(key),
    ) && hashing::same_key(key, partner(key)) by {
        assert(bulk::matched(left, right, key));
        lemma_found(right, key);
    }
    assert forall|one: K, two: K|
        left.dom().contains(one) && left.dom().contains(two) && #[trigger] partner(one)
            == #[trigger] partner(two) implies one == two by {
        assert(left.contains_key(one) && left.contains_key(two));
        assert(hashing::same_key(two, partner(two)));
        assert(hashing::same_key(partner(two), two));
        assert(hashing::same_key(one, partner(one)));
        assert(hashing::same_key(one, two));
    }
    vstd::set_lib::lemma_map_size(left.dom(), image, partner);
    assert(image.subset_of(right.dom())) by {
        assert forall|found: K| image.contains(found) implies right.dom().contains(found) by {
            let key = choose|key: K| left.dom().contains(key) && partner(key) == found;
            assert(left.contains_key(key));
        }
    }
    vstd::set_lib::lemma_subset_equality(image, right.dom());
    assert forall|key: K| #[trigger] right.contains_key(key) implies bulk::matched(
        right,
        left,
        key,
    ) by {
        assert(image.contains(key));
        let origin = choose|origin: K| left.dom().contains(origin) && partner(origin) == key;
        assert(left.contains_key(origin));
        assert(bulk::matched(left, right, origin));
        assert(hashing::same_key(origin, key));
        assert(hashing::same_key(key, origin));
        lemma_key_found(left, key, origin);
        assert(left[origin].eq_spec(&right[key]));
    }
}

/// Collecting pairs finds, under each key, the value of the last pair with an
/// equal key.
pub proof fn law_last_pair_wins<K: Eq, V>(entries: Map<K, V>, pairs: Seq<(K, V)>, last: int)
    requires
        hashing::lawful_keys::<K>(),
        table::distinct(entries),
        0 <= last < pairs.len(),
        forall|i: int|
            last < i < pairs.len() ==> !hashing::same_key(
                pairs[last].0,
                (#[trigger] pairs[i]).0,
            ),
    ensures
        table::looked_up(bulk::put_all(entries, pairs), pairs[last].0) == Some(pairs[last].1),
    decreases pairs.len(),
{
    let shorter = pairs.drop_last();
    let before = bulk::put_all(entries, shorter);
    lemma_put_all_distinct(entries, shorter);
    if last == pairs.len() - 1 {
        assert(hashing::same_key(pairs[last].0, pairs[last].0));
        law_get_after_insert(before, pairs.last().0, pairs.last().1, pairs[last].0);
    } else {
        assert forall|i: int| last < i < shorter.len() implies !hashing::same_key(
            shorter[last].0,
            (#[trigger] shorter[i]).0,
        ) by {
            assert(shorter[i] == pairs[i]);
        }
        law_last_pair_wins(entries, shorter, last);
        assert(pairs[pairs.len() - 1] == pairs.last());
        law_insert_leaves_other_keys(before, pairs.last().0, pairs.last().1, pairs[last].0);
    }
}

/// Inserting pairs keeps stored keys pairwise unequal.
proof fn lemma_put_all_distinct<K: Eq, V>(entries: Map<K, V>, pairs: Seq<(K, V)>)
    requires
        hashing::lawful_keys::<K>(),
        table::distinct(entries),
    ensures
        table::distinct(bulk::put_all(entries, pairs)),
    decreases pairs.len(),
{
    if pairs.len() > 0 {
        lemma_put_all_distinct(entries, pairs.drop_last());
        law_insert_keeps_keys_distinct(
            bulk::put_all(entries, pairs.drop_last()),
            pairs.last().0,
            pairs.last().1,
        );
    }
}

/// Equal keys look up alike.
pub proof fn law_equal_keys_look_up_alike<K: Eq, V>(entries: Map<K, V>, left: K, right: K)
    requires
        hashing::lawful_keys::<K>(),
        table::distinct(entries),
        hashing::same_key(left, right),
    ensures
        table::looked_up(entries, left) == table::looked_up(entries, right),
{
    lemma_found(entries, left);
    lemma_found(entries, right);
    assert(hashing::same_key(right, left));
    if table::stored(entries, left) is Some {
        lemma_key_found(entries, right, table::stored(entries, left)->0);
    } else if table::stored(entries, right) is Some {
        lemma_key_found(entries, left, table::stored(entries, right)->0);
    }
}

/// A lookup of a key that equals none of the pairs' keys does not notice that they
/// were inserted.
pub proof fn law_pairs_leave_other_keys<K: Eq, V>(
    entries: Map<K, V>,
    pairs: Seq<(K, V)>,
    query: K,
)
    requires
        hashing::lawful_keys::<K>(),
        table::distinct(entries),
        forall|i: int|
            0 <= i < pairs.len() ==> !hashing::same_key(query, (#[trigger] pairs[i]).0),
    ensures
        table::looked_up(bulk::put_all(entries, pairs), query) == table::looked_up(entries, query),
    decreases pairs.len(),
{
    if pairs.len() > 0 {
        let shorter = pairs.drop_last();
        assert forall|i: int| 0 <= i < shorter.len() implies !hashing::same_key(
            query,
            (#[trigger] shorter[i]).0,
        ) by {
            assert(shorter[i] == pairs[i]);
        }
        law_pairs_leave_other_keys(entries, shorter, query);
        lemma_put_all_distinct(entries, shorter);
        assert(pairs[pairs.len() - 1] == pairs.last());
        law_insert_leaves_other_keys(
            bulk::put_all(entries, shorter),
            pairs.last().0,
            pairs.last().1,
            query,
        );
    }
}

/// Whether pairs are clones of the entries of a map, those of given keys in order.
pub open spec fn clones_of<K: Clone, V: Clone>(
    pairs: Seq<(K, V)>,
    entries: Map<K, V>,
    keys: Seq<K>,
) -> bool {
    &&& keys.len() == pairs.len()
    &&& keys.no_duplicates()
    &&& forall|i: int|
        #![trigger pairs[i]]
        #![trigger keys[i]]
        0 <= i < keys.len() ==> entries.contains_key(keys[i]) && cloned::<K>(keys[i], pairs[i].0)
            && cloned::<V>(entries[keys[i]], pairs[i].1)
    &&& forall|key: K| #[trigger]
        entries.contains_key(key) ==> exists|i: int|
            0 <= i < keys.len() && #[trigger] keys[i] == key
}

/// Inserting clones of the entries of a map makes lookups find clones of what they
/// find there, and leaves what they do not find there.
pub proof fn law_update_prefers_the_other<K: Eq + Clone, V: Clone>(
    entries: Map<K, V>,
    other: Map<K, V>,
    pairs: Seq<(K, V)>,
    keys: Seq<K>,
    query: K,
)
    requires
        hashing::lawful_keys::<K>(),
        table::clones_are_equal::<K>(),
        table::distinct(entries),
        table::distinct(other),
        clones_of(pairs, other, keys),
    ensures
        match table::looked_up(other, query) {
            Some(value) => table::looked_up(bulk::put_all(entries, pairs), query) matches Some(copy)
                && cloned::<V>(value, copy),
            None => table::looked_up(bulk::put_all(entries, pairs), query) == table::looked_up(
                entries,
                query,
            ),
        },
{
    lemma_found(other, query);
    match table::stored(other, query) {
        Some(held) => {
            let place = choose|i: int| 0 <= i < keys.len() && #[trigger] keys[i] == held;
            assert(hashing::same_key(held, pairs[place].0));
            assert(hashing::same_key(query, pairs[place].0));
            assert forall|i: int| place < i < pairs.len() implies !hashing::same_key(
                pairs[place].0,
                (#[trigger] pairs[i]).0,
            ) by {
                let later = keys[i];
                assert(hashing::same_key(later, pairs[i].0));
                assert(hashing::same_key(pairs[i].0, later));
                if hashing::same_key(pairs[place].0, pairs[i].0) {
                    assert(hashing::same_key(held, pairs[i].0));
                    assert(hashing::same_key(held, later));
                    assert(held == later);
                }
            }
            law_last_pair_wins(entries, pairs, place);
            lemma_put_all_distinct(entries, pairs);
            law_equal_keys_look_up_alike(bulk::put_all(entries, pairs), query, pairs[place].0);
        },
        None => {
            assert forall|i: int| 0 <= i < pairs.len() implies !hashing::same_key(
                query,
                (#[trigger] pairs[i]).0,
            ) by {
                if hashing::same_key(query, pairs[i].0) {
                    assert(hashing::same_key(keys[i], pairs[i].0));
                    assert(hashing::same_key(pairs[i].0, keys[i]));
                    assert(hashing::same_key(query, keys[i]));
                    lemma_key_found(other, query, keys[i]);
                }
            }
            law_pairs_leave_other_keys(entries, pairs, query);
        },
    }
}

/// Inserting under a key that equals a stored one keeps the stored key and replaces its
/// value; under any other key it adds that key. No other entry changes.
pub proof fn law_insert_keeps_the_stored_key<K: Eq, V>(
    entries: Map<K, V>,
    key: K,
    value: V,
    present: K,
)
    requires
        hashing::lawful_keys::<K>(),
        table::distinct(entries),
    ensures
        entries.contains_key(present) && hashing::same_key(key, present) ==> table::put(
            entries,
            key,
            value,
        ) == entries.insert(present, value),
        (forall|held: K| #[trigger]
            entries.contains_key(held) ==> !hashing::same_key(key, held)) ==> table::put(
            entries,
            key,
            value,
        ) == entries.insert(key, value),
{
    lemma_found(entries, key);
    if entries.contains_key(present) && hashing::same_key(key, present) {
        lemma_key_found(entries, key, present);
    }
}

} // verus!
