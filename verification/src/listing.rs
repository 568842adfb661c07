//! Sequences that list the entries of a map, each once.

use vstd::prelude::*;

use crate::hashing::{self, Equivalent};
use crate::slots::{SlotEntry, Slots};
use crate::table;

verus! {

/// Whether a sequence of entries holds each entry of a map once, and no other.
pub open spec fn lists<K, V>(listed: Seq<SlotEntry<K, V>>, entries: Map<K, V>) -> bool {
    &&& forall|i: int|
        0 <= i < listed.len() ==> entries.contains_key((#[trigger] listed[i]).key)
            && entries[listed[i].key] == listed[i].value
    &&& forall|key: K| #[trigger] entries.contains_key(key) ==> listed_at(listed, key)
    &&& forall|i: int, j: int|
        0 <= i < j < listed.len() ==> (#[trigger] listed[i]).key != (#[trigger] listed[j]).key
}

/// Whether a key is listed.
pub open spec fn listed_at<K, V>(listed: Seq<SlotEntry<K, V>>, key: K) -> bool {
    exists|i: int| 0 <= i < listed.len() && (#[trigger] listed[i]).key == key
}

/// A list is as long as its map.
pub proof fn lemma_lists_len<K, V>(listed: Seq<SlotEntry<K, V>>, entries: Map<K, V>)
    requires
        lists(listed, entries),
    ensures
        entries.dom().finite(),
        entries.len() == listed.len(),
    decreases listed.len(),
{
    if listed.len() == 0 {
        assert forall|key: K| !entries.dom().contains(key) by {
            if entries.contains_key(key) {
                assert(listed_at(listed, key));
            }
        }
        assert(entries.dom() =~= Set::empty());
    } else {
        let last = listed.last();
        let fewer = entries.remove(last.key);
        let shorter = listed.drop_last();
        assert(listed[listed.len() - 1] == last);
        assert forall|i: int| 0 <= i < shorter.len() implies fewer.contains_key(
            (#[trigger] shorter[i]).key,
        ) && fewer[shorter[i].key] == shorter[i].value by {
            assert(shorter[i] == listed[i]);
        }
        assert forall|key: K| #[trigger] fewer.contains_key(key) implies listed_at(
            shorter,
            key,
        ) by {
            assert(listed_at(listed, key));
            let i = choose|i: int| 0 <= i < listed.len() && (#[trigger] listed[i]).key == key;
            assert(shorter[i] == listed[i]);
        }
        assert forall|i: int, j: int| 0 <= i < j < shorter.len() implies (
        #[trigger] shorter[i]).key != (#[trigger] shorter[j]).key by {
            assert(shorter[i] == listed[i] && shorter[j] == listed[j]);
        }
        lemma_lists_len(shorter, fewer);
        assert(entries.dom() =~= fewer.dom().insert(last.key));
    }
}

/// A sequence lists at most one map.
pub proof fn lemma_lists_unique<K, V>(
    listed: Seq<SlotEntry<K, V>>,
    left: Map<K, V>,
    right: Map<K, V>,
)
    requires
        lists(listed, left),
        lists(listed, right),
    ensures
        left == right,
{
    assert forall|key: K| left.contains_key(key) <==> right.contains_key(key) by {
        if left.contains_key(key) {
            assert(listed_at(listed, key));
            let i = choose|i: int| 0 <= i < listed.len() && (#[trigger] listed[i]).key == key;
            assert(right.contains_key(listed[i].key));
        }
        if right.contains_key(key) {
            assert(listed_at(listed, key));
            let i = choose|i: int| 0 <= i < listed.len() && (#[trigger] listed[i]).key == key;
            assert(left.contains_key(listed[i].key));
        }
    }
    assert forall|key: K| left.contains_key(key) implies left[key] == right[key] by {
        assert(listed_at(listed, key));
        let i = choose|i: int| 0 <= i < listed.len() && (#[trigger] listed[i]).key == key;
        assert(left[listed[i].key] == right[listed[i].key]);
    }
    assert(left =~= right);
}

/// Listing one more entry of an absent key lists the map with that entry.
pub proof fn lemma_lists_push<K, V>(
    listed: Seq<SlotEntry<K, V>>,
    entries: Map<K, V>,
    entry: SlotEntry<K, V>,
)
    requires
        lists(listed, entries),
        !entries.contains_key(entry.key),
    ensures
        lists(listed.push(entry), entries.insert(entry.key, entry.value)),
{
    let longer = listed.push(entry);
    let more = entries.insert(entry.key, entry.value);
    assert forall|i: int| 0 <= i < longer.len() implies more.contains_key(
        (#[trigger] longer[i]).key,
    ) && more[longer[i].key] == longer[i].value by {
        if i < listed.len() {
            assert(longer[i] == listed[i]);
        }
    }
    assert forall|key: K| #[trigger] more.contains_key(key) implies listed_at(longer, key) by {
        if key == entry.key {
            assert(longer[listed.len() as int].key == key);
        } else {
            assert(listed_at(listed, key));
            let i = choose|i: int| 0 <= i < listed.len() && (#[trigger] listed[i]).key == key;
            assert(longer[i] == listed[i]);
        }
    }
    assert forall|i: int, j: int| 0 <= i < j < longer.len() implies (#[trigger] longer[i]).key != (
    #[trigger] longer[j]).key by {
        assert(longer[i] == listed[i]);
        if j < listed.len() {
            assert(longer[j] == listed[j]);
        }
    }
}

/// The slots from `from` on that hold a value, in order.
pub open spec fn live_slots<T>(values: Seq<Option<T>>, from: nat) -> Seq<nat>
    decreases values.len() - from,
{
    if from >= values.len() {
        Seq::empty()
    } else if values[from as int] is Some {
        seq![from] + live_slots(values, from + 1)
    } else {
        live_slots(values, from + 1)
    }
}

/// The live slots are in ascending order, hold the live values in that order,
/// and leave none out.
pub proof fn lemma_live_slots<T>(region: Slots<T>, from: nat)
    requires
        from <= region.values().len(),
    ensures
        ({
            let slots = live_slots(region.values(), from);
            let live = region.live_from(from);
            &&& live.len() == slots.len()
            &&& forall|i: int|
                0 <= i < slots.len() ==> from <= #[trigger] slots[i] < region.values().len()
                    && region.values()[slots[i] as int] == Some(live[i])
            &&& forall|i: int, j: int|
                0 <= i < j < slots.len() ==> #[trigger] slots[i] < #[trigger] slots[j]
            &&& forall|slot: nat|
                from <= slot < region.values().len() && (
                #[trigger] region.values()[slot as int]) is Some ==> slots.contains(slot)
        }),
    decreases region.values().len() - from,
{
    if from < region.values().len() {
        lemma_live_slots(region, from + 1);
        let slots = live_slots(region.values(), from);
        let live = region.live_from(from);
        let rest = live_slots(region.values(), from + 1);
        let rest_live = region.live_from(from + 1);
        if region.values()[from as int] is Some {
            assert(slots =~= seq![from] + rest);
            assert forall|i: int| 0 <= i < slots.len() implies from <= #[trigger] slots[i]
                < region.values().len() && region.values()[slots[i] as int] == Some(live[i]) by {
                if i > 0 {
                    assert(slots[i] == rest[i - 1]);
                    assert(live[i] == rest_live[i - 1]);
                }
            }
            assert forall|i: int, j: int| 0 <= i < j < slots.len() implies #[trigger] slots[i]
                < #[trigger] slots[j] by {
                assert(slots[j] == rest[j - 1]);
                if i > 0 {
                    assert(slots[i] == rest[i - 1]);
                }
            }
            assert forall|slot: nat|
                from <= slot < region.values().len() && (
                #[trigger] region.values()[slot as int]) is Some implies slots.contains(slot) by {
                if slot == from {
                    assert(slots[0] == slot);
                } else {
                    assert(rest.contains(slot));
                    let i = choose|i: int| 0 <= i < rest.len() && rest[i] == slot;
                    assert(slots[i + 1] == slot);
                }
            }
        }
    }
}

/// The next listed key is not among the keys listed before it.
pub proof fn lemma_next_is_absent<K: Eq, V>(
    listed: Seq<SlotEntry<K, V>>,
    i: int,
    entries: Map<K, V>,
    placed: Map<K, V>,
)
    requires
        0 <= i < listed.len(),
        hashing::lawful_keys::<K>(),
        table::distinct(entries),
        lists(listed, entries),
        lists(listed.take(i), placed),
    ensures
        table::stored(placed, listed[i].key) is None,
{
    let next = listed[i].key;
    assert forall|key: K| placed.contains_key(key) implies !#[trigger] next.stands_for(key) by {
        assert(listed_at(listed.take(i), key));
        let j = choose|j: int| 0 <= j < listed.take(i).len() && (#[trigger] listed.take(i)[j]).key
            == key;
        assert(listed[j].key == key);
        if next.stands_for(key) {
            assert(hashing::same_key(next, key));
        }
    }
}

} // verus!
