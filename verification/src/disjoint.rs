//! Several values of a region borrowed for change at once.

use vstd::prelude::*;

use crate::slots::SlotEntry;

verus! {

/// Whether no slot is wanted twice.
pub open spec fn all_distinct(wants: Seq<Option<usize>>) -> bool {
    forall|i: int, j: int|
        0 <= i < j < wants.len() && (#[trigger] wants[i]) is Some && (#[trigger] wants[j]) is Some
            ==> wants[i] != wants[j]
}

/// Whether every slot wanted at or behind `base` is one of a run of slots that
/// starts there, and live.
pub open spec fn all_live<K, V>(
    run: Seq<Option<SlotEntry<K, V>>>,
    base: nat,
    wants: Seq<Option<usize>>,
) -> bool {
    forall|i: int|
        0 <= i < wants.len() ==> ((#[trigger] wants[i]) matches Some(slot) ==> (slot >= base
            ==> slot < base + run.len() && run[slot - base] is Some))
}

/// Whether a slot is wanted.
pub open spec fn wanted(wants: Seq<Option<usize>>, slot: nat) -> bool {
    exists|i: int|
        0 <= i < wants.len() && (#[trigger] wants[i]) is Some && wants[i]->0 == slot
}

/// The first wanted slot at or behind `base`, with its place in the list.
fn first_wanted(wants: &[Option<usize>], base: usize) -> (result: Option<(usize, usize)>)
    ensures
        match result {
            Some((index, slot)) => {
                &&& index < wants@.len()
                &&& wants@[index as int] == Some(slot)
                &&& slot >= base
                &&& forall|i: int|
                    0 <= i < wants@.len() ==> ((#[trigger] wants@[i]) matches Some(other) ==> (other
                        >= base ==> other >= slot))
            },
            None => forall|i: int|
                0 <= i < wants@.len() ==> ((#[trigger] wants@[i]) matches Some(other) ==> other
                    < base),
        },
{
    let mut found: Option<(usize, usize)> = None;
    for i in 0..wants.len()
        invariant
            match found {
                Some((index, slot)) => {
                    &&& index < wants@.len()
                    &&& wants@[index as int] == Some(slot)
                    &&& slot >= base
                    &&& forall|j: int|
                        0 <= j < i ==> ((#[trigger] wants@[j]) matches Some(other) ==> (other >= base
                            ==> other >= slot))
                },
                None => forall|j: int|
                    0 <= j < i ==> ((#[trigger] wants@[j]) matches Some(other) ==> other < base),
            },
    {
        if let Some(slot) = wants[i] {
            if slot >= base {
                let better: bool = match found {
                    Some((_, least)) => slot < least,
                    None => true,
                };
                if better {
                    found = Some((i, slot));
                }
            }
        }
    }
    found
}

/// A list of as many `None`s.
pub fn no_pairs<'a, K, V>(count: usize) -> (result: Vec<Option<(&'a K, &'a mut V)>>)
    ensures
        result@.len() == count,
        forall|i: int| 0 <= i < count ==> (#[trigger] result@[i]) is None,
{
    let mut none: Vec<Option<(&'a K, &'a mut V)>> = Vec::new();
    for i in 0..count
        invariant
            none@.len() == i,
            forall|j: int| 0 <= j < i ==> (#[trigger] none@[j]) is None,
    {
        none.push(None);
    }
    none
}

/// Borrows the wanted slots of a run that starts at slot `base`: the key and, for
/// change in place, the value of each.
pub fn pairs_mut<'a, K, V>(
    run: &'a mut [Option<SlotEntry<K, V>>],
    base: usize,
    wants: &[Option<usize>],
) -> (result: Vec<Option<(&'a K, &'a mut V)>>)
    requires
        base + old(run)@.len() <= usize::MAX,
        all_distinct(wants@),
        all_live(old(run)@, base as nat, wants@),
    ensures
        result@.len() == wants@.len(),
        final(run)@.len() == old(run)@.len(),
        forall|i: int|
            0 <= i < wants@.len() ==> match #[trigger] wants@[i] {
                Some(slot) => if slot >= base {
                    &&& result@[i] is Some
                    &&& *(result@[i]->0).0 == old(run)@[slot - base]->0.key
                    &&& *(result@[i]->0).1 == old(run)@[slot - base]->0.value
                    &&& final(run)@[slot - base] == Some(
                        SlotEntry {
                            key: old(run)@[slot - base]->0.key,
                            value: *final((result@[i]->0).1),
                        },
                    )
                } else {
                    result@[i] is None
                },
                None => result@[i] is None,
            },
        forall|q: int|
            0 <= q < old(run)@.len() && !wanted(wants@, (base + q) as nat)
                ==> #[trigger] final(run)@[q] == old(run)@[q],
    decreases old(run)@.len(),
{
    match first_wanted(wants, base) {
        None => no_pairs(wants.len()),
        Some((index, slot)) => {
            let (_, from) = run.split_at_mut(slot - base);
            let (one, rest) = from.split_at_mut(1);
            let mut pairs = pairs_mut(rest, slot + 1, wants);
            let entry = one.first_mut().unwrap().as_mut().unwrap();
            pairs.set(index, Some((&entry.key, &mut entry.value)));
            pairs
        },
    }
}

} // verus!
