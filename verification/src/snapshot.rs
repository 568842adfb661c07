//! Iteration over a copy of a collection that notices changes of the collection.

use std::collections::VecDeque;

use vstd::prelude::*;

verus! {

/// The error of asking for an item of a collection that has changed.
#[derive(Clone, Copy, Debug, PartialEq, Eq, Structural)]
pub struct ChangedDuringIteration;

impl ChangedDuringIteration {
    /// A human-readable description of the error.
    #[must_use]
    pub fn message(self) -> (result: &'static str)
        ensures
            result@ == "dictionary changed size during iteration"@,
    {
        "dictionary changed size during iteration"
    }
}

/// Items copied from a collection, handed out in order while the collection stays
/// in the generation in which they were copied.
pub struct Snapshot<T> {
    items: VecDeque<T>,
    expected: u64,
}

impl<T> Snapshot<T> {
    /// The items still to come.
    pub closed spec fn rest(&self) -> Seq<T> {
        self.items@
    }

    /// The generation of the collection in which the items were copied.
    pub closed spec fn expected(&self) -> u64 {
        self.expected
    }

    /// A snapshot of items copied in a generation.
    pub fn new(items: Vec<T>, generation: u64) -> (result: Self)
        ensures
            result.rest() == items@,
            result.expected() == generation,
    {
        let ghost all = items@;
        let mut queue: VecDeque<T> = VecDeque::with_capacity(items.len());
        for item in iter: items.into_iter()
            invariant
                iter.seq() == all,
                queue@ == all.take(iter.index() as int),
        {
            proof {
                let i = iter.index() as int;
                assert(all.take(i + 1) =~= all.take(i).push(all[i]));
            }
            queue.push_back(item);
        }
        proof {
            assert(all.take(all.len() as int) =~= all);
        }
        Snapshot { items: queue, expected: generation }
    }

    /// Hands out the next item, `None` after the last one, or an error if the
    /// collection is no longer in the generation of the snapshot.
    pub fn next(&mut self, generation: u64) -> (result: Result<Option<T>, ChangedDuringIteration>)
        ensures
            final(self).expected() == old(self).expected(),
            if generation != old(self).expected() {
                &&& result == Err::<Option<T>, _>(ChangedDuringIteration)
                &&& final(self).rest() == old(self).rest()
            } else if old(self).rest().len() == 0 {
                &&& result == Ok::<Option<T>, ChangedDuringIteration>(None)
                &&& final(self).rest() == old(self).rest()
            } else {
                &&& result == Ok::<_, ChangedDuringIteration>(Some(old(self).rest()[0]))
                &&& final(self).rest() == old(self).rest().drop_first()
            },
    {
        if generation != self.expected {
            return Err(ChangedDuringIteration);
        }
        let item: Option<T> = self.items.pop_front();
        Ok(item)
    }

    /// Number of items still to come.
    pub fn len(&self) -> (result: usize)
        ensures
            result == self.rest().len(),
    {
        self.items.len()
    }
}

} // verus!
