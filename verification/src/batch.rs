//! Which levels an Elastic insertion targets, by the live count.

use vstd::prelude::*;

use crate::config::INITIAL_CAPACITY;
use crate::table;

verus! {

/// The structural work required before an insertion.
#[derive(Clone, Copy, Debug, PartialEq, Eq, Structural)]
pub enum InsertAction {
    /// Resize to the given slot count.
    Resize(usize),
    /// Continue without structural work.
    Continue,
}

/// Where an insertion is placed.
#[derive(Clone, Copy, Debug, PartialEq, Eq, Structural)]
pub enum BatchTarget {
    /// The first level.
    Bootstrap,
    /// A level and the next one.
    LevelPair(usize),
}

/// The cumulative quotas through each batch, stopping at the largest `usize`.
pub open spec fn ends_of(quotas: Seq<usize>) -> Seq<usize>
    decreases quotas.len(),
{
    if quotas.len() == 0 {
        Seq::empty()
    } else {
        let before = ends_of(quotas.drop_last());
        let start = if before.len() == 0 {
            0usize
        } else {
            before.last()
        };
        before.push(table::saturated(start as nat + quotas.last() as nat) as usize)
    }
}

/// Whether batch `index` covers position `len`: the first batch that ends
/// behind it, or the last batch where none does.
pub open spec fn covers(ends: Seq<usize>, len: nat, index: nat) -> bool {
    &&& index < ends.len()
    &&& len < ends[index as int] || index == ends.len() - 1
    &&& forall|earlier: int| 0 <= earlier < index ==> #[trigger] ends[earlier] <= len
}

/// The target of an insertion into a table of `len` live entries.
pub open spec fn is_target(ends: Seq<usize>, len: nat, target: BatchTarget) -> bool {
    if ends.len() == 0 {
        target == BatchTarget::Bootstrap
    } else {
        match target {
            BatchTarget::Bootstrap => covers(ends, len, 0),
            BatchTarget::LevelPair(current) => covers(ends, len, current as nat + 1),
        }
    }
}

/// The target is a function of the live count alone.
pub proof fn law_target_is_unique(
    ends: Seq<usize>,
    len: nat,
    left: BatchTarget,
    right: BatchTarget,
)
    requires
        is_target(ends, len, left),
        is_target(ends, len, right),
    ensures
        left == right,
{
    if ends.len() > 0 {
        let first = batch_index(left);
        let second = batch_index(right);
        assert(covers(ends, len, first) && covers(ends, len, second));
        if first < second {
            assert(ends[first as int] <= len);
        } else if second < first {
            assert(ends[second as int] <= len);
        }
    }
}

/// The batch of a target.
pub open spec fn batch_index(target: BatchTarget) -> nat {
    match target {
        BatchTarget::Bootstrap => 0,
        BatchTarget::LevelPair(current) => current as nat + 1,
    }
}

/// One end per batch.
pub proof fn lemma_ends_count(quotas: Seq<usize>)
    ensures
        ends_of(quotas).len() == quotas.len(),
{
    lemma_ends_ascend(quotas);
}

/// Cumulative quotas ascend.
proof fn lemma_ends_ascend(quotas: Seq<usize>)
    ensures
        ends_of(quotas).len() == quotas.len(),
        forall|i: int, j: int|
            0 <= i <= j < quotas.len() ==> #[trigger] ends_of(quotas)[i] <= #[trigger] ends_of(
                quotas,
            )[j],
    decreases quotas.len(),
{
    if quotas.len() > 0 {
        lemma_ends_ascend(quotas.drop_last());
        let before = ends_of(quotas.drop_last());
        let all = ends_of(quotas);
        assert forall|i: int, j: int| 0 <= i <= j < quotas.len() implies #[trigger] all[i]
            <= #[trigger] all[j] by {
            if j == quotas.len() - 1 && i < j {
                assert(before[i] <= before[before.len() - 1]);
            }
        }
    }
}

/// Schedules batches by the live count alone: batch `i` covers positions from
/// the end of batch `i - 1` up to its own end. The active window is cached, so
/// most placements cost two comparisons.
#[derive(Debug)]
pub struct BatchScheduler {
    /// Cumulative quota through each batch: the exclusive bound at which it
    /// ends. Batches without a quota repeat the previous end.
    batch_ends: Vec<usize>,
    current_batch_index: usize,
    /// The end of the previous batch, or zero for the first.
    batch_start: usize,
    /// The end of the current batch, or the largest `usize` for an empty plan.
    batch_end: usize,
}

impl BatchScheduler {
    /// The cumulative quotas.
    pub closed spec fn ends(self) -> Seq<usize> {
        self.batch_ends@
    }

    /// The cached window is that of the current batch.
    pub closed spec fn wf(self) -> bool {
        let ends = self.batch_ends@;
        &&& forall|i: int, j: int|
            0 <= i <= j < ends.len() ==> #[trigger] ends[i] <= #[trigger] ends[j]
        &&& if ends.len() == 0 {
            self.current_batch_index == 0 && self.batch_start == 0 && self.batch_end == usize::MAX
        } else {
            &&& self.current_batch_index < ends.len()
            &&& self.batch_end == ends[self.current_batch_index as int]
            &&& self.batch_start == if self.current_batch_index == 0 {
                0usize
            } else {
                ends[self.current_batch_index - 1]
            }
        }
    }

    /// The batch of the cached window.
    pub closed spec fn batch(self) -> nat {
        self.current_batch_index as nat
    }

    /// Whether the cached window is that of a table of `len` live entries.
    pub open spec fn is_at(self, len: nat) -> bool {
        if self.ends().len() == 0 {
            self.batch() == 0
        } else {
            covers(self.ends(), len, self.batch())
        }
    }

    /// A scheduler at the start of a plan.
    pub fn new(batch_plan: &[usize]) -> (result: Self)
        ensures
            result.wf(),
            result.ends() == ends_of(batch_plan@),
            result.is_at(0),
    {
        let mut batch_ends: Vec<usize> = Vec::new();
        let mut total: usize = 0;
        let mut index: usize = 0;
        while index < batch_plan.len()
            invariant
                index <= batch_plan@.len(),
                batch_ends@ == ends_of(batch_plan@.take(index as int)),
                total == if batch_ends@.len() == 0 {
                    0usize
                } else {
                    batch_ends@.last()
                },
            decreases batch_plan@.len() - index,
        {
            proof {
                assert(batch_plan@.take(index + 1).drop_last() =~= batch_plan@.take(index as int));
            }
            total = total.saturating_add(batch_plan[index]);
            batch_ends.push(total);
            index = index + 1;
        }
        proof {
            assert(batch_plan@.take(batch_plan@.len() as int) =~= batch_plan@);
            lemma_ends_ascend(batch_plan@);
        }
        let mut scheduler: Self = BatchScheduler {
            batch_ends,
            current_batch_index: 0,
            batch_start: 0,
            batch_end: usize::MAX,
        };
        if scheduler.batch_ends.len() > 0 {
            scheduler.batch_end = scheduler.batch_ends[0];
        }
        scheduler.reset();
        scheduler
    }

    /// Selects structural work for the next insertion: a full table doubles, and
    /// one without slots gets the initial capacity.
    #[inline]
    pub fn on_insert(current_len: usize, total_slots: usize, max_insertions: usize) -> (result:
        InsertAction)
        ensures
            result == if current_len < max_insertions {
                InsertAction::Continue
            } else if total_slots == 0 {
                InsertAction::Resize(INITIAL_CAPACITY)
            } else {
                InsertAction::Resize(table::saturated(2 * total_slots as nat) as usize)
            },
    {
        if current_len >= max_insertions {
            let new_cap: usize = if total_slots == 0 {
                INITIAL_CAPACITY
            } else {
                match total_slots.checked_mul(2) {
                    Some(doubled) => doubled,
                    None => usize::MAX,
                }
            };
            return InsertAction::Resize(new_cap);
        }
        InsertAction::Continue
    }

    /// The target for a table of `len` live entries. Moves the cached window
    /// where `len` has left it.
    #[inline]
    pub fn target(&mut self, len: usize) -> (result: BatchTarget)
        requires
            old(self).wf(),
        ensures
            final(self).wf(),
            final(self).ends() == old(self).ends(),
            is_target(old(self).ends(), len as nat, result),
            final(self).is_at(len as nat),
    {
        if len >= self.batch_end || len < self.batch_start {
            self.sync(len);
        }
        if self.current_batch_index == 0 {
            BatchTarget::Bootstrap
        } else {
            BatchTarget::LevelPair(self.current_batch_index - 1)
        }
    }

    /// Moves the cached window to the batch that covers `len`.
    fn sync(&mut self, len: usize)
        requires
            old(self).wf(),
        ensures
            final(self).wf(),
            final(self).ends() == old(self).ends(),
            final(self).is_at(len as nat),
    {
        if self.batch_ends.len() == 0 {
            return;
        }
        let mut index: usize = 0;
        while index < self.batch_ends.len() - 1 && self.batch_ends[index] <= len
            invariant
                self.batch_ends@ == old(self).batch_ends@,
                index <= self.batch_ends@.len() - 1,
                self.batch_ends@.len() > 0,
                forall|earlier: int|
                    0 <= earlier < index ==> #[trigger] self.batch_ends@[earlier] <= len,
            decreases self.batch_ends@.len() - index,
        {
            index = index + 1;
        }
        self.current_batch_index = index;
        self.batch_start = if index == 0 {
            0
        } else {
            self.batch_ends[index - 1]
        };
        self.batch_end = self.batch_ends[index];
    }

    /// Moves back to the first batch after a resize or a clear.
    #[inline]
    pub fn reset(&mut self)
        requires
            old(self).wf(),
        ensures
            final(self).wf(),
            final(self).ends() == old(self).ends(),
            final(self).is_at(0),
    {
        self.sync(0);
    }

    /// A copy of this scheduler.
    pub fn copy(&self) -> (result: Self)
        requires
            self.wf(),
        ensures
            result.wf(),
            result.ends() == self.ends(),
            result.batch() == self.batch(),
    {
        let mut batch_ends: Vec<usize> = Vec::new();
        let mut index: usize = 0;
        while index < self.batch_ends.len()
            invariant
                index <= self.batch_ends@.len(),
                batch_ends@ == self.batch_ends@.take(index as int),
            decreases self.batch_ends@.len() - index,
        {
            proof {
                assert(self.batch_ends@.take(index + 1) =~= self.batch_ends@.take(
                    index as int,
                ).push(self.batch_ends@[index as int]));
            }
            batch_ends.push(self.batch_ends[index]);
            index = index + 1;
        }
        assert(self.batch_ends@.take(self.batch_ends@.len() as int) =~= self.batch_ends@);
        BatchScheduler {
            batch_ends,
            current_batch_index: self.current_batch_index,
            batch_start: self.batch_start,
            batch_end: self.batch_end,
        }
    }
}

/// Every live count has a target, if a machine word can hold its batch.
pub proof fn lemma_target_exists(ends: Seq<usize>, len: nat)
    requires
        ends.len() <= usize::MAX,
    ensures
        exists|target: BatchTarget| #[trigger] is_target(ends, len, target),
{
    if ends.len() == 0 {
        assert(is_target(ends, len, BatchTarget::Bootstrap));
    } else {
        let index = lemma_covered(ends, len, 0);
        if index == 0 {
            assert(is_target(ends, len, BatchTarget::Bootstrap));
        } else {
            assert(is_target(ends, len, BatchTarget::LevelPair((index - 1) as usize)));
        }
    }
}

/// Some batch covers a position.
proof fn lemma_covered(ends: Seq<usize>, len: nat, from: nat) -> (index: nat)
    requires
        from < ends.len(),
        forall|earlier: int| 0 <= earlier < from ==> #[trigger] ends[earlier] <= len,
    ensures
        covers(ends, len, index),
    decreases ends.len() - from,
{
    if len < ends[from as int] || from == ends.len() - 1 {
        from
    } else {
        lemma_covered(ends, len, from + 1)
    }
}

/// Without saturation, a batch ends where the quotas up to it sum to.
pub proof fn lemma_ends_are_sums(quotas: Seq<usize>, numbers: Seq<nat>, i: int)
    requires
        quotas.len() == numbers.len(),
        forall|j: int| 0 <= j < quotas.len() ==> #[trigger] quotas[j] as nat == numbers[j],
        crate::partition::sum(numbers) <= usize::MAX,
        0 <= i < quotas.len(),
    ensures
        ends_of(quotas).len() == quotas.len(),
        ends_of(quotas)[i] as nat == crate::partition::sum(numbers.take(i + 1)),
    decreases quotas.len(),
{
    lemma_ends_count(quotas);
    let fewer = quotas.drop_last();
    let less = numbers.drop_last();
    crate::partition::lemma_sum_push(less, numbers.last());
    assert(numbers =~= less.push(numbers.last()));
    lemma_ends_count(fewer);
    if i < quotas.len() - 1 {
        lemma_ends_are_sums(fewer, less, i);
        assert(less.take(i + 1) =~= numbers.take(i + 1));
    } else {
        assert(numbers.take(i + 1) =~= numbers);
        if fewer.len() > 0 {
            lemma_ends_are_sums(fewer, less, fewer.len() - 1);
            assert(less.take(fewer.len() as int) =~= less);
        } else {
            assert(less =~= Seq::<nat>::empty());
        }
        assert(quotas[quotas.len() - 1] as nat == numbers[quotas.len() - 1]);
    }
}

} // verus!
