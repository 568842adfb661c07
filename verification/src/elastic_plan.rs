//! Level lengths and insertion batches of an Elastic table.

use vstd::arithmetic::div_mod::*;
use vstd::arithmetic::power2::*;
use vstd::prelude::*;

use crate::arith::{self, ceil_log2, floor_div_pow2};
use crate::geometry::{ElasticPlan, PaperConfig};
use crate::partition::{self, ceil_three_quarters};

verus! {

/// The lengths of `levels` levels over `slots` slots: each takes half of what is
/// left, rounded up, and the last takes the rest.
pub open spec fn lengths(slots: nat, levels: nat) -> Seq<nat>
    decreases levels,
{
    if levels == 0 {
        Seq::empty()
    } else if levels == 1 {
        seq![slots]
    } else {
        seq![arith::ceil_div(slots, 2)] + lengths(slots / 2, (levels - 1) as nat)
    }
}

/// The uncapped quota of the batch that reaches `level` after `previous`:
/// three quarters of the first level, and later what completes the previous
/// level up to half its reserve plus three quarters of the next.
pub open spec fn raw_quota(previous: Option<nat>, level: nat, exponent: nat) -> int {
    match previous {
        None => partition::three_quarters(level) as int,
        Some(done) => done - done / pow2(exponent + 1) - partition::three_quarters(done)
            + partition::three_quarters(level),
    }
}

/// The quotas of the batches over `levels`, capped in order at `budget`.
pub open spec fn quotas(
    previous: Option<nat>,
    levels: Seq<nat>,
    exponent: nat,
    budget: nat,
) -> Seq<nat>
    decreases levels.len(),
{
    if levels.len() == 0 {
        Seq::empty()
    } else {
        let raw = raw_quota(previous, levels[0], exponent);
        let quota = if raw <= budget {
            raw as nat
        } else {
            budget
        };
        seq![quota] + quotas(
            Some(levels[0]),
            levels.drop_first(),
            exponent,
            (budget - quota) as nat,
        )
    }
}

impl ElasticPlan {
    /// `ceil(log2(n))`.
    pub open spec fn levels(self) -> nat {
        arith::log2_ceiling(self.config.n as nat)
    }

    /// The lengths of all levels.
    pub open spec fn all_lengths(self) -> Seq<nat> {
        lengths(self.config.n as nat, self.levels())
    }

    /// The quotas of all batches.
    pub open spec fn all_quotas(self) -> Seq<nat> {
        quotas(
            None,
            self.all_lengths(),
            self.config.reserve_exponent as nat,
            self.config.target() as nat,
        )
    }

    /// Returns the paper's exact `ceil(log2(n))` number of non-empty levels.
    #[must_use]
    pub fn level_count(&self) -> (result: usize)
        requires
            self.config.wf(),
        ensures
            result as nat == self.levels(),
            1 <= result <= usize::BITS,
    {
        let levels: usize = ceil_log2(self.config.n);
        proof {
            lemma2_to64();
            assert(levels > 0);
        }
        levels
    }

    /// Iterates over logical level lengths in paper order.
    ///
    /// The deterministic construction repeatedly gives the next level
    /// `ceil(remaining / 2)` slots and gives the final level all residual
    /// slots.
    #[must_use]
    pub fn level_lengths(&self) -> (result: LevelLengths)
        requires
            self.config.wf(),
        ensures
            result.remaining() == self.all_lengths(),
    {
        LevelLengths { remaining_slots: self.config.n, remaining_levels: self.level_count() }
    }

    /// Iterates over the exact Elastic batch quotas, capped in order at
    /// [`PaperConfig::target_insertions`].
    ///
    /// `B_0` is `ceil(3|A_1|/4)`. Each later quota is:
    ///
    /// ```text
    /// |A_i| - floor(delta|A_i|/2) - ceil(3|A_i|/4) + ceil(3|A_(i+1)|/4)
    /// ```
    ///
    /// Trailing quotas are zero once the insertion target is reached.
    #[must_use]
    pub fn batch_quotas(&self) -> (result: BatchQuotas)
        requires
            self.config.wf(),
        ensures
            result.wf(),
            result.remaining() == self.all_quotas(),
    {
        BatchQuotas {
            levels: LevelLengths {
                remaining_slots: self.config.n,
                remaining_levels: self.level_count(),
            },
            previous_level: None,
            remaining_insertions: self.config.target_insertions(),
            reserve_exponent: self.config.reserve_exponent,
        }
    }
}

/// Iterator over the level lengths of an Elastic table.
#[derive(Clone, Copy, Debug)]
pub struct LevelLengths {
    remaining_slots: usize,
    remaining_levels: usize,
}

impl LevelLengths {
    /// The lengths still to come.
    pub closed spec fn remaining(self) -> Seq<nat> {
        lengths(self.remaining_slots as nat, self.remaining_levels as nat)
    }

    /// The slots still to be given out.
    pub closed spec fn slots(self) -> nat {
        self.remaining_slots as nat
    }

    /// The next length, or `None` after the last one.
    pub fn next(&mut self) -> (result: Option<usize>)
        ensures
            match result {
                Some(length) => old(self).remaining().len() > 0 && length as nat == old(
                    self,
                ).remaining()[0] && final(self).remaining() == old(self).remaining().drop_first()
                    && final(self).slots() + length == old(self).slots(),
                None => old(self).remaining().len() == 0 && *final(self) == *old(self),
            },
    {
        if self.remaining_levels == 0 {
            return None;
        }
        let length: usize = if self.remaining_levels == 1 {
            self.remaining_slots
        } else {
            self.remaining_slots / 2 + self.remaining_slots % 2
        };
        self.remaining_slots = self.remaining_slots - length;
        self.remaining_levels = self.remaining_levels - 1;
        assert(self.remaining() =~= old(self).remaining().drop_first());
        Some(length)
    }

    /// The number of lengths still to come.
    pub fn len(&self) -> (result: usize)
        ensures
            result == self.remaining().len(),
    {
        proof {
            lemma_lengths_count(self.remaining_slots as nat, self.remaining_levels as nat);
        }
        self.remaining_levels
    }

    /// All lengths still to come.
    pub fn collect(self) -> (result: Vec<usize>)
        ensures
            result@.map_values(|length: usize| length as nat) == self.remaining(),
    {
        let mut levels = self;
        let mut collected: Vec<usize> = Vec::new();
        loop
            invariant
                collected@.map_values(|length: usize| length as nat) + levels.remaining()
                    == self.remaining(),
            ensures
                collected@.map_values(|length: usize| length as nat) == self.remaining(),
            decreases levels.remaining().len(),
        {
            let ghost before = levels.remaining();
            let ghost taken = collected@.map_values(|length: usize| length as nat);
            match levels.next() {
                None => {
                    assert(taken + before =~= taken);
                    break;
                },
                Some(length) => {
                    collected.push(length);
                    proof {
                        assert(collected@.map_values(|length: usize| length as nat)
                            =~= taken.push(length as nat));
                        assert(taken.push(length as nat) + before.drop_first() =~= taken + before);
                    }
                },
            }
        }
        collected
    }
}

/// Iterator over the batch quotas of an Elastic table.
#[derive(Clone, Copy, Debug)]
pub struct BatchQuotas {
    levels: LevelLengths,
    previous_level: Option<usize>,
    remaining_insertions: usize,
    reserve_exponent: u32,
}

impl BatchQuotas {
    /// A fraction below one, and levels whose quotas are representable.
    pub closed spec fn wf(self) -> bool {
        &&& self.reserve_exponent >= 1
        &&& match self.previous_level {
            Some(previous) => previous + self.levels.slots() <= usize::MAX,
            None => true,
        }
    }

    /// The quotas still to come.
    pub closed spec fn remaining(self) -> Seq<nat> {
        quotas(
            match self.previous_level {
                Some(previous) => Some(previous as nat),
                None => None,
            },
            self.levels.remaining(),
            self.reserve_exponent as nat,
            self.remaining_insertions as nat,
        )
    }

    /// The next quota, or `None` after the last one.
    pub fn next(&mut self) -> (result: Option<usize>)
        requires
            old(self).wf(),
        ensures
            final(self).wf(),
            match result {
                Some(quota) => old(self).remaining().len() > 0 && quota as nat == old(
                    self,
                ).remaining()[0] && final(self).remaining() == old(self).remaining().drop_first(),
                None => old(self).remaining().len() == 0 && *final(self) == *old(self),
            },
    {
        let level: usize = match self.levels.next() {
            None => {
                return None;
            },
            Some(level) => level,
        };
        let raw_quota: usize = match self.previous_level {
            Some(previous) => {
                let reserved: usize = floor_div_pow2(previous, self.reserve_exponent as u64 + 1);
                proof {
                    lemma_reserve_within_quarter(previous as nat, self.reserve_exponent as nat);
                }
                previous - reserved - ceil_three_quarters(previous) + ceil_three_quarters(level)
            },
            None => ceil_three_quarters(level),
        };
        self.previous_level = Some(level);
        let quota: usize = if raw_quota <= self.remaining_insertions {
            raw_quota
        } else {
            self.remaining_insertions
        };
        self.remaining_insertions = self.remaining_insertions - quota;
        assert(self.remaining() =~= old(self).remaining().drop_first());
        Some(quota)
    }

    /// The number of quotas still to come.
    pub fn len(&self) -> (result: usize)
        ensures
            result == self.remaining().len(),
    {
        proof {
            lemma_quotas_count(
                match self.previous_level {
                    Some(previous) => Some(previous as nat),
                    None => None,
                },
                self.levels.remaining(),
                self.reserve_exponent as nat,
                self.remaining_insertions as nat,
            );
        }
        self.levels.len()
    }

    /// All quotas still to come.
    pub fn collect(self) -> (result: Vec<usize>)
        requires
            self.wf(),
        ensures
            result@.map_values(|quota: usize| quota as nat) == self.remaining(),
    {
        let mut quotas = self;
        let mut collected: Vec<usize> = Vec::new();
        loop
            invariant
                quotas.wf(),
                collected@.map_values(|quota: usize| quota as nat) + quotas.remaining()
                    == self.remaining(),
            ensures
                collected@.map_values(|quota: usize| quota as nat) == self.remaining(),
            decreases quotas.remaining().len(),
        {
            let ghost before = quotas.remaining();
            let ghost taken = collected@.map_values(|quota: usize| quota as nat);
            match quotas.next() {
                None => {
                    assert(taken + before =~= taken);
                    break;
                },
                Some(quota) => {
                    collected.push(quota);
                    proof {
                        assert(collected@.map_values(|quota: usize| quota as nat) =~= taken.push(
                            quota as nat,
                        ));
                        assert(taken.push(quota as nat) + before.drop_first() =~= taken + before);
                    }
                },
            }
        }
        collected
    }
}

/// One length per level.
pub proof fn lemma_lengths_count(slots: nat, levels: nat)
    ensures
        lengths(slots, levels).len() == levels,
    decreases levels,
{
    if levels > 1 {
        lemma_lengths_count(slots / 2, (levels - 1) as nat);
    }
}

/// One quota per level.
pub proof fn lemma_quotas_count(previous: Option<nat>, levels: Seq<nat>, exponent: nat, budget: nat)
    ensures
        quotas(previous, levels, exponent, budget).len() == levels.len(),
    decreases levels.len(),
{
    if levels.len() > 0 {
        let raw = raw_quota(previous, levels[0], exponent);
        let quota = if raw <= budget {
            raw as nat
        } else {
            budget
        };
        lemma_quotas_count(
            Some(levels[0]),
            levels.drop_first(),
            exponent,
            (budget - quota) as nat,
        );
    }
}

/// Half of a reserve below one fits in the quarter that a batch leaves.
proof fn lemma_reserve_within_quarter(value: nat, exponent: nat)
    requires
        exponent >= 1,
    ensures
        value / pow2(exponent + 1) <= value / 4,
        value / pow2(exponent + 1) + partition::three_quarters(value) <= value,
{
    lemma2_to64();
    arith::lemma_pow2_monotone(2, exponent + 1);
    lemma_div_is_ordered_by_denominator(value as int, 4, pow2(exponent + 1) as int);
}

/// Levels over a slot count between neighbouring powers of two are non-empty,
/// sum to it, and shrink by half within one.
pub proof fn lemma_lengths_shape(slots: nat, levels: nat)
    requires
        levels >= 1,
        pow2((levels - 1) as nat) <= slots <= pow2(levels),
    ensures
        lengths(slots, levels).len() == levels,
        forall|i: int| 0 <= i < levels ==> #[trigger] lengths(slots, levels)[i] >= 1,
        partition::sum(lengths(slots, levels)) == slots,
        forall|i: int|
            0 <= i < levels - 1 ==> -2 <= 2 * lengths(slots, levels)[i + 1] - #[trigger] lengths(
                slots,
                levels,
            )[i] <= 2,
        lengths(slots, levels)[levels - 1] <= 2,
    decreases levels,
{
    lemma2_to64();
    let all = lengths(slots, levels);
    if levels == 1 {
        reveal_with_fuel(partition::sum, 2);
        assert(all.drop_first() =~= Seq::<nat>::empty());
    } else {
        lemma_pow2_unfold((levels - 1) as nat);
        lemma_pow2_unfold(levels);
        lemma_lengths_shape(slots / 2, (levels - 1) as nat);
        let rest = lengths(slots / 2, (levels - 1) as nat);
        assert(all.drop_first() =~= rest);
        assert forall|i: int| 0 <= i < levels implies #[trigger] all[i] >= 1 by {
            if i > 0 {
                assert(all[i] == rest[i - 1]);
            }
        }
        assert forall|i: int| 0 <= i < levels - 1 implies -2 <= 2 * all[i + 1] - #[trigger] all[i]
            <= 2 by {
            assert(all[i + 1] == rest[i]);
            if i > 0 {
                assert(all[i] == rest[i - 1]);
                assert(rest[i] == rest[(i - 1) + 1]);
            } else if levels == 2 {
                assert(rest[0] == slots / 2);
            } else {
                assert(rest[0] == arith::ceil_div(slots / 2, 2));
            }
        }
        assert(all[levels - 1] == rest[levels - 2]);
    }
}

/// The Elastic levels: `ceil(log2(n))` many, all non-empty, together `n` slots,
/// and each next length within one of half the preceding one.
pub proof fn law_elastic_levels_tile_the_array(config: PaperConfig)
    requires
        config.wf(),
    ensures
        ({
            let plan = ElasticPlan { config };
            let all = plan.all_lengths();
            &&& all.len() == plan.levels()
            &&& plan.levels() >= 1
            &&& forall|i: int| 0 <= i < all.len() ==> #[trigger] all[i] >= 1
            &&& partition::sum(all) == config.n
            &&& forall|i: int| 0 <= i < all.len() - 1 ==> -2 <= 2 * all[i + 1] - #[trigger] all[i] <= 2
        }),
{
    lemma_elastic_levels(config);
}

proof fn lemma_elastic_levels(config: PaperConfig)
    requires
        config.wf(),
    ensures
        ({
            let plan = ElasticPlan { config };
            &&& plan.levels() >= 1
            &&& pow2((plan.levels() - 1) as nat) <= config.n <= pow2(plan.levels())
        }),
        ({
            let plan = ElasticPlan { config };
            let all = plan.all_lengths();
            &&& all.len() == plan.levels()
            &&& forall|i: int| 0 <= i < all.len() ==> #[trigger] all[i] >= 1
            &&& partition::sum(all) == config.n
            &&& forall|i: int| 0 <= i < all.len() - 1 ==> -2 <= 2 * all[i + 1] - #[trigger] all[i] <= 2
            &&& all[all.len() - 1] <= 2
        }),
{
    let plan = ElasticPlan { config };
    lemma2_to64();
    lemma_ceil_log2_exists(config.n as nat);
    let levels = plan.levels();
    assert(levels > 0);
    lemma_lengths_shape(config.n as nat, levels);
}

/// Every value above one has a ceiling logarithm.
pub proof fn lemma_ceil_log2_exists(value: nat)
    requires
        value >= 2,
    ensures
        arith::is_ceil_log2(value, arith::log2_ceiling(value)),
{
    lemma2_to64();
    let found = lemma_find_ceil_log2(value, 0);
    assert(arith::is_ceil_log2(value, found));
}

proof fn lemma_find_ceil_log2(value: nat, from: nat) -> (found: nat)
    requires
        pow2(from) < value,
    ensures
        arith::is_ceil_log2(value, found),
    decreases value - pow2(from),
{
    lemma_pow2_unfold(from + 1);
    lemma_pow2_pos(from);
    if value <= pow2(from + 1) {
        from + 1
    } else {
        lemma_find_ceil_log2(value, from + 1)
    }
}

/// What the uncapped quotas sum to.
pub open spec fn raw_total(previous: Option<nat>, levels: Seq<nat>, exponent: nat) -> int
    decreases levels.len(),
{
    if levels.len() == 0 {
        0
    } else {
        raw_quota(previous, levels[0], exponent) + raw_total(
            Some(levels[0]),
            levels.drop_first(),
            exponent,
        )
    }
}

/// Capped quotas exhaust a budget that the uncapped ones would reach.
proof fn lemma_capped_sum(previous: Option<nat>, levels: Seq<nat>, exponent: nat, budget: nat)
    requires
        exponent >= 1,
        raw_total(previous, levels, exponent) >= budget,
    ensures
        partition::sum(quotas(previous, levels, exponent, budget)) == budget,
    decreases levels.len(),
{
    let all = quotas(previous, levels, exponent, budget);
    if levels.len() > 0 {
        let raw = raw_quota(previous, levels[0], exponent);
        match previous {
            Some(done) => {
                lemma_reserve_within_quarter(done, exponent);
            },
            None => {},
        }
        let quota = if raw <= budget {
            raw as nat
        } else {
            budget
        };
        let rest = levels.drop_first();
        let left = (budget - quota) as nat;
        if raw <= budget {
            lemma_capped_sum(Some(levels[0]), rest, exponent, left);
        } else {
            lemma_raw_total_nonnegative(Some(levels[0]), rest, exponent);
            lemma_capped_sum(Some(levels[0]), rest, exponent, 0);
        }
        assert(all.drop_first() =~= quotas(Some(levels[0]), rest, exponent, left));
    }
}

proof fn lemma_raw_total_nonnegative(previous: Option<nat>, levels: Seq<nat>, exponent: nat)
    requires
        exponent >= 1,
    ensures
        raw_total(previous, levels, exponent) >= 0,
    decreases levels.len(),
{
    if levels.len() > 0 {
        match previous {
            Some(done) => {
                lemma_reserve_within_quarter(done, exponent);
            },
            None => {},
        }
        lemma_raw_total_nonnegative(Some(levels[0]), levels.drop_first(), exponent);
    }
}

/// The reserves of parts are no more than the reserve of their sum.
proof fn lemma_reserves_of_parts(left: nat, right: nat, exponent: nat)
    ensures
        left / pow2(exponent) + right / pow2(exponent) <= (left + right) / pow2(exponent),
{
    lemma_pow2_pos(exponent);
    let power = pow2(exponent) as int;
    let a = left as int / power;
    let b = right as int / power;
    lemma_fundamental_div_mod(left as int, power);
    lemma_fundamental_div_mod(right as int, power);
    lemma_mod_bound(left as int, power);
    lemma_mod_bound(right as int, power);
    assert((a + b) * power <= left + right) by (nonlinear_arith)
        requires
            left == power * a + left as int % power,
            right == power * b + right as int % power,
            left as int % power >= 0,
            right as int % power >= 0,
    ;
    lemma_div_is_ordered((a + b) * power, (left + right) as int, power);
    lemma_div_by_multiple(a + b, power);
}

/// The uncapped quotas leave out at most the reserves of the levels done and
/// the last quarter of the last level.
proof fn lemma_raw_total_bound(previous: nat, levels: Seq<nat>, exponent: nat)
    requires
        exponent >= 1,
        levels.len() >= 1,
    ensures
        raw_total(Some(previous), levels, exponent) >= previous + partition::sum(levels)
            - (previous + partition::sum(levels)) / pow2(exponent + 1) - partition::three_quarters(
            previous,
        ) - levels[levels.len() - 1] / 4,
    decreases levels.len(),
{
    let rest = levels.drop_first();
    let head = levels[0];
    let last = levels[levels.len() - 1];
    let tail_sum = partition::sum(rest);
    lemma_reserves_of_parts(previous, head + tail_sum, exponent + 1);
    if levels.len() == 1 {
        reveal_with_fuel(partition::sum, 2);
        reveal_with_fuel(raw_total, 2);
        lemma_pow2_pos(exponent + 1);
        lemma_div_pos_is_pos(head as int, pow2(exponent + 1) as int);
    } else {
        lemma_raw_total_bound(head, rest, exponent);
        assert(rest[rest.len() - 1] == last);
    }
}

/// The batches of an Elastic plan together insert exactly the target.
pub proof fn law_batch_quotas_sum_to_the_target(config: PaperConfig)
    requires
        config.wf(),
    ensures
        (ElasticPlan { config }).all_quotas().len() == (ElasticPlan { config }).levels(),
        partition::sum((ElasticPlan { config }).all_quotas()) == config.target(),
{
    let plan = ElasticPlan { config };
    let all = plan.all_lengths();
    let exponent = config.reserve_exponent as nat;
    let n = config.n as nat;
    lemma_elastic_levels(config);
    lemma_pow2_pos(exponent);
    lemma_pow2_pos(exponent + 1);
    lemma_pow2_strictly_increases(exponent, exponent + 1);
    lemma_div_is_ordered_by_denominator(
        n as int,
        pow2(exponent) as int,
        pow2(exponent + 1) as int,
    );
    lemma_div_is_ordered_by_denominator(n as int, 1, pow2(exponent) as int);
    let rest = all.drop_first();
    if all.len() == 1 {
        reveal_with_fuel(raw_total, 2);
        reveal_with_fuel(partition::sum, 2);
    } else {
        lemma_raw_total_bound(all[0], rest, exponent);
        assert(rest[rest.len() - 1] == all[all.len() - 1]);
    }
    lemma_capped_sum(None, all, exponent, config.target() as nat);
    lemma_quotas_count(None, all, exponent, config.target() as nat);
}

} // verus!
