//! The capacity and the batch schedule of one Elastic allocation.

use vstd::arithmetic::power2::*;
use vstd::prelude::*;

use crate::arith;
use crate::batch;
use crate::capacity::{self, capacity_for};
use crate::config::INITIAL_CAPACITY;
use crate::elastic_plan;
use crate::geometry::{ElasticPlan, PaperConfig};
use crate::partition;
use crate::reserve::ReserveFraction;

verus! {

/// The most slots of an Elastic table: `2^32`, or all that `usize` holds.
pub open spec fn slot_limit() -> nat {
    if usize::BITS > 32 {
        0x1_0000_0000
    } else {
        usize::MAX as nat
    }
}

/// Most levels, and most batch quotas, of any Elastic geometry.
pub const MAX_LEVELS: usize = 32;

/// The most slots of an Elastic table.
pub fn max_elastic_slots() -> (result: usize)
    ensures
        result == slot_limit(),
{
    if usize::BITS > 32 {
        0xffff_ffffusize + 1
    } else {
        usize::MAX
    }
}

/// The slots of a table built for `requested` insertions: none for none, else
/// what doubling the initial capacity reaches within the limit.
pub open spec fn budget_slots(requested: nat, reserve: ReserveFraction) -> Option<nat> {
    if requested == 0 {
        Some(0)
    } else {
        match capacity::doubled_capacity(INITIAL_CAPACITY as nat, requested, reserve) {
            Some(slots) => if slots <= slot_limit() {
                Some(slots)
            } else {
                None
            },
            None => None,
        }
    }
}

/// The level lengths of a table of `slots` slots.
pub open spec fn level_lengths(slots: nat, reserve: ReserveFraction) -> Seq<nat> {
    if slots == 0 {
        Seq::empty()
    } else if slots == 1 {
        seq![1]
    } else {
        plan_of(slots, reserve).all_lengths()
    }
}

/// The batch quotas of a table of `slots` slots.
pub open spec fn batch_quotas(slots: nat, reserve: ReserveFraction) -> Seq<nat> {
    if slots == 0 {
        Seq::empty()
    } else if slots == 1 {
        seq![1]
    } else {
        plan_of(slots, reserve).all_quotas()
    }
}

/// The bounds at which the batches of a table of `slots` slots end.
pub open spec fn batch_ends(slots: nat, reserve: ReserveFraction) -> Seq<usize> {
    batch::ends_of(batch_quotas(slots, reserve).map_values(|quota: nat| quota as usize))
}

/// The plan of a table of at least two slots.
pub open spec fn plan_of(slots: nat, reserve: ReserveFraction) -> ElasticPlan {
    ElasticPlan { config: PaperConfig { n: slots as usize, reserve_exponent: reserve.d() } }
}

/// Whether machine words hold the given numbers, one for one.
pub open spec fn holds(words: Seq<usize>, numbers: Seq<nat>) -> bool {
    &&& words.len() == numbers.len()
    &&& forall|i: int| 0 <= i < words.len() ==> #[trigger] words[i] as nat == numbers[i]
}

/// Words that hold the batch quotas have the batch ends as their sums.
pub proof fn lemma_batch_ends(words: Seq<usize>, slots: nat, reserve: ReserveFraction)
    requires
        holds(words, batch_quotas(slots, reserve)),
    ensures
        batch::ends_of(words) == batch_ends(slots, reserve),
{
    assert(words =~= batch_quotas(slots, reserve).map_values(|quota: nat| quota as usize));
}

/// Capacity shape and batch schedule for one Elastic table allocation.
#[derive(Debug)]
pub struct ElasticGeometry {
    /// All slots.
    pub total_slots: usize,
    /// The slots that may be filled.
    pub max_insertions: usize,
    /// The level lengths.
    pub level_capacities: Vec<usize>,
    /// The batch quotas.
    pub batch_plan: Vec<usize>,
}

impl ElasticGeometry {
    /// Whether this is the geometry of `slots` slots.
    pub open spec fn is_for(self, slots: nat, reserve: ReserveFraction) -> bool {
        &&& self.total_slots == slots
        &&& self.max_insertions == capacity::insertion_limit(slots, reserve)
        &&& holds(self.level_capacities@, level_lengths(slots, reserve))
        &&& holds(self.batch_plan@, batch_quotas(slots, reserve))
    }

    /// The geometry that takes `requested_insertions`, or `None` where it would
    /// need too many slots.
    pub fn for_insert_budget(requested_insertions: usize, reserve_fraction: ReserveFraction) -> (result:
        Option<Self>)
        requires
            reserve_fraction.wf(),
        ensures
            match result {
                Some(geometry) => budget_slots(requested_insertions as nat, reserve_fraction)
                    == Some(geometry.total_slots as nat) && geometry.total_slots <= slot_limit()
                    && geometry.is_for(geometry.total_slots as nat, reserve_fraction),
                None => budget_slots(requested_insertions as nat, reserve_fraction) is None,
            },
    {
        let total_slots: usize = if requested_insertions == 0 {
            0
        } else {
            match capacity_for(INITIAL_CAPACITY, requested_insertions, reserve_fraction) {
                Some(slots) => slots,
                None => {
                    return None;
                },
            }
        };
        if total_slots > max_elastic_slots() {
            return None;
        }
        Some(ElasticGeometry::for_slots(total_slots, reserve_fraction))
    }

    /// The geometry of `total_slots` slots. One slot is a bootstrap shape
    /// outside the plan's domain.
    pub fn for_slots(total_slots: usize, reserve_fraction: ReserveFraction) -> (result: Self)
        requires
            total_slots <= slot_limit(),
            reserve_fraction.wf(),
        ensures
            result.is_for(total_slots as nat, reserve_fraction),
    {
        proof {
            lemma_small_limits(reserve_fraction);
        }
        if total_slots == 0 {
            return ElasticGeometry {
                total_slots: 0,
                max_insertions: 0,
                level_capacities: Vec::new(),
                batch_plan: Vec::new(),
            };
        }
        if total_slots == 1 {
            let mut single: Vec<usize> = Vec::new();
            single.push(1);
            let mut quota: Vec<usize> = Vec::new();
            quota.push(1);
            return ElasticGeometry {
                total_slots: 1,
                max_insertions: 1,
                level_capacities: single,
                batch_plan: quota,
            };
        }
        let config: PaperConfig = PaperConfig {
            n: total_slots,
            reserve_exponent: reserve_fraction.exponent(),
        };
        let plan: ElasticPlan = config.elastic_plan();
        assert(plan == plan_of(total_slots as nat, reserve_fraction));
        ElasticGeometry {
            total_slots,
            max_insertions: config.target_insertions(),
            level_capacities: plan.level_lengths().collect(),
            batch_plan: plan.batch_quotas().collect(),
        }
    }
}

/// The insertion limits of no slot and of one.
proof fn lemma_small_limits(reserve: ReserveFraction)
    requires
        reserve.wf(),
    ensures
        capacity::insertion_limit(0, reserve) == 0,
        capacity::insertion_limit(1, reserve) == 1,
{
    lemma2_to64();
    arith::lemma_pow2_monotone(1, reserve.d() as nat);
    vstd::arithmetic::div_mod::lemma_basic_div(0, pow2(reserve.d() as nat) as int);
    vstd::arithmetic::div_mod::lemma_basic_div(1, pow2(reserve.d() as nat) as int);
}

/// A table has at most as many levels as a slot index has bits, none of them
/// empty, and together they have its slots.
pub proof fn law_levels_tile_the_slots(slots: nat, reserve: ReserveFraction)
    requires
        reserve.wf(),
        slots <= slot_limit(),
    ensures
        level_lengths(slots, reserve).len() <= MAX_LEVELS,
        slots > 0 ==> level_lengths(slots, reserve).len() > 0,
        batch_quotas(slots, reserve).len() == level_lengths(slots, reserve).len(),
        forall|i: int|
            0 <= i < level_lengths(slots, reserve).len() ==> 1 <= #[trigger] level_lengths(
                slots,
                reserve,
            )[i] <= slots,
        partition::sum(level_lengths(slots, reserve)) == slots,
        partition::sum(batch_quotas(slots, reserve)) == capacity::insertion_limit(slots, reserve),
{
    lemma_small_limits(reserve);
    lemma2_to64();
    lemma2_to64_rest();
    reveal_with_fuel(partition::sum, 3);
    if slots >= 2 {
        let plan = plan_of(slots, reserve);
        elastic_plan::law_elastic_levels_tile_the_array(plan.config);
        elastic_plan::law_batch_quotas_sum_to_the_target(plan.config);
        elastic_plan::lemma_ceil_log2_exists(slots);
        let levels = plan.levels();
        if levels > 32 {
            arith::lemma_pow2_monotone(32, (levels - 1) as nat);
        }
        partition::lemma_parts_within_sum(plan.all_lengths());
    } else if slots == 1 {
        assert(level_lengths(slots, reserve).drop_first() =~= Seq::<nat>::empty());
    }
}

/// No level of a table within the slot limit has more slots than 32 bits count.
pub proof fn lemma_level_below_limit(slots: nat, reserve: ReserveFraction, level: int)
    requires
        reserve.wf(),
        slots <= slot_limit(),
        0 <= level < level_lengths(slots, reserve).len(),
    ensures
        level_lengths(slots, reserve)[level] <= u32::MAX,
{
    law_levels_tile_the_slots(slots, reserve);
    assert(level_lengths(slots, reserve)[level] <= slots);
    if slots > u32::MAX {
        let plan = plan_of(slots, reserve);
        elastic_plan::lemma_ceil_log2_exists(slots);
        elastic_plan::law_elastic_levels_tile_the_array(plan.config);
        lemma2_to64();
        lemma2_to64_rest();
        if plan.levels() <= 1 {
            arith::lemma_pow2_monotone(plan.levels(), 1);
        }
        lemma_lengths_below(slots, plan.levels());
        assert(plan.all_lengths()[level] <= arith::ceil_div(slots, 2));
    }
}

/// With more than one level, none has more than half of the slots, rounded up.
proof fn lemma_lengths_below(slots: nat, levels: nat)
    requires
        levels >= 2,
    ensures
        elastic_plan::lengths(slots, levels).len() == levels,
        forall|i: int|
            0 <= i < levels ==> #[trigger] elastic_plan::lengths(slots, levels)[i]
                <= arith::ceil_div(slots, 2),
    decreases levels,
{
    let rest = elastic_plan::lengths(slots / 2, (levels - 1) as nat);
    let all = elastic_plan::lengths(slots, levels);
    assert(all =~= seq![arith::ceil_div(slots, 2)] + rest);
    if levels > 2 {
        lemma_lengths_below(slots / 2, (levels - 1) as nat);
    } else {
        assert(rest =~= seq![slots / 2]) by {
            reveal_with_fuel(elastic_plan::lengths, 2);
        }
    }
    assert forall|i: int| 0 <= i < levels implies #[trigger] all[i] <= arith::ceil_div(
        slots,
        2,
    ) by {
        if i > 0 {
            assert(all[i] == rest[i - 1]);
        }
    }
}

/// The slots of the levels before one, filled up to half of their reserve share.
pub open spec fn filled_before(lengths: Seq<nat>, d: nat, level: nat) -> int
    decreases level,
{
    if level == 0 {
        0
    } else {
        let last = lengths[level - 1];
        filled_before(lengths, d, (level - 1) as nat) + last - last / pow2(d + 1)
    }
}

/// The entries that fill the levels before one up to half of their reserve share, and
/// three quarters of that one.
pub open spec fn filled_by_batch(lengths: Seq<nat>, d: nat, level: nat) -> int {
    filled_before(lengths, d, level) + lengths[level as int] - lengths[level as int] / 4
}

/// A batch ends when the entries fill the levels before its level up to half of their
/// reserve share and its level to three quarters, or at the insertion limit.
pub proof fn law_batch_ends_are_the_filled_slots(slots: nat, reserve: ReserveFraction, level: nat)
    requires
        reserve.wf(),
        2 <= slots <= slot_limit(),
        level < level_lengths(slots, reserve).len(),
    ensures
        batch_ends(slots, reserve).len() == level_lengths(slots, reserve).len(),
        ({
            let filled = filled_by_batch(
                level_lengths(slots, reserve),
                reserve.d() as nat,
                level,
            );
            batch_ends(slots, reserve)[level as int] == if filled
                <= capacity::insertion_limit(slots, reserve) {
                filled
            } else {
                capacity::insertion_limit(slots, reserve)
            }
        }),
{
    law_levels_tile_the_slots(slots, reserve);
    capacity::law_insertion_limit_bounds(slots, reserve);
    let plan = plan_of(slots, reserve);
    let quotas = batch_quotas(slots, reserve);
    let words = quotas.map_values(|quota: nat| quota as usize);
    partition::lemma_parts_within_sum(quotas);
    assert forall|j: int| 0 <= j < words.len() implies #[trigger] words[j] as nat == quotas[j] by {
        assert(quotas[j] <= partition::sum(quotas));
    }
    batch::lemma_ends_are_sums(words, quotas, level as int);
    lemma_quota_sums(
        None,
        level_lengths(slots, reserve),
        reserve.d() as nat,
        plan.config.target() as nat,
        level,
    );
}

/// What is still to be filled of the level before.
spec fn left_over(previous: Option<nat>, d: nat) -> int {
    match previous {
        None => 0,
        Some(done) => done - done / pow2(d + 1) - partition::three_quarters(done),
    }
}

/// The levels before one, filled, with the first of them apart.
proof fn lemma_filled_first(lengths: Seq<nat>, d: nat, level: nat)
    requires
        0 < level <= lengths.len(),
    ensures
        filled_before(lengths, d, level) == lengths[0] - lengths[0] / pow2(d + 1) + filled_before(
            lengths.drop_first(),
            d,
            (level - 1) as nat,
        ),
    decreases level,
{
    if level > 1 {
        lemma_filled_first(lengths, d, (level - 1) as nat);
        assert(lengths.drop_first()[level - 2] == lengths[level - 1]);
    } else {
        reveal_with_fuel(filled_before, 2);
    }
}

/// Filling levels takes no negative number of entries.
proof fn lemma_filled_nonnegative(lengths: Seq<nat>, d: nat, level: nat)
    ensures
        filled_before(lengths, d, level) >= 0,
    decreases level,
{
    if level > 0 {
        lemma_filled_nonnegative(lengths, d, (level - 1) as nat);
        lemma_pow2_pos(d + 1);
        vstd::arithmetic::div_mod::lemma_div_nonincreasing(
            lengths[level - 1] as int,
            pow2(d + 1) as int,
        );
    }
}

/// The quotas up to a batch sum to what its level and those before are filled with, as far
/// as the budget goes.
proof fn lemma_quota_sums(
    previous: Option<nat>,
    levels: Seq<nat>,
    d: nat,
    budget: nat,
    level: nat,
)
    requires
        d >= 1,
        level < levels.len(),
    ensures
        ({
            let quotas = elastic_plan::quotas(previous, levels, d, budget);
            let filled = left_over(previous, d) + filled_by_batch(levels, d, level);
            &&& quotas.len() == levels.len()
            &&& partition::sum(quotas.take(level as int + 1)) == if filled <= budget {
                filled
            } else {
                budget as int
            }
        }),
    decreases levels.len(),
{
    let quotas = elastic_plan::quotas(previous, levels, d, budget);
    let raw = elastic_plan::raw_quota(previous, levels[0], d);
    let quota = if raw <= budget {
        raw as nat
    } else {
        budget
    };
    let rest = levels.drop_first();
    let later = elastic_plan::quotas(Some(levels[0]), rest, d, (budget - quota) as nat);
    assert(quotas == seq![quota] + later);
    lemma2_to64();
    arith::lemma_pow2_monotone(2, d + 1);
    lemma_left_over(previous, d);
    lemma_left_over(Some(levels[0]), d);
    reveal_with_fuel(partition::sum, 2);
    if rest.len() > 0 {
        lemma_quota_sums(Some(levels[0]), rest, d, (budget - quota) as nat, 0);
    } else {
        assert(later =~= Seq::<nat>::empty());
    }
    if level == 0 {
        assert(quotas.take(1) =~= seq![quota]);
        assert(seq![quota].drop_first() =~= Seq::<nat>::empty());
    } else {
        lemma_quota_sums(Some(levels[0]), rest, d, (budget - quota) as nat, (level - 1) as nat);
        assert(quotas.take(level as int + 1) =~= seq![quota] + later.take(level as int));
        assert(quotas.take(level as int + 1).drop_first() =~= later.take(level as int));
        lemma_filled_first(levels, d, level);
        lemma_filled_nonnegative(rest, d, (level - 1) as nat);
        assert(rest[level - 1] == levels[level as int]);
    }
}

/// Half of the reserve share is at most a quarter, so that what is left over is not
/// negative.
proof fn lemma_left_over(previous: Option<nat>, d: nat)
    requires
        d >= 1,
    ensures
        left_over(previous, d) >= 0,
{
    if let Some(done) = previous {
        lemma2_to64();
        arith::lemma_pow2_monotone(2, d + 1);
        vstd::arithmetic::div_mod::lemma_div_is_ordered_by_denominator(
            done as int,
            4,
            pow2(d + 1) as int,
        );
    }
}

/// Each level but the last takes half of what the levels before it leave, rounded up.
proof fn lemma_levels_take_half(slots: nat, levels: nat, level: int)
    requires
        0 <= level,
        level + 1 < levels,
    ensures
        elastic_plan::lengths(slots, levels).len() == levels,
        elastic_plan::lengths(slots, levels)[level] == (slots - partition::sum(
            elastic_plan::lengths(slots, levels).take(level),
        ) + 1) / 2,
    decreases level,
{
    let lengths = elastic_plan::lengths(slots, levels);
    let rest = elastic_plan::lengths(slots / 2, (levels - 1) as nat);
    elastic_plan::lemma_lengths_count(slots, levels);
    elastic_plan::lemma_lengths_count(slots / 2, (levels - 1) as nat);
    assert(lengths == seq![arith::ceil_div(slots, 2)] + rest);
    if level == 0 {
        assert(lengths.take(0) =~= Seq::<nat>::empty());
    } else {
        lemma_levels_take_half(slots / 2, (levels - 1) as nat, level - 1);
        assert(lengths.take(level)[0] == lengths[0]);
        assert(lengths.take(level).drop_first() =~= rest.take(level - 1));
        assert(lengths[level] == rest[level - 1]);
    }
}

/// The levels of a table are as many as its slot count has halvings, and each has half the
/// slots of the one before, to within one: half of what is left, rounded up.
pub proof fn law_levels_halve(slots: nat, reserve: ReserveFraction, level: int)
    requires
        reserve.wf(),
        2 <= slots <= slot_limit(),
        0 <= level < level_lengths(slots, reserve).len(),
    ensures
        ({
            let lengths = level_lengths(slots, reserve);
            &&& slots <= pow2(lengths.len())
            &&& lengths.len() > 1 ==> slots > pow2((lengths.len() - 1) as nat)
            &&& lengths.len() > 1 ==> lengths[0] == (slots + 1) / 2
            &&& partition::sum(lengths) == slots
            &&& level + 1 < lengths.len() ==> -2 <= 2 * lengths[level + 1] - lengths[level] <= 2
            &&& level + 1 < lengths.len() ==> lengths[level] == (slots - partition::sum(
                lengths.take(level),
            ) + 1) / 2
        }),
{
    let plan = plan_of(slots, reserve);
    law_levels_tile_the_slots(slots, reserve);
    elastic_plan::law_elastic_levels_tile_the_array(plan.config);
    elastic_plan::lemma_ceil_log2_exists(slots);
    let lengths = level_lengths(slots, reserve);
    assert(lengths[level] >= 1);
    if lengths.len() > 1 {
        assert(lengths == seq![arith::ceil_div(slots, 2)] + elastic_plan::lengths(
            slots / 2,
            (lengths.len() - 1) as nat,
        ));
    }
    if level + 1 < lengths.len() {
        lemma_levels_take_half(slots, lengths.len(), level);
    }
}

/// The quotas of the batches of a plan fill its levels: up to any batch they sum to the
/// entries that fill the levels before its level up to half of their reserve share and its
/// level to three quarters, as far as the target goes.
pub proof fn law_quotas_fill_the_levels(config: PaperConfig, level: nat)
    requires
        config.wf(),
        level < (ElasticPlan { config }).all_lengths().len(),
    ensures
        ({
            let plan = ElasticPlan { config };
            let filled = filled_by_batch(
                plan.all_lengths(),
                config.reserve_exponent as nat,
                level,
            );
            &&& plan.all_quotas().len() == plan.all_lengths().len()
            &&& partition::sum(plan.all_quotas().take(level as int + 1)) == if filled
                <= config.target() {
                filled
            } else {
                config.target()
            }
            &&& config.n <= pow2(plan.all_lengths().len())
            &&& plan.all_lengths().len() > 1 ==> config.n > pow2(
                (plan.all_lengths().len() - 1) as nat,
            )
        }),
{
    let plan = ElasticPlan { config };
    elastic_plan::law_elastic_levels_tile_the_array(config);
    elastic_plan::lemma_ceil_log2_exists(config.n as nat);
    lemma_pow2_pos(config.reserve_exponent as nat);
    vstd::arithmetic::div_mod::lemma_div_nonincreasing(
        config.n as int,
        pow2(config.reserve_exponent as nat) as int,
    );
    lemma_quota_sums(
        None,
        plan.all_lengths(),
        config.reserve_exponent as nat,
        config.target() as nat,
        level,
    );
}

} // verus!
