//! Where the levels, the special array and its fallback stand in a Funnel table.

use vstd::arithmetic::div_mod::*;
use vstd::arithmetic::mul::*;
use vstd::arithmetic::power2::*;
use vstd::prelude::*;

use crate::arith;
use crate::error::TryReserveError;
use crate::geometry::{self, FunnelBucketCounts, FunnelPlan, PaperConfig};
use crate::partition;
use crate::probe::{self, FunnelPrf, PreparedProbeRange, ProbeDomain};
use crate::reserve::ReserveFraction;

verus! {

/// One ordinary level.
#[derive(Clone, Copy, Debug, Eq, PartialEq, Structural)]
pub struct LevelShape {
    /// The level's first slot.
    pub offset: usize,
    /// The level's buckets.
    pub bucket_range: PreparedProbeRange,
    /// The counter of the level's probe.
    pub ordinary_counter_base: u64,
}

/// The slot layout of a Funnel table.
#[derive(Debug)]
pub struct FunnelShape {
    /// All slots.
    pub n: usize,
    /// The slots that may be filled.
    pub max_insertions: usize,
    /// The ordinary levels.
    pub levels: Vec<LevelShape>,
    /// The slots of an ordinary bucket.
    pub beta: usize,
    /// The probes into the special primary array.
    pub loglog_ceiling: usize,
    /// The first slot of the special primary array.
    pub primary_offset: usize,
    /// The slots of the special primary array.
    pub primary_range: PreparedProbeRange,
    /// The first slot of the special fallback array.
    pub fallback_offset: usize,
    /// The slots of a fallback bucket.
    pub fallback_bucket_width: usize,
    /// The fallback buckets.
    pub fallback_bucket_range: PreparedProbeRange,
}

/// The configuration of `n` slots under a reserve fraction.
pub open spec fn config_of(n: nat, reserve: ReserveFraction) -> PaperConfig {
    PaperConfig { n: n as usize, reserve_exponent: reserve.d() }
}

/// Whether `n` slots have a complete Funnel layout.
pub open spec fn has_layout(n: nat, reserve: ReserveFraction) -> bool {
    let config = config_of(n, reserve);
    &&& 2 <= n <= usize::MAX
    &&& reserve.d() >= 3
    &&& config.alpha() <= usize::MAX
    &&& exists|special: nat| #[trigger] config.compatible(special)
}

/// Whether `n` slots have a complete layout that takes `requested` insertions.
pub open spec fn serves(n: nat, requested: nat, reserve: ReserveFraction) -> bool {
    has_layout(n, reserve) && config_of(n, reserve).target() >= requested
}

/// Whether `n` is the smallest slot count that takes `requested` insertions.
pub open spec fn is_least_serving(n: nat, requested: nat, reserve: ReserveFraction) -> bool {
    &&& serves(n, requested, reserve)
    &&& forall|fewer: nat| #[trigger] serves(fewer, requested, reserve) ==> n <= fewer
}

/// The slots of the unit by which [`law_unit_layouts`] finds layouts.
pub open spec fn layout_unit(reserve: ReserveFraction) -> nat {
    240 * (2 * reserve.d() as nat) * pow2(reserve.d() as nat + 1)
}

/// The insertions that one unit takes.
pub open spec fn unit_target(reserve: ReserveFraction) -> nat {
    (240 * (2 * reserve.d() as nat) * (pow2(reserve.d() as nat + 1) - 2)) as nat
}

impl FunnelShape {
    /// Whether this is the layout of no slots.
    pub open spec fn is_empty_shape(self) -> bool {
        &&& self.n == 0
        &&& self.max_insertions == 0
        &&& self.levels@.len() == 0
        &&& self.beta == 0
        &&& self.loglog_ceiling == 0
        &&& self.primary_offset == 0
        &&& self.primary_range.upper == 0
        &&& self.primary_range.rejection_threshold == 0
        &&& self.fallback_offset == 0
        &&& self.fallback_bucket_width == 0
        &&& self.fallback_bucket_range.upper == 0
        &&& self.fallback_bucket_range.rejection_threshold == 0
    }

    /// Whether this is the layout of a plan: its ordinary levels one after the
    /// other, the special primary array, and the special fallback array.
    pub open spec fn lays_out(self, plan: FunnelPlan) -> bool {
        &&& plan.wf()
        &&& self.n == plan.config.n
        &&& self.max_insertions == plan.config.target()
        &&& self.levels@.len() == plan.alpha
        &&& self.beta == plan.beta
        &&& self.loglog_ceiling == plan.loglog_ceiling
        &&& self.fallback_bucket_width == plan.fallback_bucket_width
        &&& forall|i: int|
            0 <= i < self.levels@.len() ==> {
                &&& #[trigger] self.levels@[i].bucket_range.upper == plan.counts()[i]
                &&& self.levels@[i].bucket_range.wf()
                &&& self.levels@[i].offset == partition::sum(plan.counts().take(i)) * self.beta
                &&& probe::funnel_counter(ProbeDomain::FunnelOrdinary { level: i as u64 }, 0, 0)
                    == Some(self.levels@[i].ordinary_counter_base)
            }
        &&& self.primary_offset == plan.total_buckets() * self.beta
        &&& self.primary_range.wf()
        &&& self.primary_range.upper as nat == arith::ceil_div(plan.special_len as nat, 2)
        &&& self.fallback_offset == self.primary_offset + self.primary_range.upper
        &&& self.fallback_bucket_range.wf()
        &&& self.fallback_bucket_range.upper * self.fallback_bucket_width == plan.special_len / 2
    }

    /// Whether this is the layout of `n` slots under a reserve fraction.
    pub open spec fn is_for(self, n: nat, reserve: ReserveFraction) -> bool {
        if n == 0 {
            self.is_empty_shape()
        } else {
            exists|plan: FunnelPlan|
                #[trigger] self.lays_out(plan) && plan.config == config_of(n, reserve)
        }
    }

    /// Every part lies within the slots.
    pub open spec fn wf(self) -> bool {
        if self.n == 0 {
            self.is_empty_shape()
        } else {
            &&& self.beta > 0
            &&& self.max_insertions <= self.n
            &&& 1 <= self.loglog_ceiling <= 64
            &&& forall|i: int|
                0 <= i < self.levels@.len() ==> {
                    &&& (#[trigger] self.levels@[i]).bucket_range.wf()
                    &&& self.levels@[i].bucket_range.upper > 0
                    &&& self.levels@[i].offset + self.levels@[i].bucket_range.upper * self.beta
                        <= self.primary_offset
                }
            &&& self.primary_range.wf()
            &&& self.primary_range.upper > 0
            &&& self.primary_offset + self.primary_range.upper == self.fallback_offset
            &&& self.fallback_bucket_range.wf()
            &&& self.fallback_bucket_range.upper > 0
            &&& self.fallback_bucket_width > 0
            &&& self.fallback_offset + self.fallback_bucket_range.upper
                * self.fallback_bucket_width == self.n
        }
    }

    /// The layout of no slots.
    pub fn empty() -> (result: Self)
        ensures
            result.is_empty_shape(),
            result.wf(),
    {
        FunnelShape {
            n: 0,
            max_insertions: 0,
            levels: Vec::new(),
            beta: 0,
            loglog_ceiling: 0,
            primary_offset: 0,
            primary_range: PreparedProbeRange::empty(),
            fallback_offset: 0,
            fallback_bucket_width: 0,
            fallback_bucket_range: PreparedProbeRange::empty(),
        }
    }

    /// The layout of exactly `n` slots.
    pub fn from_slots(n: usize, reserve: ReserveFraction) -> (result: Result<
        Self,
        TryReserveError,
    >)
        requires
            reserve.wf(),
        ensures
            match result {
                Ok(shape) => shape.wf() && shape.n == n && shape.is_for(n as nat, reserve) && (n > 0
                    ==> has_layout(n as nat, reserve)),
                Err(TryReserveError::CapacityOverflow) => n > 0 && !has_layout(n as nat, reserve),
                Err(TryReserveError::AllocError) => n > 0 && has_layout(n as nat, reserve),
            },
    {
        if n == 0 {
            return Ok(FunnelShape::empty());
        }
        let config: PaperConfig = match PaperConfig::new(n, reserve.exponent()) {
            Ok(config) => config,
            Err(_) => {
                return Err(TryReserveError::CapacityOverflow);
            },
        };
        match config.funnel_plan() {
            Ok(plan) => {
                assert(has_layout(n as nat, reserve)) by {
                    assert(config == config_of(n as nat, reserve));
                    assert(config.compatible(plan.special_len as nat));
                }
                FunnelShape::from_plan(plan)
            },
            Err(_) => {
                assert(config == config_of(n as nat, reserve));
                Err(TryReserveError::CapacityOverflow)
            },
        }
    }

    /// The layout of a plan; refused only when the memory for its levels
    /// cannot be had.
    fn from_plan(plan: FunnelPlan) -> (result: Result<Self, TryReserveError>)
        requires
            plan.wf(),
        ensures
            match result {
                Ok(shape) => shape.wf() && shape.lays_out(plan),
                Err(error) => error == TryReserveError::AllocError,
            },
    {
        let mut levels: Vec<LevelShape> = Vec::new();
        if levels.try_reserve(plan.alpha()).is_err() {
            return Err(TryReserveError::AllocError);
        }
        Ok(FunnelShape::assemble(plan, levels))
    }

    /// The layout of exactly `n` slots, for a count that is known to have one.
    pub fn of_slots(n: usize, reserve: ReserveFraction) -> (result: Self)
        requires
            reserve.wf(),
            n > 0 ==> has_layout(n as nat, reserve),
        ensures
            result.wf(),
            result.n == n,
            result.is_for(n as nat, reserve),
    {
        if n == 0 {
            return FunnelShape::empty();
        }
        let config: PaperConfig = PaperConfig { n, reserve_exponent: reserve.exponent() };
        assert(config == config_of(n as nat, reserve));
        match config.funnel_plan() {
            Ok(plan) => FunnelShape::assemble(plan, Vec::new()),
            Err(_) => FunnelShape::empty(),
        }
    }

    /// The layout of a plan, with its levels in the given vector.
    fn assemble(plan: FunnelPlan, level_store: Vec<LevelShape>) -> (result: Self)
        requires
            plan.wf(),
            level_store@.len() == 0,
        ensures
            result.wf(),
            result.lays_out(plan),
    {
        let ghost counts = plan.counts();
        let ghost total = plan.total_buckets();
        let beta: usize = plan.beta();
        proof {
            geometry::law_funnel_plan_tiles_the_array(plan);
            lemma_sums_within(counts);
        }
        let mut offset: usize = 0;
        let mut levels: Vec<LevelShape> = level_store;
        let mut coming: FunnelBucketCounts = plan.ordinary_bucket_counts();
        proof {
            assert(counts.take(0) =~= Seq::<nat>::empty());
            assert(counts.skip(0) =~= counts);
            assert(0 * beta == 0);
        }
        loop
            invariant
                plan.wf(),
                counts == plan.counts(),
                counts.len() == plan.alpha,
                total == plan.total_buckets(),
                partition::is_partition(counts, total),
                total * beta + plan.special_len == plan.config.n,
                beta == plan.beta,
                coming.wf(),
                coming.remaining() == counts.skip(levels@.len() as int),
                levels@.len() <= counts.len(),
                forall|i: int|
                    0 <= i <= counts.len() ==> partition::sum(#[trigger] counts.take(i)) <= total,
                offset == partition::sum(counts.take(levels@.len() as int)) * beta,
                forall|i: int|
                    0 <= i < levels@.len() ==> {
                        &&& #[trigger] levels@[i].bucket_range.upper == counts[i]
                        &&& levels@[i].bucket_range.wf()
                        &&& levels@[i].offset == partition::sum(counts.take(i)) * beta
                        &&& probe::funnel_counter(
                            ProbeDomain::FunnelOrdinary { level: i as u64 },
                            0,
                            0,
                        ) == Some(levels@[i].ordinary_counter_base)
                    },
            ensures
                levels@.len() == counts.len(),
                offset == total * beta,
            decreases coming.remaining().len(),
        {
            let ghost done = levels@.len() as int;
            match coming.next() {
                None => {
                    proof {
                        assert(counts.skip(done).len() == counts.len() - done);
                        assert(counts.take(done) =~= counts);
                    }
                    break;
                },
                Some(bucket_count) => {
                    proof {
                        assert(counts.skip(done)[0] == counts[done]);
                        assert(counts.skip(done).drop_first() =~= counts.skip(done + 1));
                        partition::lemma_sum_take_next(counts, done);
                        assert(counts.take(done + 1) == counts.take((done + 1) as int));
                        lemma_level_within(
                            partition::sum(counts.take(done)),
                            bucket_count as nat,
                            total,
                            beta as nat,
                        );
                    }
                    let range: PreparedProbeRange = match PreparedProbeRange::new(bucket_count) {
                        Ok(range) => range,
                        Err(_) => PreparedProbeRange::empty(),
                    };
                    let counter_base: u64 = match FunnelPrf::ordinary_counter_base(
                        levels.len() as u64,
                    ) {
                        Some(base) => base,
                        None => 0,
                    };
                    levels.push(
                        LevelShape {
                            offset,
                            bucket_range: range,
                            ordinary_counter_base: counter_base,
                        },
                    );
                    offset = offset + bucket_count * beta;
                },
            }
        }
        let primary_offset: usize = offset;
        let primary_len: usize = plan.special_primary_len();
        let primary_range: PreparedProbeRange = match PreparedProbeRange::new(primary_len) {
            Ok(range) => range,
            Err(_) => PreparedProbeRange::empty(),
        };
        let fallback_count: usize = plan.fallback_bucket_count();
        let fallback_bucket_range: PreparedProbeRange = match PreparedProbeRange::new(
            fallback_count,
        ) {
            Ok(range) => range,
            Err(_) => PreparedProbeRange::empty(),
        };
        let config: PaperConfig = plan.config();
        let loglog_ceiling: usize = plan.loglog_ceiling();
        proof {
            lemma_loglog_bounds(plan);
        }
        let shape = FunnelShape {
            n: config.n(),
            max_insertions: config.target_insertions(),
            levels,
            beta,
            loglog_ceiling,
            primary_offset,
            primary_range,
            fallback_offset: primary_offset + primary_len,
            fallback_bucket_width: plan.fallback_bucket_width(),
            fallback_bucket_range,
        };
        proof {
            assert forall|i: int| 0 <= i < shape.levels@.len() implies (
            #[trigger] shape.levels@[i]).offset + shape.levels@[i].bucket_range.upper * shape.beta
                <= shape.primary_offset by {
                partition::lemma_sum_take_next(counts, i);
                assert(partition::sum(counts.take(i + 1)) <= total);
                lemma_level_within(
                    partition::sum(counts.take(i)),
                    counts[i],
                    total,
                    beta as nat,
                );
            }
        }
        shape
    }

    /// Whether another layout has the same parts.
    pub open spec fn same_as(self, other: FunnelShape) -> bool {
        &&& self.n == other.n
        &&& self.max_insertions == other.max_insertions
        &&& self.levels@ == other.levels@
        &&& self.beta == other.beta
        &&& self.loglog_ceiling == other.loglog_ceiling
        &&& self.primary_offset == other.primary_offset
        &&& self.primary_range == other.primary_range
        &&& self.fallback_offset == other.fallback_offset
        &&& self.fallback_bucket_width == other.fallback_bucket_width
        &&& self.fallback_bucket_range == other.fallback_bucket_range
    }

    /// A copy of this layout.
    pub fn copy(&self) -> (result: Self)
        ensures
            result.same_as(*self),
            self.wf() ==> result.wf(),
            forall|n: nat, reserve: ReserveFraction| #[trigger]
                self.is_for(n, reserve) ==> result.is_for(n, reserve),
    {
        let mut levels: Vec<LevelShape> = Vec::new();
        let mut level: usize = 0;
        while level < self.levels.len()
            invariant
                level <= self.levels@.len(),
                levels@ == self.levels@.take(level as int),
            decreases self.levels@.len() - level,
        {
            proof {
                assert(self.levels@.take(level + 1) =~= self.levels@.take(level as int).push(
                    self.levels@[level as int],
                ));
            }
            levels.push(self.levels[level]);
            level = level + 1;
        }
        assert(self.levels@.take(self.levels@.len() as int) =~= self.levels@);
        let shape: FunnelShape = FunnelShape {
            n: self.n,
            max_insertions: self.max_insertions,
            levels,
            beta: self.beta,
            loglog_ceiling: self.loglog_ceiling,
            primary_offset: self.primary_offset,
            primary_range: self.primary_range,
            fallback_offset: self.fallback_offset,
            fallback_bucket_width: self.fallback_bucket_width,
            fallback_bucket_range: self.fallback_bucket_range,
        };
        proof {
            assert forall|n: nat, reserve: ReserveFraction| #[trigger]
                self.is_for(n, reserve) implies shape.is_for(n, reserve) by {
                if n > 0 {
                    let plan = choose|plan: FunnelPlan|
                        #[trigger] self.lays_out(plan) && plan.config == config_of(n, reserve);
                    assert(shape.lays_out(plan));
                }
            }
        }
        shape
    }

    /// The smallest layout that takes `requested` insertions.
    pub fn for_insert_budget(requested: usize, reserve: ReserveFraction) -> (result: Result<
        Self,
        TryReserveError,
    >)
        requires
            reserve.wf(),
        ensures
            match result {
                Ok(shape) => shape.wf() && shape.is_for(shape.n as nat, reserve) && (if requested
                    == 0 {
                    shape.n == 0
                } else {
                    is_least_serving(shape.n as nat, requested as nat, reserve) && reserve.d()
                        < usize::BITS
                }),
                Err(TryReserveError::CapacityOverflow) => requested > 0 && (reserve.d()
                    >= usize::BITS || forall|n: nat|
                    !#[trigger] serves(n, requested as nat, reserve)),
                Err(TryReserveError::AllocError) => requested > 0 && reserve.d() < usize::BITS
                    && exists|n: nat| #[trigger] is_least_serving(n, requested as nat, reserve),
            },
    {
        if requested == 0 {
            return Ok(FunnelShape::empty());
        }
        match least_serving_slots(requested, reserve) {
            Some(n) => FunnelShape::from_slots(n, reserve),
            None => Err(TryReserveError::CapacityOverflow),
        }
    }
}

/// The smallest slot count that takes `requested` insertions, for exponents
/// below the width of `usize`.
pub fn least_serving_slots(requested: usize, reserve: ReserveFraction) -> (result: Option<usize>)
    requires
        requested > 0,
        reserve.wf(),
    ensures
        match result {
            Some(n) => is_least_serving(n as nat, requested as nat, reserve) && reserve.d()
                < usize::BITS,
            None => reserve.d() >= usize::BITS || forall|n: nat|
                !#[trigger] serves(n, requested as nat, reserve),
        },
{
    let d: u32 = reserve.exponent();
    if d < 3 || d >= usize::BITS {
        return None;
    }
    // Invert `n - floor(n / 2^d) >= requested` exactly.
    let scale: u64 = 1u64 << (d as u64);
    proof {
        vstd::bits::lemma_u64_pow2_no_overflow(d as nat);
        vstd::bits::lemma_u64_shl_is_mul(1, d as u64);
        lemma2_to64();
        arith::lemma_pow2_monotone(3, d as nat);
    }
    let denominator: u64 = scale - 1;
    let excess: u64 = (requested as u64 - 1) / denominator;
    proof {
        assert(excess <= requested) by (nonlinear_arith)
            requires
                excess == (requested as u64 - 1) / denominator as int,
                denominator >= 1,
                requested >= 1,
        ;
        assert forall|n: nat| #[trigger] serves(n, requested as nat, reserve) implies n >= requested
            + excess && n >= (4 * d + 10) * (2 * d) + 2 by {
            lemma_serving_lower_bound(n, requested as nat, reserve);
        }
    }
    let wide_lower: u128 = requested as u128 + excess as u128;
    if wide_lower > usize::MAX as u128 {
        return None;
    }
    let mut n: usize = wide_lower as usize;
    if n < 2 {
        n = 2;
    }
    let alpha: usize = 4 * (d as usize) + 10;
    let beta: usize = 2 * (d as usize);
    proof {
        assert(alpha * beta + 2 <= 262 * 126 + 2) by (nonlinear_arith)
            requires
                0 <= alpha <= 262,
                0 <= beta <= 126,
        ;
        assert(0 <= alpha * beta) by (nonlinear_arith)
            requires
                0 <= alpha,
                0 <= beta,
        ;
    }
    let smallest: usize = alpha * beta + 2;
    if n < smallest {
        n = smallest;
    }
    loop
        invariant
            reserve.wf(),
            n >= 2,
            d == reserve.d(),
            d < usize::BITS,
            requested > 0,
            forall|fewer: nat| #[trigger] serves(fewer, requested as nat, reserve) ==> n <= fewer,
        decreases usize::MAX - n,
    {
        match PaperConfig::new(n, d) {
            Ok(config) => {
                assert(config == config_of(n as nat, reserve));
                match config.funnel_plan() {
                    Ok(plan) => {
                        assert(config.compatible(plan.special_len as nat));
                        if config.target_insertions() >= requested {
                            assert(serves(n as nat, requested as nat, reserve));
                            return Some(n);
                        }
                    },
                    Err(_) => {},
                }
            },
            Err(_) => {},
        }
        assert(!serves(n as nat, requested as nat, reserve));
        if n == usize::MAX {
            return None;
        }
        n = n + 1;
    }
}

/// A layout that takes `requested` insertions has at least that many slots, the
/// reserve on top of them, and the smallest ordinary and special arrays.
proof fn lemma_serving_lower_bound(n: nat, requested: nat, reserve: ReserveFraction)
    requires
        serves(n, requested, reserve),
        requested >= 1,
        reserve.d() >= 3,
    ensures
        n >= requested + (requested - 1) / (pow2(reserve.d() as nat) - 1),
        n >= (4 * reserve.d() + 10) * (2 * reserve.d()) + 2,
{
    let d = reserve.d() as nat;
    let scale = pow2(d) as int;
    lemma2_to64();
    arith::lemma_pow2_monotone(3, d);
    let config = config_of(n, reserve);
    // The inversion of the floor.
    let quotient = n as int / scale;
    let excess = (requested - 1) / (scale - 1);
    lemma_fundamental_div_mod(n as int, scale);
    lemma_mod_bound(n as int, scale);
    lemma_fundamental_div_mod(requested - 1, scale - 1);
    lemma_mod_bound(requested - 1, scale - 1);
    assert(quotient >= excess) by (nonlinear_arith)
        requires
            n - quotient >= requested,
            n < scale * quotient + scale,
            requested - 1 >= (scale - 1) * excess,
            scale >= 8,
    ;
    // The smallest arrays.
    let special = choose|special: nat| #[trigger] config.compatible(special);
    let alpha = config.alpha();
    let beta = config.beta();
    let main = (n - special) as nat;
    lemma_fundamental_div_mod(main as int, beta as int);
    assert(alpha * beta <= main) by (nonlinear_arith)
        requires
            alpha <= main / beta,
            main == beta * (main / beta),
            beta >= 0,
            alpha >= 0,
    ;
    assert((4 * reserve.d() + 10) * (2 * reserve.d()) == alpha * beta) by (nonlinear_arith)
        requires
            alpha == 4 * reserve.d() + 10,
            beta == 2 * reserve.d(),
    ;
    assert(config.fallback_width() >= 2);
}

/// Layouts exist for every multiple of a unit: a special array whose half is a
/// multiple of all fallback widths, in an array as long as its lower bound
/// allows.
pub proof fn law_unit_layouts(units: nat, reserve: ReserveFraction)
    requires
        reserve.d() >= 3,
        units >= 1,
        layout_unit(reserve) * units <= usize::MAX,
        4 * reserve.d() + 10 <= usize::MAX,
    ensures
        has_layout(layout_unit(reserve) * units, reserve),
        config_of(layout_unit(reserve) * units, reserve).target() == unit_target(reserve) * units,
{
    let d = reserve.d() as nat;
    let n = layout_unit(reserve) * units;
    let config = config_of(n, reserve);
    let beta = config.beta();
    let product = beta * units;
    let special = 240 * product;
    let wide = pow2(d + 1);
    lemma2_to64();
    lemma_pow2_unfold(d + 1);
    lemma_pow2_unfold(d + 2);
    arith::lemma_pow2_monotone(3, d);
    lemma_pow2_exceeds(d);
    assert(n == special * wide) by (nonlinear_arith)
        requires
            n == (240 * beta * wide) * units,
            special == 240 * product,
            product == beta * units,
    ;
    assert(product >= 6) by (nonlinear_arith)
        requires
            product == beta * units,
            beta >= 6,
            units >= 1,
    ;
    // The bounds of the special array.
    lemma_mod_multiples_basic(special as int, wide as int);
    lemma_div_by_multiple(special as int, wide as int);
    assert(config.special_lower() == special);
    assert(3 * n == (special + special / 2) * pow2(d + 2)) by (nonlinear_arith)
        requires
            n == special * wide,
            pow2(d + 2) == 2 * wide,
            special % 2 == 0,
    ;
    lemma_div_by_multiple((special + special / 2) as int, pow2(d + 2) as int);
    assert(config.special_upper() == special + special / 2);
    // The ordinary buckets.
    let rest = (wide - 1) as nat;
    let buckets = 240 * (units * rest);
    assert(n - special == buckets * beta) by (nonlinear_arith)
        requires
            n == special * wide,
            special == 240 * product,
            product == beta * units,
            buckets == 240 * (units * rest),
            rest == wide - 1,
    ;
    assert(units * rest >= rest) by (nonlinear_arith)
        requires
            units >= 1,
            rest >= 0,
    ;
    assert(buckets >= config.alpha());
    lemma_mod_multiples_basic(buckets as int, beta as int);
    lemma_div_by_multiple(buckets as int, beta as int);
    // The fallback buckets.
    lemma_fallback_widths(n);
    let width = config.fallback_width();
    let half = special / 2;
    let folds = 120nat / width;
    assert(half == (folds * product) * width) by (nonlinear_arith)
        requires
            half == 120 * product,
            120 == folds * width,
    ;
    lemma_mod_multiples_basic((folds * product) as int, width as int);
    assert(config.compatible(special));
    // The insertions.
    assert(n == (2 * special) * pow2(d)) by (nonlinear_arith)
        requires
            n == special * wide,
            wide == 2 * pow2(d),
    ;
    lemma_div_by_multiple((2 * special) as int, pow2(d) as int);
    assert(special * wide - 2 * special == (240 * beta * (wide - 2)) * units) by (nonlinear_arith)
        requires
            special == 240 * product,
            product == beta * units,
    ;
}

/// A layout exists for every insertion count whose units are representable.
pub proof fn law_serving_layout_exists(requested: nat, reserve: ReserveFraction) -> (n: nat)
    requires
        reserve.d() >= 3,
        4 * reserve.d() + 10 <= usize::MAX,
        layout_unit(reserve) * (requested / unit_target(reserve) + 1) <= usize::MAX,
    ensures
        serves(n, requested, reserve),
{
    let unit = unit_target(reserve);
    let units = requested / unit + 1;
    lemma2_to64();
    arith::lemma_pow2_monotone(4, reserve.d() as nat + 1);
    assert(unit > 0) by (nonlinear_arith)
        requires
            unit == 240 * (2 * reserve.d()) * (pow2(reserve.d() as nat + 1) - 2),
            reserve.d() >= 3,
            pow2(reserve.d() as nat + 1) >= 16,
    ;
    law_unit_layouts(units, reserve);
    lemma_fundamental_div_mod(requested as int, unit as int);
    lemma_mod_bound(requested as int, unit as int);
    let whole = requested / unit;
    assert(unit * units == unit * whole + unit) by (nonlinear_arith)
        requires
            units == whole + 1,
    ;
    layout_unit(reserve) * units
}

/// Asking again for what a layout reports as its capacity gives the same layout.
pub proof fn law_budget_is_reused_at_its_capacity(n: nat, requested: nat, reserve: ReserveFraction)
    requires
        is_least_serving(n, requested, reserve),
    ensures
        is_least_serving(n, config_of(n, reserve).target() as nat, reserve),
        config_of(n, reserve).target() >= requested,
{
    let reported = config_of(n, reserve).target() as nat;
    lemma_pow2_pos(reserve.d() as nat);
    lemma_div_nonincreasing(n as int, pow2(reserve.d() as nat) as int);
    assert forall|fewer: nat| #[trigger] serves(fewer, reported, reserve) implies n <= fewer by {
        assert(serves(fewer, requested, reserve));
    }
}

/// No prefix sums to more than the whole.
proof fn lemma_sums_within(counts: Seq<nat>)
    ensures
        forall|i: int|
            0 <= i <= counts.len() ==> partition::sum(#[trigger] counts.take(i)) <= partition::sum(
                counts,
            ),
{
    assert forall|i: int| 0 <= i <= counts.len() implies partition::sum(#[trigger] counts.take(i))
        <= partition::sum(counts) by {
        partition::lemma_prefix_sum_within(counts, i);
    }
}

/// A level that fits among the buckets fits among their slots.
proof fn lemma_level_within(before: nat, count: nat, total: nat, beta: nat)
    requires
        before + count <= total,
    ensures
        before * beta + count * beta <= total * beta,
        (before + count) * beta == before * beta + count * beta,
        count * beta >= 0,
{
    assert(before * beta + count * beta <= total * beta) by (nonlinear_arith)
        requires
            before + count <= total,
            beta >= 0,
    ;
    assert((before + count) * beta == before * beta + count * beta) by (nonlinear_arith);
}

/// The fallback bucket width is an even number up to twelve, and divides 120.
proof fn lemma_fallback_widths(n: nat)
    requires
        2 <= n <= u64::MAX,
    ensures
        120nat % (2 * geometry::loglog(n)) == 0,
        2 <= 2 * geometry::loglog(n) <= 12,
        120nat == (120nat / (2 * geometry::loglog(n))) * (2 * geometry::loglog(n)),
{
    lemma2_to64();
    lemma2_to64_rest();
    crate::elastic_plan::lemma_ceil_log2_exists(n);
    let log = arith::log2_ceiling(n);
    if log > 64 {
        arith::lemma_pow2_monotone(64, (log - 1) as nat);
    }
    if log >= 2 {
        crate::elastic_plan::lemma_ceil_log2_exists(log);
        let loglog = arith::log2_ceiling(log);
        if loglog > 6 {
            arith::lemma_pow2_monotone(6, (loglog - 1) as nat);
        }
    }
    let half = geometry::loglog(n);
    if half == 1 {
        assert(2 * half == 2);
    } else if half == 2 {
        assert(2 * half == 4);
    } else if half == 3 {
        assert(2 * half == 6);
    } else if half == 4 {
        assert(2 * half == 8);
    } else if half == 5 {
        assert(2 * half == 10);
    } else {
        assert(2 * half == 12);
    }
}

/// A power of two exceeds its exponent.
proof fn lemma_pow2_exceeds(exponent: nat)
    ensures
        pow2(exponent) > exponent,
    decreases exponent,
{
    lemma2_to64();
    if exponent > 0 {
        lemma_pow2_unfold(exponent);
        lemma_pow2_exceeds((exponent - 1) as nat);
    }
}

/// The primary array is probed at least once and at most sixty-four times.
proof fn lemma_loglog_bounds(plan: FunnelPlan)
    requires
        plan.wf(),
    ensures
        1 <= plan.loglog_ceiling <= 64,
{
    let n = plan.config.n as nat;
    lemma2_to64();
    lemma2_to64_rest();
    crate::elastic_plan::lemma_ceil_log2_exists(n);
    let log = arith::log2_ceiling(n);
    if log > 64 {
        arith::lemma_pow2_monotone(64, (log - 1) as nat);
    }
    if log >= 2 {
        crate::elastic_plan::lemma_ceil_log2_exists(log);
        let loglog = arith::log2_ceiling(log);
        if loglog > 64 {
            arith::lemma_pow2_monotone(64, (loglog - 1) as nat);
        }
    }
}

/// There is one layout of a slot count under a reserve fraction.
pub proof fn law_layout_is_unique(
    left: FunnelShape,
    right: FunnelShape,
    n: nat,
    reserve: ReserveFraction,
)
    requires
        left.is_for(n, reserve),
        right.is_for(n, reserve),
        left.wf(),
        right.wf(),
    ensures
        left.same_as(right),
{
    if n == 0 {
        assert(left.levels@ =~= right.levels@);
    } else {
        let plan = choose|plan: FunnelPlan| #[trigger]
            left.lays_out(plan) && plan.config == config_of(n, reserve);
        let other = choose|plan: FunnelPlan| #[trigger]
            right.lays_out(plan) && plan.config == config_of(n, reserve);
        geometry::law_funnel_plan_is_unique(plan, other);
        assert forall|i: int| 0 <= i < left.levels@.len() implies #[trigger] left.levels@[i]
            == right.levels@[i] by {
            assert(left.levels@[i].bucket_range.upper == plan.counts()[i]);
            assert(right.levels@[i].bucket_range.upper == plan.counts()[i]);
        }
        assert(left.levels@ =~= right.levels@);
        let a = left.fallback_bucket_range.upper as int;
        let b = right.fallback_bucket_range.upper as int;
        let width = left.fallback_bucket_width as int;
        assert(a == b) by (nonlinear_arith)
            requires
                a * width == b * width,
                width > 0,
        ;
    }
}

/// What a plan says of a level of its layout.
proof fn lemma_level_of_plan(shape: FunnelShape, plan: FunnelPlan, i: int)
    requires
        shape.lays_out(plan),
        0 <= i < shape.levels@.len(),
    ensures
        shape.levels@[i].bucket_range.upper == plan.counts()[i],
        shape.levels@[i].offset == partition::sum(plan.counts().take(i)) * shape.beta,
        partition::sum(plan.counts().take(i + 1)) * shape.beta == shape.levels@[i].offset
            + shape.levels@[i].bucket_range.upper * shape.beta,
        plan.counts()[i] >= 1,
        i + 1 < shape.levels@.len() ==> partition::adjacent(plan.counts()[i], plan.counts()[i + 1]),
{
    geometry::law_funnel_plan_tiles_the_array(plan);
    let counts = plan.counts();
    assert(shape.levels@[i].bucket_range.upper == counts[i]);
    partition::lemma_sum_push(counts.take(i), counts[i]);
    assert(counts.take(i + 1) =~= counts.take(i).push(counts[i]));
    let before = partition::sum(counts.take(i)) as int;
    let beta = shape.beta as int;
    assert((before + counts[i]) * beta == before * beta + counts[i] * beta) by (nonlinear_arith);
}

/// The parts of a layout stand one behind the other and fill the slots: `4 d + 10`
/// ordinary levels of buckets of `2 d` slots each, from the first slot on, the primary
/// array and the fallback buckets.
pub proof fn law_layout_parts_fill_the_slots(
    shape: FunnelShape,
    n: nat,
    reserve: ReserveFraction,
)
    requires
        shape.is_for(n, reserve),
        shape.wf(),
        0 < n <= usize::MAX,
    ensures
        shape.n == n,
        reserve.d() >= 3,
        shape.levels@.len() == 4 * reserve.d() + 10,
        shape.beta == 2 * reserve.d(),
        shape.levels@[0].offset == 0,
        shape.levels@.last().offset + shape.levels@.last().bucket_range.upper * shape.beta
            == shape.primary_offset,
        shape.primary_offset + shape.primary_range.upper == shape.fallback_offset,
        shape.fallback_offset + shape.fallback_bucket_range.upper * shape.fallback_bucket_width
            == n,
{
    let plan = choose|plan: FunnelPlan| #[trigger]
        shape.lays_out(plan) && plan.config == config_of(n, reserve);
    assert(shape.lays_out(plan));
    geometry::law_funnel_plan_tiles_the_array(plan);
    let counts = plan.counts();
    lemma_level_of_plan(shape, plan, 0);
    lemma_level_of_plan(shape, plan, shape.levels@.len() - 1);
    assert(counts.take(0) =~= Seq::<nat>::empty());
    assert(counts.take(counts.len() as int) =~= counts);
    assert(0 * shape.beta == 0) by (nonlinear_arith);
}

/// Each ordinary level of a layout stands directly behind the one before, and has at most
/// as many buckets and about three quarters of them.
pub proof fn law_levels_follow_one_another(
    shape: FunnelShape,
    n: nat,
    reserve: ReserveFraction,
    level: int,
)
    requires
        shape.is_for(n, reserve),
        0 < n <= usize::MAX,
        0 <= level < shape.levels@.len() - 1,
    ensures
        shape.levels@[level + 1].offset == shape.levels@[level].offset
            + shape.levels@[level].bucket_range.upper * shape.beta,
        1 <= shape.levels@[level + 1].bucket_range.upper
            <= shape.levels@[level].bucket_range.upper,
        -4 <= 4 * shape.levels@[level + 1].bucket_range.upper - 3
            * shape.levels@[level].bucket_range.upper <= 4,
{
    let plan = choose|plan: FunnelPlan| #[trigger]
        shape.lays_out(plan) && plan.config == config_of(n, reserve);
    assert(shape.lays_out(plan));
    lemma_level_of_plan(shape, plan, level);
    lemma_level_of_plan(shape, plan, level + 1);
}

/// The first level of a layout has a quarter of the ordinary buckets, as nearly as counts
/// that shrink from level to level like those of a layout can have; of two counts as near
/// it has the smaller.
pub proof fn law_first_level_is_nearest_to_a_quarter(
    shape: FunnelShape,
    n: nat,
    reserve: ReserveFraction,
    counts: Seq<nat>,
)
    requires
        shape.is_for(n, reserve),
        0 < n <= usize::MAX,
        counts.len() == shape.levels@.len(),
        forall|i: int| 0 <= i < counts.len() ==> #[trigger] counts[i] >= 1,
        forall|i: int, j: int|
            0 <= i < counts.len() && j == i + 1 && j < counts.len() ==> #[trigger] counts[j]
                <= #[trigger] counts[i] && -4 <= 4 * counts[j] - 3 * counts[i] <= 4,
        partition::sum(counts) * shape.beta == shape.primary_offset,
    ensures
        ({
            let total = partition::sum(counts) as int;
            let off = 4 * shape.levels@[0].bucket_range.upper - total;
            let other = 4 * counts[0] - total;
            let distance = if off >= 0 {
                off
            } else {
                -off
            };
            let others = if other >= 0 {
                other
            } else {
                -other
            };
            &&& distance <= others
            &&& distance == others ==> shape.levels@[0].bucket_range.upper <= counts[0]
        }),
{
    let plan = choose|plan: FunnelPlan| #[trigger]
        shape.lays_out(plan) && plan.config == config_of(n, reserve);
    assert(shape.lays_out(plan));
    geometry::law_funnel_plan_tiles_the_array(plan);
    partition::law_bucket_counts_are_a_partition(
        plan.first_bucket_count as nat,
        plan.alpha as nat,
        plan.total_buckets(),
    );
    lemma_level_of_plan(shape, plan, 0);
    let total = partition::sum(counts) as int;
    let beta = shape.beta as int;
    assert(total == plan.total_buckets()) by (nonlinear_arith)
        requires
            total * beta == plan.total_buckets() * beta,
            beta > 0,
    ;
    assert forall|i: int| 0 <= i < counts.len() - 1 implies partition::adjacent(
        #[trigger] counts[i],
        counts[i + 1],
    ) by {
        let j = i + 1;
        assert(counts[j] <= counts[i]);
    }
    partition::law_partitions_are_feasible(counts, plan.total_buckets());
}

/// The special array of a layout has between a half and three quarters of the share
/// `2^-d` of the slots, in two halves of which the second is whole fallback buckets; the
/// buckets are twice the primary probes wide, and there are as many of those as the double
/// logarithm of the slots. Every longer array would break one of these.
pub proof fn law_special_array_is_the_largest(
    shape: FunnelShape,
    n: nat,
    reserve: ReserveFraction,
    other: nat,
)
    requires
        shape.is_for(n, reserve),
        shape.wf(),
        0 < n <= usize::MAX,
    ensures
        shape.loglog_ceiling >= 1,
        n <= pow2(pow2(shape.loglog_ceiling as nat)),
        shape.loglog_ceiling > 1 ==> n > pow2(pow2((shape.loglog_ceiling - 1) as nat)),
        shape.fallback_bucket_width == 2 * shape.loglog_ceiling,
        ({
            let special = n - shape.primary_offset;
            let half = shape.fallback_bucket_range.upper * shape.fallback_bucket_width;
            &&& n <= special * pow2(reserve.d() as nat + 1)
            &&& special * pow2(reserve.d() as nat + 2) <= 3 * n
            &&& shape.fallback_bucket_range.upper >= 1
            &&& half == special / 2
            &&& shape.primary_range.upper == special - half
            &&& ({
                &&& n <= other * pow2(reserve.d() as nat + 1)
                &&& other * pow2(reserve.d() as nat + 2) <= 3 * n
                &&& other <= n
                &&& (n - other) % (2 * reserve.d() as int) == 0
                &&& n - other >= (4 * reserve.d() + 10) * (2 * reserve.d())
                &&& (other / 2) % (2 * shape.loglog_ceiling as nat) == 0
                &&& other / 2 >= 2 * shape.loglog_ceiling
            }) ==> other <= special
        }),
{
    let plan = choose|plan: FunnelPlan| #[trigger]
        shape.lays_out(plan) && plan.config == config_of(n, reserve);
    assert(shape.lays_out(plan));
    law_layout_parts_fill_the_slots(shape, n, reserve);
    geometry::law_funnel_plan_tiles_the_array(plan);
    geometry::law_loglog_is_least(n);
    let config = plan.config;
    let special = plan.special_len as nat;
    let d = reserve.d() as nat;
    lemma_mul_is_commutative(plan.total_buckets() as int, plan.beta as int);
    assert(n - shape.primary_offset == special);
    lemma_pow2_pos(d + 1);
    lemma_pow2_pos(d + 2);
    assert(config.compatible(special));
    lemma_within_shares(n, special, d);
    assert(shape.fallback_bucket_range.upper >= 1) by {
        if shape.fallback_bucket_range.upper == 0 {
            assert(0 * shape.fallback_bucket_width == 0) by (nonlinear_arith);
        }
    }
    if n <= other * pow2(d + 1) && other * pow2(d + 2) <= 3 * n && other <= n && (n - other) % (2
        * d as int) == 0 && n - other >= (4 * d + 10) * (2 * d) && (other / 2) % (2
        * shape.loglog_ceiling as nat) == 0 && other / 2 >= 2 * shape.loglog_ceiling {
        lemma_within_shares(n, other, d);
        let rest = (n - other) as nat;
        let beta = config.beta();
        lemma_fundamental_div_mod(rest as int, beta as int);
        assert(rest / beta >= config.alpha()) by (nonlinear_arith)
            requires
                rest == beta * (rest / beta) + rest % beta,
                rest % beta == 0,
                rest >= config.alpha() * beta,
                beta > 0,
        ;
        assert(config.compatible(other));
    }
}

/// The bounds of a special array as divisions and as products.
proof fn lemma_within_shares(n: nat, special: nat, d: nat)
    ensures
        arith::ceil_div(n, pow2(d + 1)) <= special <==> n <= special * pow2(d + 1),
        special <= (3 * n) / pow2(d + 2) <==> special * pow2(d + 2) <= 3 * n,
{
    lemma_pow2_pos(d + 1);
    lemma_pow2_pos(d + 2);
    let wide = pow2(d + 1) as int;
    let wider = pow2(d + 2) as int;
    lemma_fundamental_div_mod(n as int, wide);
    lemma_mod_bound(n as int, wide);
    lemma_fundamental_div_mod((3 * n) as int, wider);
    lemma_mod_bound((3 * n) as int, wider);
    let q = n as int / wide;
    let r = n as int % wide;
    let s = special as int;
    assert((if r == 0 {
        q
    } else {
        q + 1
    }) <= s <==> n <= s * wide) by (nonlinear_arith)
        requires
            n == wide * q + r,
            0 <= r < wide,
    ;
    let p = (3 * n) as int / wider;
    let t = (3 * n) as int % wider;
    assert(s <= p <==> s * wider <= 3 * n) by (nonlinear_arith)
        requires
            3 * n == wider * p + t,
            0 <= t < wider,
    ;
}

/// A slot count has a layout exactly if some special array completes it.
pub proof fn law_layouts_are_completed_by_a_special_array(
    n: nat,
    reserve: ReserveFraction,
    special: nat,
    primaries: nat,
)
    requires
        2 <= n <= usize::MAX,
        3 <= reserve.d(),
        4 * reserve.d() + 10 <= usize::MAX,
        primaries >= 1,
        n <= pow2(pow2(primaries)),
        primaries > 1 ==> n > pow2(pow2((primaries - 1) as nat)),
        n <= special * pow2(reserve.d() as nat + 1),
        special * pow2(reserve.d() as nat + 2) <= 3 * n,
        special <= n,
        (n - special) % (2 * reserve.d() as int) == 0,
        n - special >= (4 * reserve.d() + 10) * (2 * reserve.d()),
        (special / 2) % (2 * primaries) == 0,
        special / 2 >= 2 * primaries,
    ensures
        has_layout(n, reserve),
{
    let config = config_of(n, reserve);
    let d = reserve.d() as nat;
    geometry::law_loglog_is_least(n);
    let found = geometry::loglog(n);
    lemma2_to64();
    if found < primaries {
        arith::lemma_pow2_monotone(found, (primaries - 1) as nat);
        arith::lemma_pow2_monotone(pow2(found), pow2((primaries - 1) as nat));
    } else if primaries < found {
        arith::lemma_pow2_monotone(primaries, (found - 1) as nat);
        arith::lemma_pow2_monotone(pow2(primaries), pow2((found - 1) as nat));
    }
    lemma_within_shares(n, special, d);
    let rest = (n - special) as nat;
    let beta = config.beta();
    lemma_fundamental_div_mod(rest as int, beta as int);
    assert(rest / beta >= config.alpha()) by (nonlinear_arith)
        requires
            rest == beta * (rest / beta) + rest % beta,
            rest % beta == 0,
            rest >= config.alpha() * beta,
            beta > 0,
    ;
    assert(config.compatible(special));
}

/// Each level of a layout has as many buckets as the levels before it leave possible: where
/// other counts that shrink from level to level like those of a layout first differ from
/// them, they are smaller.
pub proof fn law_level_counts_are_the_largest(
    shape: FunnelShape,
    n: nat,
    reserve: ReserveFraction,
    counts: Seq<nat>,
    at: int,
)
    requires
        shape.is_for(n, reserve),
        0 < n <= usize::MAX,
        counts.len() == shape.levels@.len(),
        forall|i: int| 0 <= i < counts.len() ==> #[trigger] counts[i] >= 1,
        forall|i: int, j: int|
            0 <= i < counts.len() && j == i + 1 && j < counts.len() ==> #[trigger] counts[j]
                <= #[trigger] counts[i] && -4 <= 4 * counts[j] - 3 * counts[i] <= 4,
        partition::sum(counts) * shape.beta == shape.primary_offset,
        1 <= at < counts.len(),
        forall|i: int|
            0 <= i < at ==> #[trigger] counts[i] == shape.levels@[i].bucket_range.upper,
    ensures
        counts[at] <= shape.levels@[at].bucket_range.upper,
{
    let plan = choose|plan: FunnelPlan| #[trigger]
        shape.lays_out(plan) && plan.config == config_of(n, reserve);
    assert(shape.lays_out(plan));
    geometry::law_funnel_plan_tiles_the_array(plan);
    let total = partition::sum(counts) as int;
    let beta = shape.beta as int;
    assert(total == plan.total_buckets()) by (nonlinear_arith)
        requires
            total * beta == plan.total_buckets() * beta,
            beta > 0,
    ;
    assert forall|i: int| 0 <= i < counts.len() - 1 implies partition::adjacent(
        #[trigger] counts[i],
        counts[i + 1],
    ) by {
        let j = i + 1;
        assert(counts[j] <= counts[i]);
    }
    partition::law_bucket_counts_are_a_partition(
        plan.first_bucket_count as nat,
        plan.alpha as nat,
        plan.total_buckets(),
    );
    assert forall|i: int| 0 <= i < at implies #[trigger] counts[i] == plan.counts()[i] by {
        lemma_level_of_plan(shape, plan, i);
    }
    lemma_level_of_plan(shape, plan, at);
    assert(counts[0] == plan.counts()[0]);
    partition::law_bucket_counts_are_the_largest(
        plan.first_bucket_count as nat,
        plan.alpha as nat,
        plan.total_buckets(),
        counts,
        at,
    );
}

} // verus!
