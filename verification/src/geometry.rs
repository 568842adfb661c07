//! Exact finite geometry of both tables.

use vstd::arithmetic::div_mod::*;
use vstd::arithmetic::mul::*;
use vstd::arithmetic::power2::*;
use vstd::prelude::*;

use crate::arith::{
    self, ceil_div_pow2, ceil_log2, floor_div_pow2, floor_three_div_pow2, greatest_common_divisor,
};
use crate::partition::{self, nearest_feasible_first_count, select_largest_feasible_next};

verus! {

/// Invalid exact paper-configuration input.
#[derive(Clone, Copy, Debug, Eq, PartialEq, Structural)]
pub enum ConfigError {
    /// The paper array has fewer than two slots.
    NTooSmall {
        /// The rejected array size.
        n: usize,
    },
    /// `delta = 1 / 2^d` was given the invalid exponent `d = 0`.
    ExponentZero,
}

/// A concrete Funnel-domain restriction failed.
#[derive(Clone, Copy, Debug, Eq, PartialEq, Structural)]
pub enum FunnelDomainError {
    /// Funnel requires `delta <= 1/8`, or equivalently `reserve_exponent >= 3`.
    ExponentBelowMinimum {
        /// The rejected exponent.
        reserve_exponent: u32,
        /// The smallest accepted exponent.
        minimum: u32,
    },
}

/// A derived Funnel geometry parameter.
#[derive(Clone, Copy, Debug, Eq, PartialEq, Structural)]
pub enum FunnelPlanParameter {
    /// The ordinary-level count `alpha = 4 * reserve_exponent + 10`.
    Alpha,
    /// The ordinary bucket length `beta = 2 * reserve_exponent`.
    Beta,
}

/// A failure to construct the paper's exact logical Funnel geometry.
#[derive(Clone, Copy, Debug, Eq, PartialEq, Structural)]
pub enum FunnelPlanError {
    /// Funnel's concrete `delta <= 1/8` restriction failed.
    Domain(FunnelDomainError),
    /// A derived parameter cannot be represented exactly.
    DerivedParameterOverflow {
        /// The parameter whose checked derivation failed.
        parameter: FunnelPlanParameter,
        /// The input exponent used by the failed derivation.
        reserve_exponent: u32,
    },
    /// No special length supports the complete finite logical layout.
    ///
    /// This reports a finite tiling incompatibility, not a rejection of the
    /// paper's asymptotic theorem domain. A compatible length must leave a
    /// beta-divisible feasible ordinary partition and at least one complete
    /// fallback bucket.
    NoCompatibleSpecialLayout {
        /// `ceil(delta * n / 2)`.
        lower: usize,
        /// `floor(3 * delta * n / 4)`.
        upper: usize,
        /// The required ordinary-bucket length.
        beta: usize,
        /// `max(1, ceil(log2(ceil(log2(n)))))`.
        loglog_ceiling: usize,
        /// The exact fallback bucket width `2 * loglog_ceiling`.
        fallback_bucket_width: usize,
    },
}

/// The status of an algorithm's asymptotic theorem preconditions.
#[derive(Clone, Copy, Debug, Eq, PartialEq, Structural)]
pub enum TheoremDomainStatus {
    /// The paper uses big-O notation without a concrete constant to check.
    UnquantifiedAsymptoticPrecondition,
}

/// A pure logical Elastic geometry and insertion-batch plan.
///
/// No table storage is allocated. Level lengths and batch quotas are derived
/// from the validated configuration.
#[derive(Clone, Copy, Debug, Eq, PartialEq, Structural)]
pub struct ElasticPlan {
    /// The validated inputs.
    pub config: PaperConfig,
}

/// `max(1, ceil(log2(ceil(log2(n)))))`.
pub open spec fn loglog(n: nat) -> nat {
    let exponent = arith::log2_ceiling(arith::log2_ceiling(n));
    if exponent == 0 {
        1
    } else {
        exponent
    }
}

/// Whether a special array of `special` slots, between `lower` and `upper`,
/// leaves `alpha` or more ordinary buckets of `beta` slots and at least one
/// fallback bucket of `width` slots, with nothing left over.
pub open spec fn compatible_special(
    n: nat,
    lower: nat,
    upper: nat,
    alpha: nat,
    beta: nat,
    width: nat,
    special: nat,
) -> bool {
    &&& lower <= special <= upper
    &&& special <= n
    &&& arith::divides(beta, (n - special) as nat)
    &&& (n - special) as nat / beta >= alpha
    &&& special / 2 >= width
    &&& arith::divides(width, special / 2)
}

/// Whether `special` is the largest compatible special length.
pub open spec fn is_largest_compatible(
    n: nat,
    lower: nat,
    upper: nat,
    alpha: nat,
    beta: nat,
    width: nat,
    special: nat,
) -> bool {
    &&& compatible_special(n, lower, upper, alpha, beta, width, special)
    &&& forall|other: nat|
        #[trigger] compatible_special(n, lower, upper, alpha, beta, width, other) ==> other
            <= special
}

/// Divisibility of the fallback length repeats with the residue cycle.
proof fn lemma_residue_cycle(
    n: nat,
    beta: nat,
    width: nat,
    gcd: nat,
    cycle: nat,
    near: nat,
    cycles: nat,
)
    requires
        beta > 0,
        beta % 2 == 0,
        width > 0,
        arith::common_divisor(gcd, beta, 2 * width),
        cycle == (2 * width) / gcd,
        near + cycles * (cycle * beta) <= n,
        arith::divides(width, (n - (near + cycles * (cycle * beta))) as nat / 2),
    ensures
        arith::divides(width, (n - near) as nat / 2),
{
    let half = beta / 2;
    lemma_fundamental_div_mod(2 * width as int, gcd as int);
    lemma_fundamental_div_mod(beta as int, gcd as int);
    let reduced = beta / gcd;
    // One cycle shortens the fallback by a multiple of the width.
    assert(cycle * beta == 2 * (width * reduced)) by (nonlinear_arith)
        requires
            2 * width == gcd * cycle,
            beta == gcd * reduced,
    ;
    let step = width * reduced;
    assert(cycles * (cycle * beta) == 2 * (cycles * step)) by (nonlinear_arith)
        requires
            cycle * beta == 2 * step,
    ;
    let far = (n - (near + cycles * (cycle * beta))) as nat / 2;
    assert((n - near) as nat / 2 == far + cycles * step);
    assert(cycles * step == width * (reduced * cycles)) by (nonlinear_arith)
        requires
            step == width * reduced,
    ;
    lemma_fundamental_div_mod(far as int, width as int);
    let whole = far / width + reduced * cycles;
    assert(far + cycles * step == whole * width) by (nonlinear_arith)
        requires
            far == width * (far / width),
            cycles * step == width * (reduced * cycles),
            whole == far / width + reduced * cycles,
    ;
    lemma_mod_multiples_basic(whole as int, width as int);
}

/// A multiple of `beta` that is at least another one is some steps after it.
proof fn lemma_steps_between(beta: nat, from: nat, to: nat) -> (steps: nat)
    requires
        arith::divides(beta, from),
        arith::divides(beta, to),
        from <= to,
    ensures
        to == from + steps * beta,
{
    lemma_fundamental_div_mod(from as int, beta as int);
    lemma_fundamental_div_mod(to as int, beta as int);
    let a = from / beta;
    let b = to / beta;
    assert(a <= b && to == from + (b - a) * beta) by (nonlinear_arith)
        requires
            from == beta * a,
            to == beta * b,
            from <= to,
            beta > 0,
    ;
    (b - a) as nat
}

/// The largest special length that completes the layout, with the first bucket
/// count of the ordinary levels that it leaves.
pub fn largest_compatible_special_layout(
    n: usize,
    lower: usize,
    upper: usize,
    alpha: usize,
    beta: usize,
    fallback_bucket_width: usize,
) -> (result: Option<(usize, usize)>)
    requires
        alpha >= 1,
        beta >= 2,
        beta % 2 == 0,
        fallback_bucket_width >= 1,
    ensures
        match result {
            Some((special_len, first)) => is_largest_compatible(
                n as nat,
                lower as nat,
                upper as nat,
                alpha as nat,
                beta as nat,
                fallback_bucket_width as nat,
                special_len as nat,
            ) && partition::is_nearest_first(
                first as nat,
                alpha as nat,
                (n - special_len) as nat / beta as nat,
            ),
            None => forall|special: nat|
                !#[trigger] compatible_special(
                    n as nat,
                    lower as nat,
                    upper as nat,
                    alpha as nat,
                    beta as nat,
                    fallback_bucket_width as nat,
                    special,
                ),
        },
{
    proof {
        // Positive bucket counts make `alpha` buckets the smallest main array.
        assert forall|special: nat| #[trigger] compatible_special(
                n as nat,
                lower as nat,
                upper as nat,
                alpha as nat,
                beta as nat,
                fallback_bucket_width as nat,
                special,
            ) implies alpha * beta <= n
            - special by {
            let main = (n - special) as nat;
            lemma_fundamental_div_mod(main as int, beta as int);
            assert(alpha * beta <= beta * (main / beta as nat)) by (nonlinear_arith)
                requires
                    alpha <= main / beta as nat,
            ;
        }
    }
    let minimum_main_len: usize = match alpha.checked_mul(beta) {
        None => {
            return None;
        },
        Some(product) => product,
    };
    if minimum_main_len > n {
        return None;
    }
    let fallback_period: usize = match fallback_bucket_width.checked_mul(2) {
        None => {
            return None;
        },
        Some(product) => product,
    };
    let minimum_special_len: usize = if lower >= fallback_period {
        lower
    } else {
        fallback_period
    };
    let maximum_special_len: usize = if upper <= n - minimum_main_len {
        upper
    } else {
        n - minimum_main_len
    };
    if minimum_special_len > maximum_special_len {
        return None;
    }
    let minimum_main_candidate: usize = n - maximum_special_len;
    let maximum_main_candidate: usize = n - minimum_special_len;
    let remainder: usize = minimum_main_candidate % beta;
    let minimum_main_multiple: usize = if remainder == 0 {
        minimum_main_candidate / beta
    } else {
        minimum_main_candidate / beta + 1
    };
    proof {
        lemma_fundamental_div_mod(minimum_main_candidate as int, beta as int);
        lemma_mod_bound(minimum_main_candidate as int, beta as int);
        // No multiple of `beta` lies between the candidate and the chosen one.
        assert forall|main: nat|
            minimum_main_candidate <= main && #[trigger] arith::divides(
                beta as nat,
                main,
            ) implies minimum_main_multiple * beta <= main by {
            lemma_fundamental_div_mod(main as int, beta as int);
            let quotient = main / beta as nat;
            assert(minimum_main_multiple * beta <= beta * quotient) by (nonlinear_arith)
                requires
                    main == beta * quotient,
                    minimum_main_candidate <= main,
                    minimum_main_candidate == beta * (minimum_main_candidate / beta) + remainder,
                    0 <= remainder < beta,
                    remainder == 0 ==> minimum_main_multiple == minimum_main_candidate / beta,
                    remainder != 0 ==> minimum_main_multiple == minimum_main_candidate / beta + 1,
            ;
        }
    }
    if minimum_main_multiple > maximum_main_candidate / beta {
        proof {
            assert forall|special: nat| !#[trigger] compatible_special(
                    n as nat,
                    lower as nat,
                    upper as nat,
                    alpha as nat,
                    beta as nat,
                    fallback_bucket_width as nat,
                    special,
                ) by {
                if compatible_special(
                        n as nat,
                        lower as nat,
                        upper as nat,
                        alpha as nat,
                        beta as nat,
                        fallback_bucket_width as nat,
                        special,
                    ) {
                    let main = (n - special) as nat;
                    assert(arith::divides(beta as nat, main));
                    assert(minimum_main_multiple * beta > maximum_main_candidate)
                        by (nonlinear_arith)
                        requires
                            minimum_main_multiple > maximum_main_candidate / beta,
                            beta > 0,
                    ;
                }
            }
        }
        return None;
    }
    proof {
        assert(minimum_main_multiple * beta <= maximum_main_candidate) by (nonlinear_arith)
            requires
                minimum_main_multiple <= maximum_main_candidate / beta,
                beta > 0,
        ;
        assert(minimum_main_multiple * beta >= minimum_main_candidate) by (nonlinear_arith)
            requires
                minimum_main_candidate == beta * (minimum_main_candidate / beta) + remainder,
                0 <= remainder < beta,
                remainder == 0 ==> minimum_main_multiple == minimum_main_candidate / beta,
                    remainder != 0 ==> minimum_main_multiple == minimum_main_candidate / beta + 1,
        ;
        lemma_mod_multiples_basic(minimum_main_multiple as int, beta as int);
    }
    let first_main_len: usize = minimum_main_multiple * beta;
    let mut main_len: usize = first_main_len;
    let gcd: usize = greatest_common_divisor(beta, fallback_period);
    let residue_cycle_len: usize = fallback_period / gcd;
    let mut step: usize = 0;
    while step < residue_cycle_len && main_len <= maximum_main_candidate
        invariant
            alpha >= 1,
            beta >= 2,
            alpha * beta <= minimum_main_candidate <= first_main_len <= main_len,
            minimum_special_len >= lower,
            minimum_special_len >= 2 * fallback_bucket_width,
            maximum_main_candidate == n - minimum_special_len,
            minimum_main_candidate >= n - upper,
            minimum_special_len <= n,
            fallback_bucket_width >= 1,
            main_len == first_main_len + step * beta,
            arith::divides(beta as nat, main_len as nat),
            step <= residue_cycle_len,
            forall|special: nat|
                n - special < main_len ==> !#[trigger] compatible_special(
                        n as nat,
                        lower as nat,
                        upper as nat,
                        alpha as nat,
                        beta as nat,
                        fallback_bucket_width as nat,
                        special,
                    ),
            forall|k: nat|
                k < step ==> !arith::divides(
                    fallback_bucket_width as nat,
                    (n - (first_main_len + #[trigger] (k * beta))) as nat / 2,
                ),
        decreases residue_cycle_len - step,
    {
        let special_len: usize = n - main_len;
        let fallback_len: usize = special_len / 2;
        if fallback_len >= fallback_bucket_width && fallback_len % fallback_bucket_width == 0 {
            let total_buckets: usize = main_len / beta;
            proof {
                assert(total_buckets >= alpha) by (nonlinear_arith)
                    requires
                        alpha * beta <= main_len,
                        total_buckets == main_len / beta,
                        beta > 0,
                ;
                assert(compatible_special(
                        n as nat,
                        lower as nat,
                        upper as nat,
                        alpha as nat,
                        beta as nat,
                        fallback_bucket_width as nat,
                        special_len as nat,
                    ));
            }
            return match nearest_feasible_first_count(total_buckets, alpha) {
                Some(first) => Some((special_len, first)),
                None => None,
            };
        }
        proof {
            let here = main_len as nat;
            assert forall|special: nat|
                n - special < here + beta implies !#[trigger] compatible_special(
                        n as nat,
                        lower as nat,
                        upper as nat,
                        alpha as nat,
                        beta as nat,
                        fallback_bucket_width as nat,
                        special,
                    ) by {
                if compatible_special(
                        n as nat,
                        lower as nat,
                        upper as nat,
                        alpha as nat,
                        beta as nat,
                        fallback_bucket_width as nat,
                        special,
                    ) {
                    let main = (n - special) as nat;
                    assert(arith::divides(beta as nat, main));
                    let steps = lemma_steps_between(beta as nat, here, main);
                    assert(steps == 0) by (nonlinear_arith)
                        requires
                            main == here + steps * beta,
                            main < here + beta,
                            beta > 0,
                            steps >= 0,
                    ;
                }
            }
            lemma_mod_add_multiples_vanish(main_len as int, beta as int);
            assert((step + 1) * beta == step * beta + beta) by (nonlinear_arith);
        }
        match main_len.checked_add(beta) {
            None => {
                proof {
                    assert forall|special: nat| !#[trigger] compatible_special(
                            n as nat,
                            lower as nat,
                            upper as nat,
                            alpha as nat,
                            beta as nat,
                            fallback_bucket_width as nat,
                            special,
                        ) by {
                        assert(n - special < main_len + beta);
                    }
                }
                return None;
            },
            Some(next_main_len) => {
                main_len = next_main_len;
            },
        }
        step = step + 1;
    }
    proof {
        assert forall|special: nat| !#[trigger] compatible_special(
                n as nat,
                lower as nat,
                upper as nat,
                alpha as nat,
                beta as nat,
                fallback_bucket_width as nat,
                special,
            ) by {
            if compatible_special(
                    n as nat,
                    lower as nat,
                    upper as nat,
                    alpha as nat,
                    beta as nat,
                    fallback_bucket_width as nat,
                    special,
                ) {
                let main = (n - special) as nat;
                assert(arith::divides(beta as nat, main));
                assert(main <= maximum_main_candidate);
                if step >= residue_cycle_len {
                    let cycle = residue_cycle_len as nat;
                    lemma_mod_is_zero(fallback_period as nat, gcd as nat);
                    assert(cycle > 0) by (nonlinear_arith)
                        requires
                            gcd <= fallback_period,
                            gcd > 0,
                            cycle == fallback_period as nat / gcd as nat,
                    ;
                    let steps = lemma_steps_between(beta as nat, first_main_len as nat, main);
                    let cycles = steps / cycle;
                    let near = steps % cycle;
                    lemma_fundamental_div_mod(steps as int, cycle as int);
                    lemma_mod_bound(steps as int, cycle as int);
                    assert(steps * beta == near * beta + cycles * (cycle * beta))
                        by (nonlinear_arith)
                        requires
                            steps == cycle * cycles + near,
                    ;
                    lemma_residue_cycle(
                        n as nat,
                        beta as nat,
                        fallback_bucket_width as nat,
                        gcd as nat,
                        cycle,
                        (first_main_len + near * beta) as nat,
                        cycles,
                    );
                    assert(!arith::divides(
                        fallback_bucket_width as nat,
                        (n - (first_main_len + near * beta)) as nat / 2,
                    ));
                }
            }
        }
    }
    None
}

/// Exact fixed-size inputs of both geometries.
///
/// `delta` is represented as `1 / 2^reserve_exponent`; no floating-point value
/// is constructed or sanitized.
#[derive(Clone, Copy, Debug, Eq, PartialEq, Structural)]
pub struct PaperConfig {
    /// The paper array size `n`.
    pub n: usize,
    /// The exponent in the exact representation `delta = 1 / 2^d`.
    pub reserve_exponent: u32,
}

impl PaperConfig {
    /// At least two slots, and a fraction below one.
    pub open spec fn wf(self) -> bool {
        self.n >= 2 && self.reserve_exponent >= 1
    }

    /// `n - floor(delta * n)`.
    pub open spec fn target(self) -> int {
        self.n - self.n as nat / pow2(self.reserve_exponent as nat)
    }

    /// `ceil(delta * n / 2)`.
    pub open spec fn special_lower(self) -> nat {
        arith::ceil_div(self.n as nat, pow2(self.reserve_exponent as nat + 1))
    }

    /// `floor(3 * delta * n / 4)`.
    pub open spec fn special_upper(self) -> nat {
        (3 * self.n as nat) / pow2(self.reserve_exponent as nat + 2)
    }

    /// The ordinary level count.
    pub open spec fn alpha(self) -> nat {
        4 * self.reserve_exponent as nat + 10
    }

    /// The ordinary bucket length.
    pub open spec fn beta(self) -> nat {
        2 * self.reserve_exponent as nat
    }

    /// The fallback bucket width.
    pub open spec fn fallback_width(self) -> nat {
        2 * loglog(self.n as nat)
    }

    /// Whether a special length completes the Funnel layout of this configuration.
    pub open spec fn compatible(self, special: nat) -> bool {
        compatible_special(
            self.n as nat,
            self.special_lower(),
            self.special_upper(),
            self.alpha(),
            self.beta(),
            self.fallback_width(),
            special,
        )
    }

    /// Whether a special length is the largest that completes the Funnel layout.
    pub open spec fn largest_compatible(self, special: nat) -> bool {
        &&& self.compatible(special)
        &&& forall|other: nat| #[trigger] self.compatible(other) ==> other <= special
    }

    /// Validates exact experiment inputs: at least two slots and a positive exponent.
    pub fn new(n: usize, reserve_exponent: u32) -> (result: Result<Self, ConfigError>)
        ensures
            n < 2 ==> result == Err::<Self, _>(ConfigError::NTooSmall { n }),
            n >= 2 && reserve_exponent == 0 ==> result == Err::<Self, _>(
                ConfigError::ExponentZero,
            ),
            n >= 2 && reserve_exponent != 0 ==> result == Ok::<Self, ConfigError>(
                PaperConfig { n, reserve_exponent },
            ) && result->Ok_0.wf(),
    {
        if n < 2 {
            return Err(ConfigError::NTooSmall { n });
        }
        if reserve_exponent == 0 {
            return Err(ConfigError::ExponentZero);
        }
        Ok(PaperConfig { n, reserve_exponent })
    }

    /// Returns the paper array size `n`.
    #[must_use]
    pub fn n(&self) -> (result: usize)
        ensures
            result == self.n,
    {
        self.n
    }

    /// Returns the exponent in the exact representation `delta = 1 / 2^d`.
    #[must_use]
    pub fn reserve_exponent(&self) -> (result: u32)
        ensures
            result == self.reserve_exponent,
    {
        self.reserve_exponent
    }

    /// Returns `floor(delta * n)` using exact integer arithmetic.
    #[must_use]
    pub fn floor_delta_n(&self) -> (result: usize)
        ensures
            result as nat == self.n as nat / pow2(self.reserve_exponent as nat),
            result <= self.n,
    {
        floor_div_pow2(self.n, self.reserve_exponent as u64)
    }

    /// Returns the paper experiment's exact insertion count.
    #[must_use]
    pub fn target_insertions(&self) -> (result: usize)
        ensures
            result == self.target(),
            result <= self.n,
    {
        self.n - self.floor_delta_n()
    }

    /// Reports the Elastic theorem's unquantified asymptotic precondition.
    ///
    /// The paper's `delta > O(1/n)` precondition does not specify a concrete
    /// constant, so this deliberately does not claim applicability.
    #[must_use]
    pub fn elastic_domain_status(&self) -> (result: TheoremDomainStatus)
        ensures
            result == TheoremDomainStatus::UnquantifiedAsymptoticPrecondition,
    {
        TheoremDomainStatus::UnquantifiedAsymptoticPrecondition
    }

    /// Checks Funnel's concrete `delta <= 1/8` restriction and reports the
    /// remaining unquantified asymptotic precondition.
    pub fn funnel_domain_status(&self) -> (result: Result<TheoremDomainStatus, FunnelDomainError>)
        ensures
            self.reserve_exponent < 3 ==> result == Err::<TheoremDomainStatus, _>(
                FunnelDomainError::ExponentBelowMinimum {
                    reserve_exponent: self.reserve_exponent,
                    minimum: 3,
                },
            ),
            self.reserve_exponent >= 3 ==> result == Ok::<_, FunnelDomainError>(
                TheoremDomainStatus::UnquantifiedAsymptoticPrecondition,
            ),
    {
        if self.reserve_exponent < 3 {
            return Err(
                FunnelDomainError::ExponentBelowMinimum {
                    reserve_exponent: self.reserve_exponent,
                    minimum: 3,
                },
            );
        }
        Ok(TheoremDomainStatus::UnquantifiedAsymptoticPrecondition)
    }

    /// What [`PaperConfig::funnel_plan`] answers.
    pub open spec fn is_funnel_plan(self, result: Result<FunnelPlan, FunnelPlanError>) -> bool {
        if self.reserve_exponent < 3 {
            result == Err::<FunnelPlan, _>(
                FunnelPlanError::Domain(
                    FunnelDomainError::ExponentBelowMinimum {
                        reserve_exponent: self.reserve_exponent,
                        minimum: 3,
                    },
                ),
            )
        } else if self.alpha() > usize::MAX {
            result == Err::<FunnelPlan, _>(
                FunnelPlanError::DerivedParameterOverflow {
                    parameter: FunnelPlanParameter::Alpha,
                    reserve_exponent: self.reserve_exponent,
                },
            )
        } else if exists|special: nat| #[trigger] self.compatible(special) {
            result matches Ok(plan) && plan.wf() && plan.config == self
        } else {
            result == Err::<FunnelPlan, _>(
                FunnelPlanError::NoCompatibleSpecialLayout {
                    lower: self.special_lower() as usize,
                    upper: self.special_upper() as usize,
                    beta: self.beta() as usize,
                    loglog_ceiling: loglog(self.n as nat) as usize,
                    fallback_bucket_width: self.fallback_width() as usize,
                },
            )
        }
    }

    /// Creates a pure logical Funnel geometry plan.
    ///
    /// Refused when the concrete Funnel domain is not met, when a derived
    /// parameter overflows, and when the paper's special-array interval has no
    /// length that completes the layout.
    pub fn funnel_plan(&self) -> (result: Result<FunnelPlan, FunnelPlanError>)
        requires
            self.wf(),
        ensures
            self.is_funnel_plan(result),
    {
        match self.funnel_domain_status() {
            Err(error) => {
                return Err(FunnelPlanError::Domain(error));
            },
            Ok(_) => {},
        }
        let wide_alpha: u64 = 4 * (self.reserve_exponent as u64) + 10;
        if wide_alpha > usize::MAX as u64 {
            return Err(
                FunnelPlanError::DerivedParameterOverflow {
                    parameter: FunnelPlanParameter::Alpha,
                    reserve_exponent: self.reserve_exponent,
                },
            );
        }
        let alpha: usize = wide_alpha as usize;
        let beta: usize = (2 * (self.reserve_exponent as u64)) as usize;
        let bound_exponent: u64 = self.reserve_exponent as u64;
        let lower: usize = ceil_div_pow2(self.n, bound_exponent + 1);
        let upper: usize = floor_three_div_pow2(self.n, bound_exponent + 2);
        let loglog_ceiling: usize = base_two_loglog_ceiling(self.n);
        let fallback_bucket_width: usize = 2 * loglog_ceiling;
        match largest_compatible_special_layout(
            self.n,
            lower,
            upper,
            alpha,
            beta,
            fallback_bucket_width,
        ) {
            Some((special_len, first_bucket_count)) => {
                proof {
                    assert(self.compatible(special_len as nat));
                    assert forall|other: nat| #[trigger] self.compatible(other) implies other
                        <= special_len by {
                        assert(compatible_special(
                            self.n as nat,
                            lower as nat,
                            upper as nat,
                            alpha as nat,
                            beta as nat,
                            fallback_bucket_width as nat,
                            other,
                        ));
                    }
                }
                Ok(
                    FunnelPlan {
                        config: *self,
                        alpha,
                        beta,
                        loglog_ceiling,
                        fallback_bucket_width,
                        special_len,
                        first_bucket_count,
                    },
                )
            },
            None => {
                proof {
                    assert forall|special: nat| !#[trigger] self.compatible(special) by {
                        assert(!compatible_special(
                            self.n as nat,
                            lower as nat,
                            upper as nat,
                            alpha as nat,
                            beta as nat,
                            fallback_bucket_width as nat,
                            special,
                        ));
                    }
                }
                Err(
                    FunnelPlanError::NoCompatibleSpecialLayout {
                        lower,
                        upper,
                        beta,
                        loglog_ceiling,
                        fallback_bucket_width,
                    },
                )
            },
        }
    }

    /// Creates a pure logical Elastic geometry and batch plan.
    #[must_use]
    pub fn elastic_plan(&self) -> (result: ElasticPlan)
        ensures
            result.config == *self,
    {
        ElasticPlan { config: *self }
    }
}

/// The exact base-two finite value `max(1, ceil(log2(ceil(log2(n)))))`.
pub fn base_two_loglog_ceiling(n: usize) -> (result: usize)
    ensures
        result as nat == loglog(n as nat),
        1 <= result <= 64,
{
    let exponent: usize = ceil_log2(ceil_log2(n));
    if exponent == 0 {
        1
    } else {
        exponent
    }
}

/// A pure logical Funnel geometry plan.
///
/// No table or region storage is allocated. Among valid sequences of ordinary
/// bucket counts, construction chooses a first count nearest the real-valued
/// estimate `total_buckets / 4`, preferring the smaller count on an exact tie.
/// Later counts use the largest valid value that still permits the residual
/// bucket sum, making the remaining tie-break lexicographically largest.
#[derive(Clone, Copy, Debug, Eq, PartialEq, Structural)]
pub struct FunnelPlan {
    /// The validated inputs.
    pub config: PaperConfig,
    /// The ordinary-level count.
    pub alpha: usize,
    /// The slots per ordinary bucket.
    pub beta: usize,
    /// `max(1, ceil(log2(ceil(log2(n)))))`.
    pub loglog_ceiling: usize,
    /// The slots per fallback bucket.
    pub fallback_bucket_width: usize,
    /// The slots of the special array.
    pub special_len: usize,
    /// The buckets of the first ordinary level.
    pub first_bucket_count: usize,
}

impl FunnelPlan {
    /// The plan holds the parameters, the largest compatible special length
    /// and the nearest first count of its configuration.
    pub open spec fn wf(self) -> bool {
        &&& self.config.wf()
        &&& self.config.reserve_exponent >= 3
        &&& self.alpha as nat == self.config.alpha()
        &&& self.beta as nat == self.config.beta()
        &&& self.loglog_ceiling as nat == loglog(self.config.n as nat)
        &&& self.fallback_bucket_width as nat == self.config.fallback_width()
        &&& self.config.largest_compatible(self.special_len as nat)
        &&& partition::is_nearest_first(
            self.first_bucket_count as nat,
            self.alpha as nat,
            self.total_buckets(),
        )
    }

    /// The ordinary buckets of all levels.
    pub open spec fn total_buckets(self) -> nat {
        (self.config.n - self.special_len) as nat / self.beta as nat
    }

    /// The bucket counts of the ordinary levels.
    pub open spec fn counts(self) -> Seq<nat> {
        partition::bucket_counts(
            self.first_bucket_count as nat,
            self.alpha as nat,
            self.total_buckets(),
        )
    }

    /// Returns the validated inputs used by this plan.
    #[must_use]
    pub fn config(&self) -> (result: PaperConfig)
        ensures
            result == self.config,
    {
        self.config
    }

    /// Returns the ordinary-level count `alpha = 4 * reserve_exponent + 10`.
    #[must_use]
    pub fn alpha(&self) -> (result: usize)
        ensures
            result == self.alpha,
    {
        self.alpha
    }

    /// Returns the logical slots per ordinary bucket, `beta = 2 * reserve_exponent`.
    #[must_use]
    pub fn beta(&self) -> (result: usize)
        ensures
            result == self.beta,
    {
        self.beta
    }

    /// Returns the exact base-two finite value `max(1, ceil(log2(ceil(log2(n)))))`.
    #[must_use]
    pub fn loglog_ceiling(&self) -> (result: usize)
        ensures
            result == self.loglog_ceiling,
    {
        self.loglog_ceiling
    }

    /// Returns the special fallback's exact bucket width, `2 * loglog_ceiling`.
    #[must_use]
    pub fn fallback_bucket_width(&self) -> (result: usize)
        ensures
            result == self.fallback_bucket_width,
    {
        self.fallback_bucket_width
    }

    /// Returns the logical length of special array `A_(alpha + 1)`.
    #[must_use]
    pub fn special_len(&self) -> (result: usize)
        ensures
            result == self.special_len,
    {
        self.special_len
    }

    /// Returns `B = ceil(special_len / 2)`, the special primary length.
    #[must_use]
    pub fn special_primary_len(&self) -> (result: usize)
        ensures
            result as nat == arith::ceil_div(self.special_len as nat, 2),
    {
        self.special_len / 2 + self.special_len % 2
    }

    /// Returns `C = floor(special_len / 2)`, the special fallback length.
    #[must_use]
    pub fn special_fallback_len(&self) -> (result: usize)
        ensures
            result == self.special_len / 2,
    {
        self.special_len / 2
    }

    /// Returns the positive number of complete equal-width fallback buckets.
    #[must_use]
    pub fn fallback_bucket_count(&self) -> (result: usize)
        requires
            self.wf(),
        ensures
            result * self.fallback_bucket_width == self.special_len / 2,
            result > 0,
    {
        proof {
            lemma_fundamental_div_mod(
                (self.special_len / 2) as int,
                self.fallback_bucket_width as int,
            );
            lemma_mul_is_commutative(
                self.fallback_bucket_width as int,
                (self.special_len / 2) as int / self.fallback_bucket_width as int,
            );
            lemma_div_non_zero((self.special_len / 2) as int, self.fallback_bucket_width as int);
        }
        self.special_fallback_len() / self.fallback_bucket_width
    }

    /// Iterates over exact positive bucket counts for ordinary levels
    /// `A_1, ..., A_alpha`.
    #[must_use]
    pub fn ordinary_bucket_counts(&self) -> (result: FunnelBucketCounts)
        requires
            self.wf(),
        ensures
            result.wf(),
            result.remaining() == self.counts(),
            result.total() == self.total_buckets(),
    {
        FunnelBucketCounts {
            next_count: Some(self.first_bucket_count),
            remaining_sum: (self.config.n - self.special_len) / self.beta,
            remaining_levels: self.alpha,
        }
    }

    /// Iterates over each ordinary level's exact logical slot length.
    #[must_use]
    pub fn ordinary_level_lengths(&self) -> (result: FunnelLevelLengths)
        requires
            self.wf(),
        ensures
            result.wf(),
            result.remaining() == self.counts().map_values(|count: nat| count * self.beta as nat),
    {
        proof {
            lemma_fundamental_div_mod(
                (self.config.n - self.special_len) as int,
                self.beta as int,
            );
            lemma_mul_is_commutative(self.total_buckets() as int, self.beta as int);
        }
        FunnelLevelLengths { counts: self.ordinary_bucket_counts(), beta: self.beta }
    }
}

/// Iterator over the bucket counts of the ordinary Funnel levels.
#[derive(Clone, Copy, Debug)]
pub struct FunnelBucketCounts {
    next_count: Option<usize>,
    remaining_sum: usize,
    remaining_levels: usize,
}

impl FunnelBucketCounts {
    /// A feasible next count while levels remain, and nothing left after them.
    pub closed spec fn wf(self) -> bool {
        match self.next_count {
            Some(count) => self.remaining_levels >= 1 && count >= 1 && partition::feasible(
                count as nat,
                self.remaining_levels as nat,
                self.remaining_sum as nat,
            ),
            None => self.remaining_levels == 0 && self.remaining_sum == 0,
        }
    }

    /// The counts still to come.
    pub closed spec fn remaining(self) -> Seq<nat> {
        match self.next_count {
            Some(count) => partition::bucket_counts(
                count as nat,
                self.remaining_levels as nat,
                self.remaining_sum as nat,
            ),
            None => Seq::empty(),
        }
    }

    /// The buckets that the counts still to come sum to.
    pub closed spec fn total(self) -> nat {
        self.remaining_sum as nat
    }

    /// The next count, or `None` after the last one.
    pub fn next(&mut self) -> (result: Option<usize>)
        requires
            old(self).wf(),
        ensures
            final(self).wf(),
            match result {
                Some(count) => old(self).remaining().len() > 0 && count as nat == old(
                    self,
                ).remaining()[0] && final(self).remaining() == old(self).remaining().drop_first()
                    && final(self).total() == old(self).total() - count && count <= old(
                    self,
                ).total(),
                None => old(self).remaining().len() == 0 && *final(self) == *old(self),
            },
    {
        let count: usize = match self.next_count {
            None => {
                return None;
            },
            Some(count) => count,
        };
        let ghost levels = self.remaining_levels as nat;
        let ghost total = self.remaining_sum as nat;
        proof {
            partition::law_bucket_counts_are_a_partition(count as nat, levels, total);
            partition::law_small_totals_are_infeasible(count as nat, levels, total);
        }
        let remaining_sum: usize = self.remaining_sum - count;
        let remaining_levels: usize = self.remaining_levels - 1;
        self.next_count = if remaining_levels == 0 {
            proof {
                reveal_with_fuel(partition::min_path, 2);
                reveal_with_fuel(partition::max_path, 2);
                assert(partition::bucket_counts(count as nat, 1, total).drop_first()
                    =~= Seq::<nat>::empty());
            }
            None
        } else {
            proof {
                partition::lemma_largest_feasible_next(
                    count as nat,
                    remaining_levels as nat,
                    total,
                );
            }
            let next: Option<usize> = select_largest_feasible_next(
                count,
                remaining_sum,
                remaining_levels,
            );
            proof {
                let chosen = partition::largest_feasible_next(
                    count as nat,
                    remaining_levels as nat,
                    remaining_sum as nat,
                );
                assert(partition::adjacent(count as nat, chosen));
                partition::lemma_largest_unique(
                    count as nat,
                    remaining_levels as nat,
                    remaining_sum as nat,
                    next->0 as nat,
                );
                assert(partition::bucket_counts(count as nat, levels, total).drop_first()
                    =~= partition::bucket_counts(
                    next->0 as nat,
                    remaining_levels as nat,
                    remaining_sum as nat,
                ));
            }
            next
        };
        self.remaining_sum = remaining_sum;
        self.remaining_levels = remaining_levels;
        Some(count)
    }

    /// The number of counts still to come.
    pub fn len(&self) -> (result: usize)
        requires
            self.wf(),
        ensures
            result == self.remaining().len(),
    {
        proof {
            match self.next_count {
                Some(count) => {
                    partition::law_bucket_counts_are_a_partition(
                        count as nat,
                        self.remaining_levels as nat,
                        self.remaining_sum as nat,
                    );
                },
                None => {},
            }
        }
        self.remaining_levels
    }

    /// All counts still to come.
    pub fn collect(self) -> (result: Vec<usize>)
        requires
            self.wf(),
        ensures
            result@.map_values(|count: usize| count as nat) == self.remaining(),
    {
        let mut counts = self;
        let mut collected: Vec<usize> = Vec::new();
        loop
            invariant
                counts.wf(),
                collected@.map_values(|count: usize| count as nat) + counts.remaining()
                    == self.remaining(),
            ensures
                collected@.map_values(|count: usize| count as nat) == self.remaining(),
            decreases counts.remaining().len(),
        {
            let ghost before = counts.remaining();
            let ghost taken = collected@.map_values(|count: usize| count as nat);
            match counts.next() {
                None => {
                    assert(taken + before =~= taken);
                    break;
                },
                Some(count) => {
                    collected.push(count);
                    proof {
                        assert(collected@.map_values(|count: usize| count as nat) =~= taken.push(
                            count as nat,
                        ));
                        assert(taken.push(count as nat) + before.drop_first() =~= taken + before);
                    }
                },
            }
        }
        collected
    }
}

/// Iterator over the slot lengths of the ordinary Funnel levels.
#[derive(Clone, Copy, Debug)]
pub struct FunnelLevelLengths {
    counts: FunnelBucketCounts,
    beta: usize,
}

impl FunnelLevelLengths {
    /// The slots of all levels still to come are representable.
    pub closed spec fn wf(self) -> bool {
        self.counts.wf() && self.counts.total() * self.beta <= usize::MAX
    }

    /// The lengths still to come.
    pub closed spec fn remaining(self) -> Seq<nat> {
        self.counts.remaining().map_values(|count: nat| count * self.beta as nat)
    }

    /// The next length, or `None` after the last one.
    pub fn next(&mut self) -> (result: Option<usize>)
        requires
            old(self).wf(),
        ensures
            final(self).wf(),
            match result {
                Some(length) => old(self).remaining().len() > 0 && length as nat == old(
                    self,
                ).remaining()[0] && final(self).remaining() == old(self).remaining().drop_first(),
                None => old(self).remaining().len() == 0 && *final(self) == *old(self),
            },
    {
        let ghost before = self.counts.total();
        match self.counts.next() {
            None => None,
            Some(count) => {
                proof {
                    assert(count * self.beta + self.counts.total() * self.beta == before
                        * self.beta) by (nonlinear_arith)
                        requires
                            before == count + self.counts.total(),
                    ;
                    assert(self.counts.total() * self.beta >= 0 && count * self.beta >= 0)
                        by (nonlinear_arith);
                    assert(self.remaining() =~= old(self).remaining().drop_first());
                }
                Some(count * self.beta)
            },
        }
    }

    /// The number of lengths still to come.
    pub fn len(&self) -> (result: usize)
        requires
            self.wf(),
        ensures
            result == self.remaining().len(),
    {
        self.counts.len()
    }

    /// All lengths still to come.
    pub fn collect(self) -> (result: Vec<usize>)
        requires
            self.wf(),
        ensures
            result@.map_values(|length: usize| length as nat) == self.remaining(),
    {
        let mut lengths = self;
        let mut collected: Vec<usize> = Vec::new();
        loop
            invariant
                lengths.wf(),
                collected@.map_values(|length: usize| length as nat) + lengths.remaining()
                    == self.remaining(),
            ensures
                collected@.map_values(|length: usize| length as nat) == self.remaining(),
            decreases lengths.remaining().len(),
        {
            let ghost before = lengths.remaining();
            let ghost taken = collected@.map_values(|length: usize| length as nat);
            match lengths.next() {
                None => {
                    assert(taken + before =~= taken);
                    break;
                },
                Some(length) => {
                    collected.push(length);
                    proof {
                        assert(collected@.map_values(|length: usize| length as nat)
                            =~= taken.push(length as nat));
                        assert(taken.push(length as nat) + before.drop_first() =~= taken + before);
                    }
                },
            }
        }
        collected
    }
}

/// The ordinary counts of a plan: `alpha` many, positive, each within one of
/// three quarters of the one before and not larger, and together all the slots
/// that the special array leaves.
pub proof fn law_funnel_plan_tiles_the_array(plan: FunnelPlan)
    requires
        plan.wf(),
    ensures
        plan.counts().len() == plan.alpha,
        partition::is_partition(plan.counts(), plan.total_buckets()),
        plan.total_buckets() * plan.beta + plan.special_len == plan.config.n,
        plan.special_len <= plan.config.n,
{
    partition::law_bucket_counts_are_a_partition(
        plan.first_bucket_count as nat,
        plan.alpha as nat,
        plan.total_buckets(),
    );
    let main = (plan.config.n - plan.special_len) as int;
    lemma_fundamental_div_mod(main, plan.beta as int);
    lemma_mul_is_commutative(plan.total_buckets() as int, plan.beta as int);
}

/// Two plans of one configuration are the same plan.
pub proof fn law_funnel_plan_is_unique(left: FunnelPlan, right: FunnelPlan)
    requires
        left.wf(),
        right.wf(),
        left.config == right.config,
    ensures
        left == right,
{
    assert(left.config.compatible(right.special_len as nat));
    assert(right.config.compatible(left.special_len as nat));
    assert(partition::feasible(
        left.first_bucket_count as nat,
        left.alpha as nat,
        left.total_buckets(),
    ));
    assert(partition::feasible(
        right.first_bucket_count as nat,
        left.alpha as nat,
        left.total_buckets(),
    ));
}

/// The double logarithm of a count is the least positive `k` with `n <= 2^(2^k)`.
pub proof fn law_loglog_is_least(n: nat)
    requires
        n >= 2,
    ensures
        loglog(n) >= 1,
        n <= pow2(pow2(loglog(n))),
        loglog(n) > 1 ==> n > pow2(pow2((loglog(n) - 1) as nat)),
{
    let log = arith::log2_ceiling(n);
    lemma2_to64();
    crate::elastic_plan::lemma_ceil_log2_exists(n);
    assert(n <= pow2(log));
    if log >= 2 {
        crate::elastic_plan::lemma_ceil_log2_exists(log);
    }
    let k = loglog(n);
    assert(log <= pow2(k)) by {
        if log <= 1 {
            assert(k == 1) by {
                if log == 1 {
                    assert(arith::is_ceil_log2(1, 0));
                }
            }
        }
    }
    arith::lemma_pow2_monotone(log, pow2(k));
    if k > 1 {
        assert(pow2((k - 1) as nat) < log);
        arith::lemma_pow2_monotone(pow2((k - 1) as nat), (log - 1) as nat);
    }
}

} // verus!
