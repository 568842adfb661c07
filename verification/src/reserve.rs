//! The exact dyadic reserve fraction.

use vstd::arithmetic::div_mod::*;
use vstd::arithmetic::mul::*;
use vstd::arithmetic::power2::*;
use vstd::prelude::*;

use crate::arith::{self, exact_log2, floor_div_pow2};

verus! {

/// A reserve fraction cannot be represented by the exact dyadic model.
#[derive(Clone, Copy, Debug, Eq, PartialEq, Structural)]
pub enum ReserveFractionError {
    /// Exponent zero would represent one, outside the open unit interval.
    ExponentZero,
    /// A floating-point input was NaN or infinite.
    NonFinite,
    /// A floating-point input was zero or negative.
    NonPositive,
    /// A floating-point input was at least one.
    NotBelowOne,
    /// A floating-point input was not exactly `1 / 2^d`.
    NotInversePowerOfTwo,
}

impl ReserveFractionError {
    /// The error's message.
    pub open spec fn spec_message(self) -> Seq<char> {
        match self {
            ReserveFractionError::ExponentZero => "reserve exponent must be positive"@,
            ReserveFractionError::NonFinite => "reserve fraction must be finite"@,
            ReserveFractionError::NonPositive => "reserve fraction must be positive"@,
            ReserveFractionError::NotBelowOne => "reserve fraction must be less than one"@,
            ReserveFractionError::NotInversePowerOfTwo => {
                "reserve fraction must be an exact inverse power of two"@
            },
        }
    }

    /// A human-readable description of the error.
    pub fn message(self) -> (result: &'static str)
        ensures
            result@ == self.spec_message(),
    {
        match self {
            ReserveFractionError::ExponentZero => "reserve exponent must be positive",
            ReserveFractionError::NonFinite => "reserve fraction must be finite",
            ReserveFractionError::NonPositive => "reserve fraction must be positive",
            ReserveFractionError::NotBelowOne => "reserve fraction must be less than one",
            ReserveFractionError::NotInversePowerOfTwo => {
                "reserve fraction must be an exact inverse power of two"
            },
        }
    }
}

/// The sign bit of a binary64 pattern.
pub open spec fn sign_bit(bits: u64) -> bool {
    bits >= 0x8000_0000_0000_0000
}

/// The biased exponent field of a binary64 pattern.
pub open spec fn biased_exponent(bits: u64) -> nat {
    (bits as nat / 0x0010_0000_0000_0000) % 2048
}

/// The fraction field of a binary64 pattern.
pub open spec fn significand(bits: u64) -> nat {
    bits as nat % 0x0010_0000_0000_0000
}

/// The magnitude of a finite binary64 pattern in units of `2^-1074`.
pub open spec fn scaled_magnitude(bits: u64) -> nat {
    if biased_exponent(bits) == 0 {
        significand(bits)
    } else {
        (0x0010_0000_0000_0000 + significand(bits)) * pow2((biased_exponent(bits) - 1) as nat)
    }
}

/// Whether a finite binary64 pattern of positive sign denotes `1 / 2^exponent`.
pub open spec fn denotes_inverse_pow2(bits: u64, exponent: nat) -> bool {
    !sign_bit(bits) && scaled_magnitude(bits) * pow2(exponent) == pow2(1074)
}

/// Why a binary64 pattern denotes no fraction `1 / 2^d` with `d > 0`, if so.
pub open spec fn pattern_error(bits: u64) -> Option<ReserveFractionError> {
    if biased_exponent(bits) == 2047 {
        Some(ReserveFractionError::NonFinite)
    } else if sign_bit(bits) || scaled_magnitude(bits) == 0 {
        Some(ReserveFractionError::NonPositive)
    } else if scaled_magnitude(bits) >= pow2(1074) {
        Some(ReserveFractionError::NotBelowOne)
    } else if exists|d: nat| #[trigger] denotes_inverse_pow2(bits, d) {
        None
    } else {
        Some(ReserveFractionError::NotInversePowerOfTwo)
    }
}

/// An exact dyadic reserve fraction `delta = 1 / 2^d`.
///
/// The exponent is stored directly so capacity calculations never depend on
/// floating-point rounding.
#[derive(Clone, Copy, Debug, Eq, Hash, Ord, PartialEq, PartialOrd, Structural)]
pub struct ReserveFraction {
    exponent: u32,
}

/// The default reserve fraction is `1/8`.
impl Default for ReserveFraction {
    fn default() -> (result: Self)
        ensures
            result.d() == 3,
            result.wf(),
    {
        ReserveFraction { exponent: 3 }
    }
}

impl ReserveFraction {
    /// The exponent `d` of `delta = 1 / 2^d`.
    pub closed spec fn d(self) -> u32 {
        self.exponent
    }

    /// A fraction below one has a positive exponent.
    pub open spec fn wf(self) -> bool {
        self.d() > 0
    }

    /// `floor(delta * n)`.
    pub open spec fn reserved(self, n: nat) -> nat {
        n / pow2(self.d() as nat)
    }

    /// Creates `delta = 1 / 2^exponent`.
    ///
    /// Exponent zero would represent `delta = 1` rather than a fraction below
    /// one, and is refused.
    pub fn from_exponent(exponent: u32) -> (result: Result<Self, ReserveFractionError>)
        ensures
            exponent == 0 ==> result == Err::<Self, _>(ReserveFractionError::ExponentZero),
            exponent != 0 ==> (result matches Ok(fraction) && fraction.d() == exponent
                && fraction.wf()),
    {
        if exponent == 0 {
            return Err(ReserveFractionError::ExponentZero);
        }
        Ok(ReserveFraction { exponent })
    }

    /// Returns `d` from the exact representation `delta = 1 / 2^d`.
    #[must_use]
    pub fn exponent(self) -> (result: u32)
        ensures
            result == self.d(),
    {
        self.exponent
    }

    /// Returns `floor(delta * n)` using exact integer arithmetic.
    #[must_use]
    pub fn floor_reserved(self, n: usize) -> (result: usize)
        ensures
            result as nat == n as nat / pow2(self.d() as nat),
            result <= n,
    {
        floor_div_pow2(n, self.exponent as u64)
    }

    /// Returns `floor(delta * n / 2)` using exact integer arithmetic.
    #[must_use]
    pub fn floor_half_reserved(self, n: usize) -> (result: usize)
        ensures
            result as nat == n as nat / pow2(self.d() as nat + 1),
            result <= n,
    {
        floor_div_pow2(n, self.exponent as u64 + 1)
    }

    /// Returns the binary64 pattern of `delta` when one exists.
    ///
    /// Binary64 represents inverse powers of two through `2^-1074`; larger
    /// exponents return `None` rather than underflowing to zero.
    #[must_use]
    pub fn as_f64_bits(self) -> (result: Option<u64>)
        requires
            self.wf(),
        ensures
            self.d() <= 1074 ==> (result matches Some(bits) && denotes_inverse_pow2(
                bits,
                self.d() as nat,
            ) && biased_exponent(bits) < 1023),
            self.d() > 1074 ==> result is None,
    {
        proof {
            lemma2_to64();
            lemma2_to64_rest();
        }
        if self.exponent <= 1_022 {
            let biased: u64 = 1_023 - self.exponent as u64;
            let bits: u64 = biased << 52u64;
            proof {
                assert(biased << 52u64 == biased * 0x0010_0000_0000_0000) by (bit_vector)
                    requires
                        biased < 2048,
                ;
                assert(scaled_magnitude(bits) == pow2(52) * pow2((biased - 1) as nat));
                lemma_pow2_adds(52, (biased - 1) as nat);
                lemma_pow2_adds((51 + biased) as nat, self.exponent as nat);
            }
            Some(bits)
        } else if self.exponent <= 1_074 {
            let shift: u64 = 1_074 - self.exponent as u64;
            let bits: u64 = 1u64 << shift;
            proof {
                vstd::bits::lemma_u64_shl_is_mul(1, shift);
                arith::lemma_pow2_monotone(shift as nat, 51);
                lemma_pow2_adds(shift as nat, self.exponent as nat);
            }
            Some(bits)
        } else {
            None
        }
    }

    /// Reads a binary64 pattern that denotes exactly `1 / 2^d` for some `d > 0`.
    pub fn try_from_f64_bits(bits: u64) -> (result: Result<Self, ReserveFractionError>)
        ensures
            match result {
                Ok(fraction) => pattern_error(bits) is None && fraction.wf() && fraction.d() <= 1074
                    && denotes_inverse_pow2(bits, fraction.d() as nat),
                Err(error) => pattern_error(bits) == Some(error),
            },
    {
        let biased: u64 = (bits >> 52u64) & 0x7ff;
        let fraction: u64 = bits & 0x000f_ffff_ffff_ffff;
        proof {
            assert((bits >> 52u64) & 0x7ff == (bits / 0x0010_0000_0000_0000) % 2048
                && bits & 0x000f_ffff_ffff_ffff == bits % 0x0010_0000_0000_0000) by (bit_vector);
            lemma_magnitude_bounds(bits);
        }
        if biased == 0x7ff {
            return Err(ReserveFractionError::NonFinite);
        }
        if bits >= 0x8000_0000_0000_0000 || (biased == 0 && fraction == 0) {
            return Err(ReserveFractionError::NonPositive);
        }
        if biased >= 1_023 {
            return Err(ReserveFractionError::NotBelowOne);
        }
        if biased == 0 {
            match exact_log2(fraction) {
                Some(shift) => {
                    proof {
                        lemma2_to64();
                        lemma2_to64_rest();
                        arith::lemma_pow2_reflects_order(shift as nat, 52);
                        lemma_pow2_adds(shift as nat, (1074 - shift) as nat);
                        assert(denotes_inverse_pow2(bits, (1074 - shift) as nat));
                    }
                    Ok(ReserveFraction { exponent: 1_074 - shift })
                },
                None => {
                    assert forall|d: nat| !#[trigger] denotes_inverse_pow2(bits, d) by {
                        lemma_subnormal_inverse(fraction as nat, d);
                    }
                    Err(ReserveFractionError::NotInversePowerOfTwo)
                },
            }
        } else if fraction != 0 {
            assert forall|d: nat| !#[trigger] denotes_inverse_pow2(bits, d) by {
                lemma_fractional_not_inverse(fraction as nat, (biased - 1) as nat, d);
            }
            Err(ReserveFractionError::NotInversePowerOfTwo)
        } else {
            proof {
                lemma2_to64();
                lemma2_to64_rest();
                lemma_pow2_adds(52, (biased - 1) as nat);
                lemma_pow2_adds((51 + biased) as nat, (1023 - biased) as nat);
                assert(denotes_inverse_pow2(bits, (1023 - biased) as nat));
            }
            Ok(ReserveFraction { exponent: (1_023 - biased) as u32 })
        }
    }
}

/// Where the magnitude of a binary64 pattern stands with respect to zero and one.
proof fn lemma_magnitude_bounds(bits: u64)
    ensures
        scaled_magnitude(bits) == 0 <==> biased_exponent(bits) == 0 && significand(bits) == 0,
        scaled_magnitude(bits) >= pow2(1074) <==> biased_exponent(bits) >= 1023,
{
    lemma2_to64();
    lemma2_to64_rest();
    let biased = biased_exponent(bits);
    let fraction = significand(bits);
    if biased == 0 {
        arith::lemma_pow2_monotone(52, 1074);
    } else {
        let unit = pow2((biased - 1) as nat);
        lemma_pow2_pos((biased - 1) as nat);
        lemma_pow2_adds(52, (biased - 1) as nat);
        lemma_pow2_adds(53, (biased - 1) as nat);
        assert(pow2(52) * unit <= (pow2(52) + fraction) * unit < pow2(53) * unit)
            by (nonlinear_arith)
            requires
                unit > 0,
                pow2(53) == 2 * pow2(52),
                fraction < pow2(52),
        ;
        if biased >= 1023 {
            arith::lemma_pow2_monotone(1074, (51 + biased) as nat);
        } else {
            arith::lemma_pow2_monotone((52 + biased) as nat, 1074);
        }
    }
}

/// A subnormal that denotes an inverse power of two has a power of two for its fraction.
proof fn lemma_subnormal_inverse(fraction: nat, d: nat)
    requires
        forall|shift: nat| fraction != #[trigger] pow2(shift),
    ensures
        fraction * pow2(d) != pow2(1074),
{
    lemma_pow2_pos(d);
    if fraction * pow2(d) == pow2(1074) {
        if d <= 1074 {
            lemma_pow2_adds((1074 - d) as nat, d);
            assert(fraction == pow2((1074 - d) as nat)) by (nonlinear_arith)
                requires
                    fraction * pow2(d) == pow2((1074 - d) as nat) * pow2(d),
                    pow2(d) > 0,
            ;
        } else {
            lemma_pow2_strictly_increases(1074, d);
            lemma_pow2_pos(1074);
            assert(fraction * pow2(d) == 0 || fraction * pow2(d) >= pow2(d)) by (nonlinear_arith)
                requires
                    pow2(d) > 0,
            ;
        }
    }
}

/// A normal pattern with a nonzero fraction lies strictly between two powers of two.
proof fn lemma_fractional_not_inverse(fraction: nat, shift: nat, d: nat)
    requires
        0 < fraction < 0x0010_0000_0000_0000,
    ensures
        ((0x0010_0000_0000_0000 + fraction) * pow2(shift)) * pow2(d) != pow2(1074),
{
    lemma2_to64();
    lemma2_to64_rest();
    let e = shift + d;
    let whole = (0x0010_0000_0000_0000 + fraction) as nat;
    lemma_pow2_adds(shift, d);
    lemma_pow2_pos(e);
    lemma_pow2_adds(52, e);
    lemma_pow2_adds(53, e);
    lemma_mul_is_associative(whole as int, pow2(shift) as int, pow2(d) as int);
    assert(pow2(52) * pow2(e) < whole * pow2(e) < pow2(53) * pow2(e)) by (nonlinear_arith)
        requires
            pow2(52) < whole < pow2(53),
            pow2(e) > 0,
    ;
    if whole * pow2(e) == pow2(1074) {
        arith::lemma_pow2_reflects_order(52 + e, 1074);
        arith::lemma_pow2_reflects_order(1074, 53 + e);
    }
}

/// A binary64 pattern denotes at most one inverse power of two, so reading back
/// the pattern of a representable fraction gives that fraction.
pub proof fn law_f64_bits_denote_one_fraction(bits: u64, d: nat, other: nat)
    requires
        denotes_inverse_pow2(bits, d),
        denotes_inverse_pow2(bits, other),
    ensures
        d == other,
{
    lemma_pow2_pos(d);
    lemma_pow2_pos(other);
    lemma_pow2_pos(1074);
    let magnitude = scaled_magnitude(bits);
    assert(pow2(d) == pow2(other)) by (nonlinear_arith)
        requires
            magnitude * pow2(d) == pow2(1074),
            magnitude * pow2(other) == pow2(1074),
            pow2(1074) > 0,
    ;
    if d < other {
        lemma_pow2_strictly_increases(d, other);
    } else if other < d {
        lemma_pow2_strictly_increases(other, d);
    }
}

/// Every inverse power of two that a normal binary64 number is, is accepted as a fraction.
pub proof fn law_inverse_powers_are_fractions(d: nat)
    requires
        1 <= d <= 1022,
    ensures
        ({
            let bits = ((1023 - d) * 0x0010_0000_0000_0000) as u64;
            &&& pattern_error(bits) is None
            &&& denotes_inverse_pow2(bits, d)
        }),
{
    let wide = ((1023 - d) * 0x0010_0000_0000_0000) as int;
    let bits = wide as u64;
    lemma2_to64();
    lemma2_to64_rest();
    assert(bits == wide);
    assert(biased_exponent(bits) == 1023 - d);
    assert(significand(bits) == 0);
    let shift = (1022 - d) as nat;
    lemma_pow2_adds(52, shift);
    lemma_pow2_adds(52 + shift, d);
    assert(scaled_magnitude(bits) == pow2(52) * pow2(shift));
    assert(scaled_magnitude(bits) == pow2(52 + shift));
    lemma_pow2_pos(52 + shift);
    lemma_pow2_strictly_increases(52 + shift, 1074);
    assert(denotes_inverse_pow2(bits, d));
}

/// A pattern that is accepted denotes an inverse power of two below one; one that denotes
/// none is not accepted.
pub proof fn law_only_inverse_powers_are_fractions(bits: u64)
    ensures
        pattern_error(bits) is None ==> exists|d: nat| #[trigger]
            denotes_inverse_pow2(bits, d) && d >= 1,
{
    if pattern_error(bits) is None {
        let d = choose|d: nat| #[trigger] denotes_inverse_pow2(bits, d);
        assert(denotes_inverse_pow2(bits, d));
        if d == 0 {
            lemma2_to64();
            assert(scaled_magnitude(bits) * 1 == scaled_magnitude(bits));
        }
    }
}

} // verus!
