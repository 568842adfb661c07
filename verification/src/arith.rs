//! Exact division by powers of two, binary logarithms and divisors.

use vstd::arithmetic::div_mod::*;
use vstd::arithmetic::mul::*;
use vstd::arithmetic::power2::*;
use vstd::prelude::*;

verus! {

/// The smallest exponent whose power of two is at least `value`.
pub open spec fn is_ceil_log2(value: nat, exponent: nat) -> bool {
    &&& value <= pow2(exponent)
    &&& exponent > 0 ==> pow2((exponent - 1) as nat) < value
}

/// `ceil(log2(value))`, zero for values up to one.
pub open spec fn log2_ceiling(value: nat) -> nat {
    if value <= 1 {
        0
    } else {
        choose|exponent: nat| is_ceil_log2(value, exponent)
    }
}

/// `ceil(value / divisor)`.
pub open spec fn ceil_div(value: nat, divisor: nat) -> nat {
    if value % divisor == 0 {
        value / divisor
    } else {
        value / divisor + 1
    }
}

/// Whether `divisor` divides `value`.
pub open spec fn divides(divisor: nat, value: nat) -> bool {
    divisor > 0 && value % divisor == 0
}

/// Whether `divisor` divides both values.
pub open spec fn common_divisor(divisor: nat, left: nat, right: nat) -> bool {
    divides(divisor, left) && divides(divisor, right)
}

/// At most one exponent is the ceiling of a logarithm.
pub proof fn lemma_ceil_log2_unique(value: nat, exponent: nat)
    requires
        value >= 1,
        is_ceil_log2(value, exponent),
    ensures
        exponent == log2_ceiling(value),
{
    lemma2_to64();
    if value == 1 {
        if exponent > 0 {
            lemma_pow2_pos((exponent - 1) as nat);
        }
    } else {
        let chosen = log2_ceiling(value);
        assert(is_ceil_log2(value, chosen));
        if exponent < chosen {
            lemma_pow2_monotone(exponent, (chosen - 1) as nat);
        } else if chosen < exponent {
            lemma_pow2_monotone(chosen, (exponent - 1) as nat);
        }
    }
}

/// Powers of two are monotone in their exponents.
pub proof fn lemma_pow2_monotone(low: nat, high: nat)
    requires
        low <= high,
    ensures
        pow2(low) <= pow2(high),
{
    if low < high {
        lemma_pow2_strictly_increases(low, high);
    }
}

/// Ordered powers of two have ordered exponents.
pub proof fn lemma_pow2_reflects_order(low: nat, high: nat)
    requires
        pow2(low) < pow2(high),
    ensures
        low < high,
{
    if high <= low {
        lemma_pow2_monotone(high, low);
    }
}

/// A value below `2^bits` has a zero quotient by every power of two from there on.
pub proof fn lemma_small_div_pow2(value: nat, exponent: nat, bits: nat)
    requires
        value < pow2(bits),
        bits <= exponent,
    ensures
        value / pow2(exponent) == 0,
{
    lemma_pow2_pos(exponent);
    lemma_pow2_monotone(bits, exponent);
    lemma_basic_div(value as int, pow2(exponent) as int);
}

/// Every `usize` is below `2^usize::BITS`.
pub proof fn lemma_usize_below_pow2_bits(value: usize)
    ensures
        value < pow2(usize::BITS as nat),
        usize::BITS <= 64,
{
    lemma2_to64();
    lemma2_to64_rest();
}

/// `floor(value / 2^exponent)`.
pub fn floor_div_pow2(value: usize, exponent: u64) -> (result: usize)
    ensures
        result as nat == value as nat / pow2(exponent as nat),
        result <= value,
{
    proof {
        lemma_pow2_pos(exponent as nat);
        lemma_div_is_ordered_by_denominator(value as int, 1, pow2(exponent as nat) as int);
        lemma_usize_below_pow2_bits(value);
    }
    if exponent >= usize::BITS as u64 {
        proof {
            lemma_small_div_pow2(value as nat, exponent as nat, usize::BITS as nat);
        }
        0
    } else {
        let wide: u64 = value as u64;
        proof {
            vstd::bits::lemma_u64_shr_is_div(wide, exponent);
        }
        (wide >> exponent) as usize
    }
}

/// The number of binary digits of `value`; zero has none.
pub fn bit_length(value: u64) -> (result: u32)
    ensures
        result <= 64,
        value < pow2(result as nat),
        result > 0 ==> pow2((result - 1) as nat) <= value,
{
    let zeros: u32 = value.leading_zeros();
    proof {
        lemma2_to64();
        lemma2_to64_rest();
        vstd::std_specs::bits::axiom_u64_leading_zeros(value);
        if zeros == 0 {
            let top = value >> 63u64;
            assert(top & 1 != 0 ==> top >= 1) by (bit_vector);
            vstd::bits::lemma_u64_shr_is_div(value, 63);
        } else {
            let length: u64 = (64 - zeros) as u64;
            if zeros < 64 {
                let low: u64 = (63 - zeros) as u64;
                vstd::bits::lemma_u64_shr_is_div(value, length);
                vstd::bits::lemma_u64_shr_is_div(value, low);
                lemma_pow2_pos(length as nat);
                lemma_pow2_pos(low as nat);
                lemma_fundamental_div_mod(value as int, pow2(length as nat) as int);
                lemma_mod_bound(value as int, pow2(length as nat) as int);
                let top = value >> low;
                assert(top & 1 != 0 ==> top >= 1) by (bit_vector);
                lemma_fundamental_div_mod(value as int, pow2(low as nat) as int);
                lemma_mod_bound(value as int, pow2(low as nat) as int);
                assert(pow2(low as nat) * (value as nat / pow2(low as nat)) >= pow2(low as nat))
                    by (nonlinear_arith)
                    requires
                        value as nat / pow2(low as nat) >= 1,
                        pow2(low as nat) > 0,
                ;
            }
        }
    }
    64 - zeros
}

/// The exact `ceil(log2(value))`, zero for values up to one.
pub fn ceil_log2(value: usize) -> (result: usize)
    ensures
        result <= usize::BITS,
        result as nat == log2_ceiling(value as nat),
        value >= 1 ==> is_ceil_log2(value as nat, result as nat),
{
    proof {
        lemma2_to64();
        lemma_usize_below_pow2_bits(value);
    }
    if value <= 1 {
        0
    } else {
        let length: u32 = bit_length((value - 1) as u64);
        proof {
            if length > usize::BITS {
                lemma_pow2_monotone(usize::BITS as nat, (length - 1) as nat);
            }
            assert(length > 0);
            lemma_ceil_log2_unique(value as nat, length as nat);
        }
        length as usize
    }
}

/// The exponent of a power of two, and `None` for every other value.
pub fn exact_log2(value: u64) -> (result: Option<u32>)
    ensures
        result matches Some(exponent) ==> value == pow2(exponent as nat) && exponent < 64,
        result is None ==> forall|exponent: nat| value != #[trigger] pow2(exponent),
{
    if value == 0 {
        assert forall|exponent: nat| value != #[trigger] pow2(exponent) by {
            lemma_pow2_pos(exponent);
        }
        return None;
    }
    let length: u32 = bit_length(value);
    proof {
        lemma2_to64();
        lemma2_to64_rest();
    }
    let exponent: u32 = length - 1;
    proof {
        vstd::bits::lemma_u64_pow2_no_overflow(exponent as nat);
        vstd::bits::lemma_u64_shl_is_mul(1, exponent as u64);
    }
    if (1u64 << (exponent as u64)) == value {
        Some(exponent)
    } else {
        assert forall|other: nat| value != #[trigger] pow2(other) by {
            if other < exponent {
                lemma_pow2_strictly_increases(other, exponent as nat);
            } else if other > exponent {
                lemma_pow2_monotone(length as nat, other);
            }
        }
        None
    }
}

/// `ceil(value / 2^exponent)`.
pub fn ceil_div_pow2(value: usize, exponent: u64) -> (result: usize)
    ensures
        result as nat == ceil_div(value as nat, pow2(exponent as nat)),
        result <= value,
{
    let ghost power = pow2(exponent as nat);
    proof {
        lemma_pow2_pos(exponent as nat);
    }
    if value == 0 {
        proof {
            lemma_small_mod(0, power);
            lemma_basic_div(0, power as int);
        }
        0
    } else {
        let quotient: usize = floor_div_pow2(value - 1, exponent);
        proof {
            let x = (value - 1) as int;
            let d = power as int;
            lemma_fundamental_div_mod(x, d);
            lemma_mod_bound(x, d);
            if x % d == d - 1 {
                assert(x + 1 == (x / d + 1) * d + 0) by (nonlinear_arith)
                    requires
                        x == d * (x / d) + x % d,
                        x % d == d - 1,
                ;
                lemma_fundamental_div_mod_converse(x + 1, d, x / d + 1, 0);
            } else {
                assert(x + 1 == (x / d) * d + (x % d + 1)) by (nonlinear_arith)
                    requires
                        x == d * (x / d) + x % d,
                ;
                lemma_fundamental_div_mod_converse(x + 1, d, x / d, x % d + 1);
            }
        }
        quotient + 1
    }
}

/// `floor(3 * value / 2^exponent)` for exponents of at least two.
pub fn floor_three_div_pow2(value: usize, exponent: u64) -> (result: usize)
    requires
        exponent >= 2,
    ensures
        result as nat == (3 * value as nat) / pow2(exponent as nat),
        result <= value,
{
    let tripled: u128 = 3 * (value as u128);
    proof {
        lemma2_to64();
        lemma2_to64_rest();
        lemma_pow2_adds(64, 2);
        lemma_pow2_monotone(2, exponent as nat);
        lemma_div_is_ordered_by_denominator(tripled as int, 4, pow2(exponent as nat) as int);
    }
    if exponent >= 128 {
        proof {
            lemma_small_div_pow2(tripled as nat, exponent as nat, 66);
        }
        0
    } else {
        proof {
            vstd::bits::lemma_u128_shr_is_div(tripled, exponent as u128);
        }
        (tripled >> (exponent as u128)) as usize
    }
}

/// A divisor of a value divides its multiples.
pub proof fn lemma_divides_multiple(divisor: nat, value: nat, factor: nat)
    requires
        divides(divisor, value),
    ensures
        divides(divisor, value * factor),
{
    let quotient = value / divisor;
    lemma_fundamental_div_mod(value as int, divisor as int);
    assert(value * factor == (quotient * factor) * divisor) by (nonlinear_arith)
        requires
            value == divisor * quotient,
    ;
    lemma_mod_multiples_basic((quotient * factor) as int, divisor as int);
}

proof fn lemma_euclid_step(divisor: nat, left: nat, right: nat)
    requires
        right > 0,
    ensures
        common_divisor(divisor, left, right) <==> common_divisor(divisor, right, left % right),
{
    if divisor > 0 {
        lemma_fundamental_div_mod(left as int, right as int);
        let quotient = left / right;
        if divides(divisor, right) {
            lemma_divides_multiple(divisor, right, quotient);
            let multiple = (right * quotient) as int;
            let rest = (left % right) as int;
            lemma_add_mod_noop(multiple, rest, divisor as int);
            lemma_mod_twice(rest, divisor as int);
            assert(left as int % divisor as int == rest % divisor as int);
        }
    }
}

/// The greatest common divisor of two numbers that are not both zero.
pub fn greatest_common_divisor(left: usize, right: usize) -> (result: usize)
    requires
        left > 0 || right > 0,
    ensures
        common_divisor(result as nat, left as nat, right as nat),
        forall|other: nat|
            #[trigger] common_divisor(other, left as nat, right as nat) ==> other <= result,
{
    let mut a: usize = left;
    let mut b: usize = right;
    while b != 0
        invariant
            a > 0 || b > 0,
            forall|divisor: nat|
                #[trigger] common_divisor(divisor, left as nat, right as nat) <==> common_divisor(
                    divisor,
                    a as nat,
                    b as nat,
                ),
        decreases b,
    {
        let remainder: usize = a % b;
        proof {
            assert forall|divisor: nat|
                #[trigger] common_divisor(divisor, left as nat, right as nat) <==> common_divisor(
                    divisor,
                    b as nat,
                    remainder as nat,
                ) by {
                lemma_euclid_step(divisor, a as nat, b as nat);
            }
        }
        a = b;
        b = remainder;
    }
    proof {
        lemma_mod_self_0(a as int);
        lemma_small_mod(0, a as nat);
        assert(common_divisor(a as nat, a as nat, b as nat));
        assert forall|other: nat|
            #[trigger] common_divisor(other, left as nat, right as nat) implies other <= a by {
            lemma_mod_is_zero(a as nat, other);
        }
    }
    a
}

} // verus!
