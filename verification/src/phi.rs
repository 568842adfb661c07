//! The self-delimiting injection that orders Elastic probes, and the discrete
//! Elastic probe budget.

use vstd::arithmetic::div_mod::*;
use vstd::arithmetic::mul::*;
use vstd::arithmetic::power2::*;
use vstd::prelude::*;

use crate::arith::{self, ceil_log2};

verus! {

/// A coordinate rejected by [`elastic_phi`].
#[derive(Clone, Copy, Debug, Eq, PartialEq, Structural)]
pub enum PhiCoordinate {
    /// The first, `i`, coordinate.
    I,
    /// The second, `j`, coordinate.
    J,
}

/// A failure to construct the checked injection.
#[derive(Clone, Copy, Debug, Eq, PartialEq, Structural)]
pub enum PhiError {
    /// A coordinate was zero even though coordinates are positive and
    /// one-based.
    ZeroCoordinate {
        /// The coordinate whose value was zero.
        coordinate: PhiCoordinate,
    },
    /// The self-delimiting bit string does not fit in `u128`.
    Overflow,
}

/// The number of binary digits of a value.
pub open spec fn digits(value: nat) -> nat
    decreases value,
{
    if value == 0 {
        0
    } else {
        1 + digits(value / 2)
    }
}

/// The binary digits of `j`, each behind a marker digit one.
pub open spec fn marked(j: nat) -> nat
    decreases j,
{
    if j == 0 {
        0
    } else {
        4 * marked(j / 2) + 2 + j % 2
    }
}

/// The marked digits of `j`, a delimiter digit zero, and the digits of `i`.
pub open spec fn phi(i: nat, j: nat) -> nat {
    marked(j) * pow2(digits(i) + 1) + i
}

/// A value lies between the powers of two of its digit count.
pub proof fn lemma_digits_bounds(value: nat)
    ensures
        value < pow2(digits(value)),
        value > 0 ==> digits(value) > 0 && pow2((digits(value) - 1) as nat) <= value,
    decreases value,
{
    lemma2_to64();
    if value > 0 {
        lemma_digits_bounds(value / 2);
        lemma_pow2_unfold(digits(value));
        if value / 2 > 0 {
            lemma_pow2_unfold(digits(value / 2));
        }
    }
}

/// The digit count is determined by the powers of two around a value.
pub proof fn lemma_digits_unique(value: nat, count: nat)
    requires
        value < pow2(count),
        count > 0 ==> pow2((count - 1) as nat) <= value,
    ensures
        digits(value) == count,
{
    lemma2_to64();
    lemma_digits_bounds(value);
    let own = digits(value);
    if own < count {
        arith::lemma_pow2_monotone(own, (count - 1) as nat);
    } else if count < own {
        arith::lemma_pow2_monotone(count, (own - 1) as nat);
    }
}

/// Larger values have larger marked digits, strictly.
pub proof fn lemma_marked_increases(low: nat, high: nat)
    requires
        low < high,
    ensures
        marked(low) < marked(high),
    decreases high,
{
    if low > 0 {
        if low / 2 < high / 2 {
            lemma_marked_increases(low / 2, high / 2);
        }
    }
}

/// `marked(j) < 4 * j^2`, since the marker digits double the digit count.
proof fn lemma_marked_bound(j: nat)
    requires
        j > 0,
    ensures
        marked(j) < 4 * (j * j),
        marked(j) + 1 <= 4 * (j * j),
    decreases j,
{
    let half = j / 2;
    if half > 0 {
        lemma_marked_bound(half);
        assert(4 * (4 * (half * half) - 1) + 3 < 4 * (j * j)) by (nonlinear_arith)
            requires
                j >= 2 * half,
                half > 0,
        ;
    } else {
        assert(marked(0) == 0);
        assert(j * j == 1) by (nonlinear_arith)
            requires
                j == 1,
        ;
    }
}

/// The encoding is below sixteen times `i * j^2`.
pub proof fn law_phi_bound(i: nat, j: nat)
    requires
        i > 0,
        j > 0,
    ensures
        phi(i, j) < 16 * (i * (j * j)),
{
    lemma_digits_bounds(i);
    lemma_marked_bound(j);
    lemma_pow2_unfold(digits(i) + 1);
    lemma_pow2_unfold(digits(i));
    let m = marked(j);
    let q = pow2((digits(i) - 1) as nat);
    let square = j * j;
    // Four times the top power of `i` is the weight of the marked digits.
    assert(m * (4 * q) + i < 16 * (i * square)) by (nonlinear_arith)
        requires
            m + 1 <= 4 * square,
            q <= i,
            i < 2 * q,
            m >= 0,
    ;
}

/// Later probes of one level are encoded by larger values.
pub proof fn law_phi_increases_with_probe(i: nat, low: nat, high: nat)
    requires
        low < high,
    ensures
        phi(i, low) < phi(i, high),
{
    lemma_marked_increases(low, high);
    lemma_pow2_pos(digits(i) + 1);
    let weight = pow2(digits(i) + 1);
    assert(marked(low) * weight < marked(high) * weight) by (nonlinear_arith)
        requires
            marked(low) < marked(high),
            weight > 0,
    ;
}

/// The first level encodes a probe by the smallest value.
pub proof fn lemma_phi_first_level_least(i: nat, j: nat)
    requires
        i > 0,
    ensures
        phi(1, j) <= phi(i, j),
        phi(1, j) == 4 * marked(j) + 1,
{
    lemma2_to64();
    reveal_with_fuel(digits, 2);
    assert(digits(1) == 1);
    arith::lemma_pow2_monotone(2, digits(i) + 1);
    let weight = pow2(digits(i) + 1);
    assert(marked(j) * 4 <= marked(j) * weight) by (nonlinear_arith)
        requires
            4 <= weight,
            marked(j) >= 0,
    ;
}

/// The marked digits of a value without its low digits.
proof fn lemma_marked_prefix(j: nat, dropped: nat)
    ensures
        marked(j) / pow2(2 * dropped) == marked(j / pow2(dropped)),
    decreases dropped,
{
    lemma2_to64();
    if dropped == 0 {
        lemma_div_basics(j as int);
        lemma_div_basics(marked(j) as int);
    } else {
        let fewer = (dropped - 1) as nat;
        lemma_marked_prefix(j, fewer);
        lemma_pow2_unfold(dropped);
        lemma_pow2_unfold(2 * dropped);
        lemma_pow2_unfold((2 * dropped - 1) as nat);
        lemma_pow2_pos(fewer);
        lemma_pow2_pos(2 * fewer);
        lemma_div_denominator(j as int, pow2(fewer) as int, 2);
        lemma_div_denominator(marked(j) as int, pow2(2 * fewer) as int, 4);
        let prefix = j / pow2(fewer);
        assert(pow2(fewer) * 2 == pow2(dropped));
        assert(pow2(2 * fewer) * 4 == pow2(2 * dropped));
        assert(marked(prefix) / 4 == marked(prefix / 2)) by {
            if prefix == 0 {
                assert(marked(0) == 0);
            }
        }
    }
}

/// A digit count drops with the digits.
proof fn lemma_digits_prefix(value: nat, dropped: nat)
    requires
        dropped <= digits(value),
    ensures
        digits(value / pow2(dropped)) == digits(value) - dropped,
    decreases dropped,
{
    lemma2_to64();
    if dropped == 0 {
        lemma_div_basics(value as int);
    } else {
        let fewer = (dropped - 1) as nat;
        lemma_digits_prefix(value, fewer);
        lemma_pow2_unfold(dropped);
        lemma_pow2_pos(fewer);
        lemma_div_denominator(value as int, pow2(fewer) as int, 2);
        assert(pow2(fewer) * 2 == pow2(dropped));
    }
}

/// The marked digits are twice as many, and the first is a marker.
proof fn lemma_marked_digits(j: nat)
    ensures
        digits(marked(j)) == 2 * digits(j),
    decreases j,
{
    if j > 0 {
        lemma_marked_digits(j / 2);
        let whole = marked(j);
        reveal_with_fuel(digits, 3);
        assert(whole / 2 / 2 == marked(j / 2));
    }
}

/// The encoding without the digits of `i` and the delimiter is the marked `j`.
proof fn lemma_phi_splits(i: nat, j: nat)
    requires
        i > 0,
        j > 0,
    ensures
        phi(i, j) / pow2(digits(i) + 1) == marked(j),
        phi(i, j) / pow2(digits(i)) == 2 * marked(j),
        phi(i, j) % pow2(digits(i)) == i,
        digits(phi(i, j)) == 2 * digits(j) + 1 + digits(i),
{
    let weight = pow2(digits(i)) as int;
    let value = phi(i, j) as int;
    let m = marked(j) as int;
    lemma_digits_bounds(i);
    lemma_pow2_pos(digits(i));
    lemma_pow2_unfold(digits(i) + 1);
    assert(m * (2 * weight) == (2 * m) * weight) by (nonlinear_arith);
    lemma_fundamental_div_mod_converse(value, 2 * weight, m, i as int);
    lemma_fundamental_div_mod_converse(value, weight, 2 * m, i as int);
    // The digit count follows from that of the marked digits.
    lemma_marked_digits(j);
    lemma_digits_bounds(marked(j));
    let count = digits(marked(j));
    lemma_pow2_adds(count, digits(i) + 1);
    lemma_pow2_adds((count - 1) as nat, digits(i) + 1);
    let top = pow2(count) as int;
    let half = pow2((count - 1) as nat) as int;
    assert(half * (2 * weight) <= value && value < top * (2 * weight)) by (nonlinear_arith)
        requires
            value == m * (2 * weight) + i,
            0 <= i < weight,
            half <= m < top,
            weight > 0,
    ;
    lemma_digits_unique(phi(i, j), count + digits(i) + 1);
}

/// The encoding is injective.
pub proof fn law_phi_is_injective(i: nat, j: nat, other_i: nat, other_j: nat)
    requires
        i > 0,
        j > 0,
        other_i > 0,
        other_j > 0,
        phi(i, j) == phi(other_i, other_j),
    ensures
        i == other_i,
        j == other_j,
{
    lemma_phi_splits(i, j);
    lemma_phi_splits(other_i, other_j);
    lemma_delimiter_is_not_a_marker(i, j, other_i, other_j);
    lemma_delimiter_is_not_a_marker(other_i, other_j, i, j);
    if j < other_j {
        lemma_marked_increases(j, other_j);
    } else if other_j < j {
        lemma_marked_increases(other_j, j);
    }
}

/// Where a shorter marked string ends, a longer one still has a marker.
proof fn lemma_delimiter_is_not_a_marker(i: nat, j: nat, other_i: nat, other_j: nat)
    requires
        i > 0,
        j > 0,
        other_i > 0,
        other_j > 0,
        phi(i, j) == phi(other_i, other_j),
    ensures
        digits(j) >= digits(other_j),
{
    if digits(j) < digits(other_j) {
        lemma_phi_splits(i, j);
        lemma_phi_splits(other_i, other_j);
        let value = phi(i, j);
        // The digits of `i` reach at least two marked digits into `other_j`.
        let dropped = (digits(other_j) - digits(j)) as nat;
        assert(digits(i) == 2 * dropped + digits(other_i));
        lemma_marked_prefix(other_j, (dropped - 1) as nat);
        lemma_pow2_pos(digits(other_i) + 1);
        lemma_pow2_pos((2 * (dropped - 1)) as nat);
        lemma_pow2_adds(digits(other_i) + 1, (2 * (dropped - 1)) as nat);
        lemma_div_denominator(
            value as int,
            pow2(digits(other_i) + 1) as int,
            pow2((2 * (dropped - 1)) as nat) as int,
        );
        let prefix = other_j / pow2((dropped - 1) as nat);
        lemma_digits_prefix(other_j, (dropped - 1) as nat);
        // One digit less than where `i` starts, the other string has a marker.
        let cut = (digits(other_i) + 1 + 2 * (dropped - 1)) as nat;
        assert(value / pow2(cut) == marked(prefix));
        lemma_pow2_unfold(digits(i));
        lemma_pow2_pos(cut);
        lemma_div_denominator(value as int, pow2(cut) as int, 2);
        assert(digits(i) == cut + 1);
        lemma_pow2_pos((dropped - 1) as nat);
        lemma_div_pos_is_pos(other_j as int, pow2((dropped - 1) as nat) as int);
        assert(digits(0) == 0);
        assert(prefix > 0);
        assert((value / pow2(cut)) / 2 == 2 * marked(prefix / 2) + 1);
        assert(pow2(cut) * 2 == pow2(digits(i)));
    }
}

/// The number of binary digits of a value.
pub fn digit_count(value: u128) -> (result: u32)
    ensures
        result as nat == digits(value as nat),
        result <= 128,
{
    let mut rest: u128 = value;
    let mut count: u32 = 0;
    proof {
        lemma_digits_within_u128(value);
    }
    while rest > 0
        invariant
            count + digits(rest as nat) == digits(value as nat),
            digits(value as nat) <= 128,
        decreases rest,
    {
        rest = rest / 2;
        count = count + 1;
    }
    count
}

proof fn lemma_digits_within_u128(value: u128)
    ensures
        digits(value as nat) <= 128,
{
    lemma2_to64();
    lemma2_to64_rest();
    lemma_pow2_adds(64, 64);
    assert(0x1_0000_0000_0000_0000 * 0x1_0000_0000_0000_0000 == u128::MAX + 1);
    lemma_digits_bounds(value as nat);
    if digits(value as nat) > 128 {
        arith::lemma_pow2_monotone(128, (digits(value as nat) - 1) as nat);
    }
}

/// A binary digit of a value, counted from the least significant one.
fn digit_at(value: u128, position: u32) -> (result: u128)
    requires
        position < 128,
    ensures
        result as nat == (value as nat / pow2(position as nat)) % 2,
{
    let shifted: u128 = value >> (position as u128);
    proof {
        vstd::bits::lemma_u128_shr_is_div(value, position as u128);
        assert(shifted & 1 == shifted % 2) by (bit_vector);
    }
    shifted & 1
}

/// Appends one binary digit, or `None` when the result is not representable.
fn append_bit(prefix: u128, bit: u128) -> (result: Option<u128>)
    requires
        bit <= 1,
    ensures
        match result {
            Some(value) => value == 2 * prefix + bit,
            None => 2 * prefix + bit > u128::MAX,
        },
{
    match prefix.checked_mul(2) {
        Some(doubled) => doubled.checked_add(bit),
        None => None,
    }
}

/// A value without its low digits has one digit fewer dropped as its half.
proof fn lemma_drop_one_less(value: nat, position: nat)
    ensures
        value / pow2(position + 1) == (value / pow2(position)) / 2,
        value / pow2(position) == 2 * (value / pow2(position + 1)) + (value / pow2(position)) % 2,
{
    lemma_pow2_unfold(position + 1);
    lemma_pow2_pos(position);
    lemma_div_denominator(value as int, pow2(position) as int, 2);
    assert(pow2(position) * 2 == pow2(position + 1));
}

/// Dropping digits never makes the marked digits larger.
proof fn lemma_marked_prefix_smaller(j: nat, dropped: nat)
    ensures
        marked(j / pow2(dropped)) <= marked(j),
{
    lemma_pow2_pos(dropped);
    lemma_div_nonincreasing(j as int, pow2(dropped) as int);
    if j / pow2(dropped) < j {
        lemma_marked_increases(j / pow2(dropped), j);
    }
}

/// Encodes positive one-based coordinates.
///
/// From most to least significant, the encoding contains, for each bit of
/// `j`, a marker bit `1` followed by that bit; it then contains a delimiter bit
/// `0` and the ordinary binary representation of `i`. The marker positions
/// make the boundary independently decodable, so the construction is
/// injective.
pub fn elastic_phi(i: u128, j: u128) -> (result: Result<u128, PhiError>)
    ensures
        i == 0 ==> result == Err::<u128, _>(
            PhiError::ZeroCoordinate { coordinate: PhiCoordinate::I },
        ),
        i != 0 && j == 0 ==> result == Err::<u128, _>(
            PhiError::ZeroCoordinate { coordinate: PhiCoordinate::J },
        ),
        i != 0 && j != 0 && phi(i as nat, j as nat) > u128::MAX ==> result == Err::<u128, _>(
            PhiError::Overflow,
        ),
        i != 0 && j != 0 && phi(i as nat, j as nat) <= u128::MAX ==> (result matches Ok(encoded)
            && encoded as nat == phi(i as nat, j as nat)),
{
    if i == 0 {
        return Err(PhiError::ZeroCoordinate { coordinate: PhiCoordinate::I });
    }
    if j == 0 {
        return Err(PhiError::ZeroCoordinate { coordinate: PhiCoordinate::J });
    }
    let ghost full = phi(i as nat, j as nat);
    let length: u32 = digit_count(i);
    let ghost weight = pow2(length as nat + 1);
    proof {
        lemma2_to64();
        lemma_pow2_unfold(length as nat + 1);
        lemma_pow2_pos(length as nat);
        assert(2 * marked(j as nat) <= full) by (nonlinear_arith)
            requires
                full == marked(j as nat) * weight + i,
                weight >= 2,
                marked(j as nat) >= 0,
        ;
    }
    let mut encoded: u128 = 0;
    let mut bit_index: u32 = digit_count(j);
    proof {
        lemma_digits_bounds(j as nat);
        lemma_small_div_of_digits(j as nat);
    }
    while bit_index > 0
        invariant
            bit_index <= digits(j as nat),
            digits(j as nat) <= 128,
            encoded as nat == marked(j as nat / pow2(bit_index as nat)),
            i != 0,
            j != 0,
            full == phi(i as nat, j as nat),
            2 * marked(j as nat) <= full,
        decreases bit_index,
    {
        bit_index = bit_index - 1;
        let bit: u128 = digit_at(j, bit_index);
        proof {
            lemma_drop_one_less(j as nat, bit_index as nat);
            lemma_marked_prefix_smaller(j as nat, bit_index as nat);
            lemma_digits_prefix(j as nat, bit_index as nat);
            assert(digits(0) == 0 && j as nat / pow2(bit_index as nat) > 0);
        }
        encoded = match append_bit(encoded, 1) {
            Some(value) => value,
            None => {
                return Err(PhiError::Overflow);
            },
        };
        encoded = match append_bit(encoded, bit) {
            Some(value) => value,
            None => {
                return Err(PhiError::Overflow);
            },
        };
    }
    proof {
        lemma_div_basics(j as int);
    }
    encoded = match append_bit(encoded, 0) {
        Some(value) => value,
        None => {
            return Err(PhiError::Overflow);
        },
    };

    let ghost prefix = encoded as nat;
    let ghost total = length as nat;
    bit_index = length;
    proof {
        lemma_small_div_of_digits(i as nat);
        assert(prefix * pow2(total) == marked(j as nat) * weight) by (nonlinear_arith)
            requires
                prefix == 2 * marked(j as nat),
                weight == 2 * pow2(total),
        ;
        assert(prefix * 1 == prefix);
    }
    while bit_index > 0
        invariant
            bit_index <= total <= 128,
            total == digits(i as nat),
            prefix * pow2(total) + i == full,
            encoded as nat == prefix * pow2((total - bit_index) as nat) + i as nat / pow2(
                bit_index as nat,
            ),
            i != 0,
            j != 0,
            full == phi(i as nat, j as nat),
        decreases bit_index,
    {
        bit_index = bit_index - 1;
        let bit: u128 = digit_at(i, bit_index);
        proof {
            lemma_drop_one_less(i as nat, bit_index as nat);
            lemma_pow2_unfold((total - bit_index) as nat);
            let done = pow2((total - bit_index - 1) as nat);
            assert(2 * (prefix * done) == prefix * (2 * done)) by (nonlinear_arith);
            // What is encoded so far is at most the whole encoding.
            arith::lemma_pow2_monotone((total - bit_index) as nat, total);
            lemma_pow2_pos(bit_index as nat);
            lemma_div_nonincreasing(i as int, pow2(bit_index as nat) as int);
            assert(prefix * pow2((total - bit_index) as nat) <= prefix * pow2(total))
                by (nonlinear_arith)
                requires
                    pow2((total - bit_index) as nat) <= pow2(total),
                    prefix >= 0,
            ;
        }
        encoded = match append_bit(encoded, bit) {
            Some(value) => value,
            None => {
                return Err(PhiError::Overflow);
            },
        };
    }
    proof {
        lemma_div_basics(i as int);
    }
    Ok(encoded)
}

/// Dropping all digits of a value leaves nothing.
proof fn lemma_small_div_of_digits(value: nat)
    ensures
        value / pow2(digits(value)) == 0,
{
    lemma_digits_bounds(value);
    lemma_pow2_pos(digits(value));
    lemma_basic_div(value as int, pow2(digits(value)) as int);
}

/// Whether a value encodes some pair of positive coordinates.
pub open spec fn in_phi_image(encoded: nat) -> bool {
    exists|i: nat, j: nat| i > 0 && j > 0 && #[trigger] phi(i, j) == encoded
}

/// Inverts the exact self-delimiting image produced by [`elastic_phi`].
///
/// Values outside that image return `None`. A syntactically decoded candidate
/// is accepted only when re-encoding it produces `encoded` exactly; this also
/// rejects truncated marker pairs, a missing delimiter, zero coordinates, and
/// leading-zero suffixes.
#[must_use]
pub fn elastic_phi_inverse(encoded: u128) -> (result: Option<(u128, u128)>)
    ensures
        match result {
            Some((i, j)) => i > 0 && j > 0 && phi(i as nat, j as nat) == encoded,
            None => !in_phi_image(encoded as nat),
        },
{
    let ghost (true_i, true_j) = choose|i: nat, j: nat|
        i > 0 && j > 0 && #[trigger] phi(i, j) == encoded;
    let ghost in_image = in_phi_image(encoded as nat);
    let ghost pairs = digits(true_j);
    proof {
        if in_image {
            lemma_phi_splits(true_i, true_j);
            lemma_digits_bounds(true_i);
            lemma_digits_bounds(true_j);
            lemma_small_div_of_digits(true_j);
            lemma_small_div_of_digits(encoded as nat);
        }
    }
    if encoded == 0 {
        return None;
    }
    let mut remaining_bits: u32 = digit_count(encoded);
    let mut j: u128 = 0;
    let ghost mut read: nat = 0;
    loop
        invariant_except_break
            remaining_bits <= 128,
            in_image == in_phi_image(encoded as nat),
            in_image ==> {
                &&& true_i > 0
                &&& true_j > 0
                &&& phi(true_i, true_j) == encoded
                &&& pairs == digits(true_j)
                &&& read <= pairs
                &&& remaining_bits == 2 * (pairs - read) + 1 + digits(true_i)
                &&& j as nat == true_j / pow2((pairs - read) as nat)
                &&& encoded as nat / pow2(remaining_bits as nat) == marked(j as nat)
            },
        ensures
            remaining_bits <= 128,
            in_image == in_phi_image(encoded as nat),
            in_image ==> {
                &&& true_i > 0
                &&& true_j > 0
                &&& phi(true_i, true_j) == encoded
                &&& remaining_bits == digits(true_i)
                &&& j as nat == true_j
            },
        decreases remaining_bits,
    {
        if remaining_bits == 0 {
            return None;
        }
        remaining_bits = remaining_bits - 1;
        let marker: u128 = digit_at(encoded, remaining_bits);
        proof {
            if in_image {
                lemma_drop_one_less(encoded as nat, remaining_bits as nat);
                lemma_phi_splits(true_i, true_j);
                if read == pairs {
                    lemma_digits_bounds(true_i);
                    lemma2_to64();
                    lemma_div_basics(true_j as int);
                    assert(marker == 0);
                } else {
                    lemma_marker_follows(encoded as nat, true_i, true_j, (pairs - read) as nat);
                }
            }
        }
        if marker == 0 {
            break;
        }
        if remaining_bits == 0 {
            return None;
        }
        remaining_bits = remaining_bits - 1;
        let bit: u128 = digit_at(encoded, remaining_bits);
        proof {
            if in_image {
                lemma_drop_one_less(true_j, (pairs - read - 1) as nat);
                lemma_pow2_pos((pairs - read - 1) as nat);
                lemma_div_nonincreasing(true_j as int, pow2((pairs - read - 1) as nat) as int);
                lemma_coordinates_within(true_i, true_j);
                read = read + 1;
            }
        }
        j = match j.checked_mul(2) {
            Some(doubled) => match doubled.checked_add(bit) {
                Some(next) => next,
                None => {
                    return None;
                },
            },
            None => {
                return None;
            },
        };
    }

    if remaining_bits == 0 {
        return None;
    }
    let i: u128 = low_digits(encoded, remaining_bits);
    proof {
        if in_image {
            lemma_phi_splits(true_i, true_j);
        }
    }
    match elastic_phi(i, j) {
        Ok(again) => if again == encoded {
            Some((i, j))
        } else {
            None
        },
        Err(_) => None,
    }
}

/// Both coordinates are at most their encoding.
pub proof fn lemma_coordinates_within(i: nat, j: nat)
    requires
        j > 0,
    ensures
        i <= phi(i, j),
        j <= phi(i, j),
{
    lemma_pow2_pos(digits(i) + 1);
    lemma_marked_at_least(j);
    let weight = pow2(digits(i) + 1);
    assert(marked(j) <= marked(j) * weight) by (nonlinear_arith)
        requires
            weight >= 1,
            marked(j) >= 0,
    ;
}

proof fn lemma_marked_at_least(j: nat)
    ensures
        j <= marked(j),
    decreases j,
{
    if j > 0 {
        lemma_marked_at_least(j / 2);
    }
}

/// While digits of `j` remain, a marker and the next digit of `j` follow.
proof fn lemma_marker_follows(encoded: nat, i: nat, j: nat, left: nat)
    requires
        i > 0,
        j > 0,
        phi(i, j) == encoded,
        0 < left <= digits(j),
    ensures
        ({
            let rest = (2 * (left - 1) + 1 + digits(i)) as nat;
            let next = j / pow2((left - 1) as nat);
            &&& (encoded / pow2(rest + 1)) % 2 == 1
            &&& (encoded / pow2(rest)) % 2 == next % 2
            &&& encoded / pow2(rest) == marked(next)
        }),
{
    let fewer = (left - 1) as nat;
    let rest = (2 * fewer + 1 + digits(i)) as nat;
    let next = j / pow2(fewer);
    lemma_phi_splits(i, j);
    lemma_marked_prefix(j, fewer);
    lemma_digits_prefix(j, fewer);
    lemma_pow2_pos(digits(i) + 1);
    lemma_pow2_pos(2 * fewer);
    lemma_pow2_adds(digits(i) + 1, 2 * fewer);
    lemma_div_denominator(encoded as int, pow2(digits(i) + 1) as int, pow2(2 * fewer) as int);
    lemma_drop_one_less(encoded, rest);
    lemma_pow2_pos(fewer);
    lemma_div_pos_is_pos(j as int, pow2(fewer) as int);
    assert(digits(0) == 0);
    assert(next > 0);
    assert(encoded / pow2(rest) == marked(next));
    assert(marked(next) % 2 == next % 2);
    assert((marked(next) / 2) % 2 == 1);
}

/// The low binary digits of a value.
fn low_digits(value: u128, count: u32) -> (result: u128)
    requires
        0 < count <= 128,
    ensures
        result as nat == value as nat % pow2(count as nat),
{
    if count == 128 {
        proof {
            lemma2_to64();
            lemma2_to64_rest();
            lemma_pow2_adds(64, 64);
            assert(0x1_0000_0000_0000_0000 * 0x1_0000_0000_0000_0000 == u128::MAX + 1);
            lemma_small_mod(value as nat, pow2(128));
        }
        value
    } else {
        value % power_of_two(count)
    }
}

/// `2^exponent`.
fn power_of_two(exponent: u32) -> (result: u128)
    requires
        exponent < 128,
    ensures
        result as nat == pow2(exponent as nat),
        result > 0,
{
    let mut power: u128 = 1;
    let mut done: u32 = 0;
    proof {
        lemma2_to64();
        lemma2_to64_rest();
        lemma_pow2_adds(64, 63);
        assert(0x1_0000_0000_0000_0000 * 0x8000_0000_0000_0000 <= u128::MAX);
    }
    while done < exponent
        invariant
            done <= exponent < 128,
            power as nat == pow2(done as nat),
            power > 0,
            pow2(127) <= u128::MAX,
        decreases exponent - done,
    {
        proof {
            lemma_pow2_unfold(done as nat + 1);
            arith::lemma_pow2_monotone(done as nat + 1, 127);
        }
        power = power * 2;
        done = done + 1;
    }
    power
}

/// A failure to compute the exact discrete Elastic probe budget.
#[derive(Clone, Copy, Debug, Eq, PartialEq, Structural)]
pub enum ElasticProbeBudgetError {
    /// `free_slots` was outside the required interval
    /// `0 < free_slots <= level_slots`.
    InvalidFreeSlots {
        /// The rejected free-slot count.
        free_slots: usize,
        /// The level size against which the count was validated.
        level_slots: usize,
    },
    /// The caller supplied `c == 0`.
    ZeroConstant,
    /// A checked intermediate or final result was not representable as
    /// `usize`.
    Overflow,
}

/// `ceil(log2(level / free))`: the fewest doublings of the free slots that
/// reach the level.
pub open spec fn fill_exponent(free: nat, level: nat) -> nat {
    arith::log2_ceiling(arith::ceil_div(level, free))
}

/// `c * min(k^2, delta_log2)` for `k = ceil(log2(level / free))`.
pub open spec fn dyadic_budget(free: nat, level: nat, delta_log2: nat, c: nat) -> nat {
    let k = fill_exponent(free, level);
    c * (if k * k < delta_log2 {
        k * k
    } else {
        delta_log2
    })
}

/// Computes the conservative dyadic Elastic probe-budget convention.
///
/// Let `k = ceil(log2(level_slots / free_slots))`, computed without floating
/// point. This function returns `c * min(k^2, delta_log2)`: the ceiling is
/// taken before squaring. The returned value counts individual logical slot
/// probes, not random words or control-byte scans.
pub fn elastic_dyadic_probe_budget(
    free_slots: usize,
    level_slots: usize,
    delta_log2: u32,
    c: usize,
) -> (result: Result<usize, ElasticProbeBudgetError>)
    ensures
        free_slots == 0 || free_slots > level_slots ==> result == Err::<usize, _>(
            ElasticProbeBudgetError::InvalidFreeSlots { free_slots, level_slots },
        ),
        0 < free_slots <= level_slots && c == 0 ==> result == Err::<usize, _>(
            ElasticProbeBudgetError::ZeroConstant,
        ),
        0 < free_slots <= level_slots && c > 0 ==> ({
            let budget = dyadic_budget(
                free_slots as nat,
                level_slots as nat,
                delta_log2 as nat,
                c as nat,
            );
            if budget <= usize::MAX {
                result == Ok::<_, ElasticProbeBudgetError>(budget as usize)
            } else {
                result == Err::<usize, _>(ElasticProbeBudgetError::Overflow)
            }
        }),
{
    if free_slots == 0 || free_slots > level_slots {
        return Err(ElasticProbeBudgetError::InvalidFreeSlots { free_slots, level_slots });
    }
    if c == 0 {
        return Err(ElasticProbeBudgetError::ZeroConstant);
    }
    let quotient: usize = level_slots / free_slots;
    proof {
        lemma_div_nonincreasing(level_slots as int, free_slots as int);
        if level_slots % free_slots != 0 && quotient == usize::MAX {
            assert(free_slots == 1) by (nonlinear_arith)
                requires
                    quotient == level_slots / free_slots,
                    quotient >= level_slots,
                    level_slots > 0,
                    free_slots > 0,
            ;
        }
    }
    let ratio_ceiling: usize = if level_slots % free_slots == 0 {
        quotient
    } else {
        quotient + 1
    };
    let log_ceiling: usize = ceil_log2(ratio_ceiling);
    proof {
        assert(log_ceiling * log_ceiling <= 64 * 64) by (nonlinear_arith)
            requires
                log_ceiling <= 64,
        ;
        assert(log_ceiling * log_ceiling >= 0) by (nonlinear_arith);
    }
    let log_squared: usize = log_ceiling * log_ceiling;
    let capped: usize = if log_squared < delta_log2 as usize {
        log_squared
    } else {
        delta_log2 as usize
    };
    match c.checked_mul(capped) {
        Some(budget) => Ok(budget),
        None => Err(ElasticProbeBudgetError::Overflow),
    }
}

/// The fill exponent is the least `k` for which `level <= free * 2^k`.
pub proof fn law_fill_exponent_is_least(free: nat, level: nat)
    requires
        0 < free <= level,
    ensures
        level <= free * pow2(fill_exponent(free, level)),
        fill_exponent(free, level) > 0 ==> level > free * pow2(
            (fill_exponent(free, level) - 1) as nat,
        ),
{
    let ratio = arith::ceil_div(level, free);
    let k = fill_exponent(free, level);
    lemma2_to64();
    lemma_fundamental_div_mod(level as int, free as int);
    lemma_mod_bound(level as int, free as int);
    assert(level <= free * ratio && free * (ratio - 1) < level && ratio >= 1) by (nonlinear_arith)
        requires
            level == free * (level / free) + level % free,
            level % free == 0 ==> ratio == level / free,
            level % free != 0 ==> ratio == level / free + 1,
            0 <= level % free < free,
            level > 0,
            free > 0,
    ;
    if ratio >= 2 {
        crate::elastic_plan::lemma_ceil_log2_exists(ratio);
    }
    assert(ratio <= pow2(k));
    assert(free * ratio <= free * pow2(k)) by (nonlinear_arith)
        requires
            ratio <= pow2(k),
            free >= 0,
    ;
    if k > 0 {
        let below = pow2((k - 1) as nat);
        assert(below < ratio);
        assert(free * below <= free * (ratio - 1)) by (nonlinear_arith)
            requires
                below <= ratio - 1,
                free >= 0,
        ;
    }
}

/// The fill exponent is the only `k` that is least with `level <= free * 2^k`.
pub proof fn law_fill_exponent_is_unique(free: nat, level: nat, k: nat)
    requires
        0 < free <= level,
        level <= free * pow2(k),
        k > 0 ==> level > free * pow2((k - 1) as nat),
    ensures
        fill_exponent(free, level) == k,
{
    law_fill_exponent_is_least(free, level);
    let found = fill_exponent(free, level);
    if found < k {
        arith::lemma_pow2_monotone(found, (k - 1) as nat);
        assert(free * pow2(found) <= free * pow2((k - 1) as nat)) by (nonlinear_arith)
            requires
                pow2(found) <= pow2((k - 1) as nat),
        ;
    } else if k < found {
        arith::lemma_pow2_monotone(k, (found - 1) as nat);
        assert(free * pow2(k) <= free * pow2((found - 1) as nat)) by (nonlinear_arith)
            requires
                pow2(k) <= pow2((found - 1) as nat),
        ;
    }
}

/// How the encoding is spelled: the digits of `i` behind a zero, and before them, for each
/// digit of `j` from the first on, a one and that digit.
pub proof fn law_phi_spells_its_coordinates(i: nat, j: nat, digit: nat, width: nat)
    requires
        digit <= 1,
        2 * j + digit > 0,
        i < pow2(width),
        width > 0 ==> pow2((width - 1) as nat) <= i,
    ensures
        phi(i, 0) == i,
        phi(i, 2 * j + digit) - i == 4 * (phi(i, j) - i) + (2 + digit) * pow2(width + 1),
{
    lemma_digits_unique(i, width);
    let weight = pow2(digits(i) + 1) as int;
    assert(marked(0) == 0);
    assert(0 * weight == 0) by (nonlinear_arith);
    let longer = 2 * j + digit;
    assert(longer / 2 == j && longer % 2 == digit);
    assert(marked(longer) == 4 * marked(j) + 2 + digit);
    assert((4 * marked(j) + 2 + digit) * weight == 4 * (marked(j) * weight) + (2 + digit) * weight)
        by (nonlinear_arith);
}

/// The probe budget is `c min(k^2, d)` for the least `k` with `level <= free 2^k`: it grows
/// with the square of how often the free slots must double to fill the level, up to `d`.
pub proof fn law_probe_budget(free: nat, level: nat, delta_log2: nat, c: nat, k: nat)
    requires
        0 < free <= level,
        level <= free * pow2(k),
        k > 0 ==> level > free * pow2((k - 1) as nat),
    ensures
        k * k <= delta_log2 ==> dyadic_budget(free, level, delta_log2, c) == c * (k * k),
        k * k >= delta_log2 ==> dyadic_budget(free, level, delta_log2, c) == c * delta_log2,
{
    law_fill_exponent_is_unique(free, level, k);
}

} // verus!
