//! Unbiased reduction of random words to a bounded index.
//!
//! For a uniform 64-bit word, the high half of `word * upper` supplies the
//! candidate. Rejecting low halves below `2^64 mod upper` removes the short
//! residue classes, leaving exactly the same number of accepted source words
//! for every output index. A low half equal to the threshold is accepted.

use vstd::arithmetic::div_mod::*;
use vstd::arithmetic::mul::*;
use vstd::arithmetic::power2::*;
use vstd::prelude::*;

verus! {

/// One exact range-reduction result and its random-word cost.
#[derive(Clone, Copy, Debug, Eq, PartialEq, Structural)]
pub struct ProbeIndex {
    /// The sampled index in `[0, upper)`.
    pub index: usize,
    /// The number of oracle words consumed by this one logical probe.
    pub random_word_count: u32,
}

/// A failure to reduce oracle words to an exact bounded index.
#[derive(Clone, Copy, Debug, Eq, PartialEq, Structural)]
pub enum RangeReductionError {
    /// The requested range `[0, upper)` was empty.
    ZeroUpperBound,
    /// Every permitted oracle word fell in the exact algorithm's rejection
    /// interval.
    RejectionLimitExceeded {
        /// The number of rejected words consumed before returning.
        random_word_count: u32,
    },
}

/// `2^64`.
pub open spec fn word_range() -> int {
    0x1_0000_0000_0000_0000
}

/// `2^64 mod upper`, the low halves to reject.
pub open spec fn rejection_threshold(upper: nat) -> nat {
    (word_range() % upper as int) as nat
}

/// Whether a word is accepted: its low half reaches the threshold.
pub open spec fn accepted(word: u64, upper: nat, threshold: nat) -> bool {
    (word * upper) % word_range() >= threshold
}

/// The index that an accepted word selects, the high half.
pub open spec fn candidate(word: u64, upper: nat) -> nat {
    ((word * upper) / word_range()) as nat
}

/// The outcome of consuming words from retry `from` on, up to `limit` of them.
pub open spec fn reduce_from(
    words: spec_fn(u32) -> u64,
    upper: nat,
    threshold: nat,
    from: u32,
    limit: u32,
) -> Result<ProbeIndex, RangeReductionError>
    decreases limit - from,
{
    if from >= limit {
        Err(RangeReductionError::RejectionLimitExceeded { random_word_count: limit })
    } else if accepted(words(from), upper, threshold) {
        Ok(
            ProbeIndex {
                index: candidate(words(from), upper) as usize,
                random_word_count: (from + 1) as u32,
            },
        )
    } else {
        reduce_from(words, upper, threshold, (from + 1) as u32, limit)
    }
}

/// The unbiased index that the first accepted word gives.
pub open spec fn reduced(words: spec_fn(u32) -> u64, upper: nat, limit: u32) -> Result<
    ProbeIndex,
    RangeReductionError,
> {
    if upper == 0 {
        Err(RangeReductionError::ZeroUpperBound)
    } else {
        reduce_from(words, upper, rejection_threshold(upper), 0, limit)
    }
}

/// Whether a reduction comes to a word: all words before it are rejected.
pub open spec fn drawn(words: spec_fn(u32) -> u64, upper: nat, retry: u32) -> bool {
    &&& upper > 0
    &&& forall|earlier: u32|
        earlier < retry ==> !accepted(
            #[trigger] words(earlier),
            upper,
            rejection_threshold(upper),
        )
}

/// The candidate of a word lies below the upper bound.
pub proof fn lemma_candidate_below(word: u64, upper: nat)
    requires
        upper > 0,
    ensures
        candidate(word, upper) < upper,
        0 <= (word * upper) / word_range(),
{
    assert(0 <= word * upper < word_range() * upper) by (nonlinear_arith)
        requires
            word < word_range(),
            upper > 0,
            word_range() == 0x1_0000_0000_0000_0000,
    ;
    lemma_multiply_divide_lt((word * upper) as int, word_range(), upper as int);
    lemma_div_pos_is_pos((word * upper) as int, word_range());
}

/// A reduced index lies below its upper bound, and counts the words consumed.
pub proof fn law_reduced_index_is_in_range(
    words: spec_fn(u32) -> u64,
    upper: nat,
    threshold: nat,
    from: u32,
    limit: u32,
)
    requires
        0 < upper <= usize::MAX,
    ensures
        match reduce_from(words, upper, threshold, from, limit) {
            Ok(probe) => probe.index < upper && from < probe.random_word_count <= limit && probe.index
                as nat == candidate(words((probe.random_word_count - 1) as u32), upper) && accepted(
                words((probe.random_word_count - 1) as u32),
                upper,
                threshold,
            ) && forall|retry: u32|
                from <= retry < probe.random_word_count - 1 ==> !accepted(
                    #[trigger] words(retry),
                    upper,
                    threshold,
                ),
            Err(error) => error == (RangeReductionError::RejectionLimitExceeded {
                random_word_count: limit,
            }) && forall|retry: u32|
                from <= retry < limit ==> !accepted(#[trigger] words(retry), upper, threshold),
        },
    decreases limit - from,
{
    if from < limit {
        lemma_candidate_below(words(from), upper);
        if !accepted(words(from), upper, threshold) {
            law_reduced_index_is_in_range(words, upper, threshold, (from + 1) as u32, limit);
        }
    }
}

/// The accepted words of an index are those whose product with the bound falls
/// in a window whose width is a multiple of the bound.
proof fn lemma_acceptance_window(word: u64, upper: nat, index: nat)
    requires
        0 < upper < word_range(),
        index < upper,
    ensures
        accepted(word, upper, rejection_threshold(upper)) && candidate(word, upper) == index <==> index
            * word_range() + rejection_threshold(upper) <= word * upper < (index + 1)
            * word_range(),
{
    let product = (word * upper) as int;
    let range = word_range();
    assert(product >= 0) by (nonlinear_arith)
        requires
            product == word * upper,
    ;
    lemma_fundamental_div_mod(product, range);
    lemma_mod_bound(product, range);
    lemma_mod_bound(range, upper as int);
    lemma_div_pos_is_pos(product, range);
    if index * range <= product < (index + 1) * range {
        lemma_fundamental_div_mod_converse(product, range, index as int, product - index * range);
    }
}

/// The reduction is unbiased: each index below the bound is selected by exactly
/// `floor(2^64 / upper)` accepted words, which are consecutive.
pub proof fn law_reduction_is_unbiased(upper: nat, index: nat) -> (start: nat)
    requires
        0 < upper < word_range(),
        index < upper,
    ensures
        start + word_range() / upper as int <= word_range(),
        forall|word: u64|
            start <= word < start + word_range() / upper as int <==> (#[trigger] accepted(
                word,
                upper,
                rejection_threshold(upper),
            ) && candidate(word, upper) == index),
{
    let range = word_range();
    let threshold = rejection_threshold(upper) as int;
    let quotient = range / upper as int;
    let low = index * range + threshold;
    let bound = upper as int;
    lemma_fundamental_div_mod(range, bound);
    lemma_mod_bound(range, bound);
    assert(low >= 0) by (nonlinear_arith)
        requires
            low == index * range + threshold,
            threshold >= 0,
            range > 0,
            index >= 0,
    ;
    lemma_fundamental_div_mod(low, bound);
    lemma_mod_bound(low, bound);
    lemma_div_pos_is_pos(low, bound);
    let start = if low % bound == 0 {
        low / bound
    } else {
        low / bound + 1
    };
    // `start` is the first multiple that reaches the window.
    assert((start - 1) * bound < low <= start * bound) by (nonlinear_arith)
        requires
            low == bound * (low / bound) + low % bound,
            0 <= low % bound < bound,
            low % bound == 0 ==> start == low / bound,
            low % bound != 0 ==> start == low / bound + 1,
            bound > 0,
    ;
    assert((index + 1) * range == low + quotient * bound) by (nonlinear_arith)
        requires
            low == index * range + threshold,
            range == bound * quotient + threshold,
    ;
    assert(start + quotient <= range) by (nonlinear_arith)
        requires
            (start - 1) * bound < low,
            low + quotient * bound == (index + 1) * range,
            index + 1 <= bound,
            bound > 0,
            range > 0,
    ;
    assert forall|word: u64|
        start <= word < start + quotient <==> (#[trigger] accepted(
            word,
            upper,
            rejection_threshold(upper),
        ) && candidate(word, upper) == index) by {
        lemma_acceptance_window(word, upper, index);
        assert(start <= word <==> low <= word * bound) by (nonlinear_arith)
            requires
                (start - 1) * bound < low <= start * bound,
                bound > 0,
        ;
        assert(word < start + quotient <==> word * bound < low + quotient * bound)
            by (nonlinear_arith)
            requires
                (start - 1) * bound < low <= start * bound,
                bound > 0,
        ;
    }
    start as nat
}

/// The threshold of a positive bound.
pub fn threshold_of(upper_word: u64) -> (result: u64)
    requires
        upper_word > 0,
    ensures
        result as nat == rejection_threshold(upper_word as nat),
        result < upper_word,
{
    let negated: u64 = 0u64.wrapping_sub(upper_word);
    proof {
        assert(negated == word_range() - upper_word);
        lemma_mod_sub_multiples_vanish(word_range(), upper_word as int);
        lemma_mod_bound(word_range(), upper_word as int);
    }
    negated % upper_word
}

/// The two halves of the product of a word and a bound.
#[inline]
fn product_halves(word: u64, upper_word: u64) -> (result: (u64, u64))
    ensures
        result.0 == (word * upper_word) / word_range(),
        result.1 == (word * upper_word) % word_range(),
{
    proof {
        assert(0 <= word * upper_word <= 0xffff_ffff_ffff_ffff * 0xffff_ffff_ffff_ffff)
            by (nonlinear_arith)
            requires
                word <= 0xffff_ffff_ffff_ffff,
                upper_word <= 0xffff_ffff_ffff_ffff,
        ;
    }
    let product: u128 = (word as u128) * (upper_word as u128);
    proof {
        assert(product >> 64u128 == product / 0x1_0000_0000_0000_0000u128 && (product >> 64u128) as u64
            == product >> 64u128 && product as u64 == product % 0x1_0000_0000_0000_0000u128)
            by (bit_vector);
    }
    ((product >> 64u128) as u64, product as u64)
}

/// One word's outcome: the selected index, or `None` when it is rejected.
#[inline]
fn try_word(word: u64, upper: usize, threshold: u64) -> (result: Option<usize>)
    requires
        upper > 0 || threshold == 0,
    ensures
        match result {
            Some(index) => accepted(word, upper as nat, threshold as nat) && index as nat == candidate(
                word,
                upper as nat,
            ),
            None => !accepted(word, upper as nat, threshold as nat),
        },
{
    let (high, low) = product_halves(word, upper as u64);
    if low >= threshold {
        proof {
            if upper > 0 {
                lemma_candidate_below(word, upper as nat);
            } else {
                assert(word * 0 == 0) by (nonlinear_arith);
            }
        }
        Some(high as usize)
    } else {
        None
    }
}

/// Consumes words from retry `from` on until one is accepted.
pub(crate) fn reduce_words_from<F: Fn(u32) -> u64>(
    word: F,
    Ghost(words): Ghost<spec_fn(u32) -> u64>,
    upper: usize,
    threshold: u64,
    from: u32,
    max_random_words: u32,
) -> (result: Result<ProbeIndex, RangeReductionError>)
    requires
        upper > 0 || threshold == 0,
        forall|retry: u32|
            (from <= retry < max_random_words && (forall|earlier: u32|
                from <= earlier < retry ==> !accepted(
                    #[trigger] words(earlier),
                    upper as nat,
                    threshold as nat,
                ))) ==> #[trigger] word.requires((retry,)),
        forall|retry: u32, value: u64| #[trigger]
            word.ensures((retry,), value) ==> value == words(retry),
    ensures
        result == reduce_from(words, upper as nat, threshold as nat, from, max_random_words),
{
    let mut retry: u32 = from;
    while retry < max_random_words
        invariant
            from <= retry,
            upper > 0 || threshold == 0,
            forall|retry: u32|
                (from <= retry < max_random_words && (forall|earlier: u32|
                    from <= earlier < retry ==> !accepted(
                        #[trigger] words(earlier),
                        upper as nat,
                        threshold as nat,
                    ))) ==> #[trigger] word.requires((retry,)),
            forall|retry: u32, value: u64| #[trigger]
                word.ensures((retry,), value) ==> value == words(retry),
            forall|earlier: u32|
                from <= earlier < retry ==> !accepted(
                    #[trigger] words(earlier),
                    upper as nat,
                    threshold as nat,
                ),
            reduce_from(words, upper as nat, threshold as nat, from, max_random_words)
                == reduce_from(words, upper as nat, threshold as nat, retry, max_random_words),
        decreases max_random_words - retry,
    {
        let value: u64 = word(retry);
        match try_word(value, upper, threshold) {
            Some(index) => {
                return Ok(ProbeIndex { index, random_word_count: retry + 1 });
            },
            None => {},
        }
        retry = retry + 1;
    }
    Err(RangeReductionError::RejectionLimitExceeded { random_word_count: max_random_words })
}

/// Reduces words to an index below `upper`, consuming at most `max_random_words`.
pub(crate) fn reduce_probe_words<F: Fn(u32) -> u64>(
    upper: usize,
    max_random_words: u32,
    word: F,
    Ghost(words): Ghost<spec_fn(u32) -> u64>,
) -> (result: Result<ProbeIndex, RangeReductionError>)
    requires
        forall|retry: u32|
            retry < max_random_words && drawn(words, upper as nat, retry)
                ==> #[trigger] word.requires((retry,)),
        forall|retry: u32, value: u64| #[trigger]
            word.ensures((retry,), value) ==> value == words(retry),
    ensures
        result == reduced(words, upper as nat, max_random_words),
{
    if upper == 0 {
        return Err(RangeReductionError::ZeroUpperBound);
    }
    let threshold: u64 = threshold_of(upper as u64);
    reduce_words_from(word, Ghost(words), upper, threshold, 0, max_random_words)
}

/// The index that the top bits of a word select below a power of two, which is
/// what the exact reduction gives: its threshold is zero.
pub fn top_bits_index(word: u64, index_bits: u32) -> (result: u64)
    requires
        index_bits < 64,
    ensures
        result as nat == candidate(word, pow2(index_bits as nat)),
        rejection_threshold(pow2(index_bits as nat)) == 0,
        accepted(word, pow2(index_bits as nat), 0),
{
    let ghost power = pow2(index_bits as nat);
    let ghost rest = pow2((64 - index_bits) as nat);
    proof {
        lemma2_to64();
        lemma2_to64_rest();
        lemma_pow2_pos(index_bits as nat);
        lemma_pow2_pos((64 - index_bits) as nat);
        lemma_pow2_adds(index_bits as nat, (64 - index_bits) as nat);
        lemma_mul_is_commutative(power as int, rest as int);
        lemma_mod_multiples_basic(rest as int, power as int);
        lemma_mod_bound((word * power) as int, word_range());
        lemma_mul_is_commutative(power as int, word as int);
        lemma_div_denominator((word * power) as int, power as int, rest as int);
        lemma_div_by_multiple(word as int, power as int);
    }
    if index_bits == 0 {
        proof {
            lemma_basic_div(word as int, word_range());
        }
        0
    } else {
        let shift: u64 = 64 - index_bits as u64;
        proof {
            vstd::bits::lemma_u64_shr_is_div(word, shift);
        }
        word >> shift
    }
}

/// A reduction takes the first word that is accepted, and its share of the bound as the
/// index: `index 2^64 <= word upper < (index + 1) 2^64`. It fails only if no word below the
/// limit is accepted.
pub proof fn law_first_accepted_word_is_taken(
    words: spec_fn(u32) -> u64,
    upper: nat,
    from: u32,
    limit: u32,
)
    requires
        0 < upper <= usize::MAX,
        forall|earlier: u32|
            earlier < from ==> !accepted(
                #[trigger] words(earlier),
                upper,
                rejection_threshold(upper),
            ),
    ensures
        match reduce_from(words, upper, rejection_threshold(upper), from, limit) {
            Ok(found) => {
                let retry = (found.random_word_count - 1) as u32;
                &&& from < found.random_word_count <= limit
                &&& found.index * word_range() <= words(retry) * upper
                &&& words(retry) * upper < (found.index + 1) * word_range()
                &&& (words(retry) * upper) % word_range() >= word_range() % upper as int
                &&& forall|earlier: u32|
                    earlier < retry ==> (#[trigger] words(earlier) * upper) % word_range()
                        < word_range() % upper as int
            },
            Err(error) => {
                &&& error == RangeReductionError::RejectionLimitExceeded {
                    random_word_count: limit,
                }
                &&& forall|earlier: u32|
                    earlier < limit ==> (#[trigger] words(earlier) * upper) % word_range()
                        < word_range() % upper as int
            },
        },
    decreases limit - from,
{
    lemma_mod_bound(word_range(), upper as int);
    assert forall|retry: u32| accepted(#[trigger] words(retry), upper, rejection_threshold(upper))
        <==> (words(retry) * upper) % word_range() >= word_range() % upper as int by {}
    if from < limit {
        let product = words(from) * upper;
        lemma_candidate_below(words(from), upper);
        lemma_fundamental_div_mod(product, word_range());
        lemma_mod_bound(product, word_range());
        if accepted(words(from), upper, rejection_threshold(upper)) {
            assert((product / word_range()) * word_range() == word_range() * (product
                / word_range())) by (nonlinear_arith);
        } else {
            law_first_accepted_word_is_taken(words, upper, (from + 1) as u32, limit);
        }
    }
}

} // verus!
