//! Reproducible probe randomness: domain-separated counter mixers.

use vstd::arithmetic::power2::*;
use vstd::prelude::*;

use crate::arith::exact_log2;
use crate::reduction::{
    self, reduce_probe_words, reduce_words_from, threshold_of, top_bits_index, ProbeIndex,
    RangeReductionError,
};

verus! {

/// A domain in which one exact finite probe word is requested.
///
/// Keeping ordinary levels and each special-array choice distinct prevents an
/// implementation from reusing one counter stream for separate choices.
#[derive(Clone, Copy, Debug, Eq, Hash, PartialEq, Structural)]
pub enum ProbeDomain {
    /// An ordinary Elastic level.
    ElasticOrdinary {
        /// The zero-based logical level index.
        level: u64,
    },
    /// An ordinary Funnel level.
    FunnelOrdinary {
        /// The zero-based logical level index.
        level: u64,
    },
    /// The primary choice in Funnel's special array.
    FunnelSpecialPrimary,
    /// Choice A when selecting a Funnel special-array fallback.
    FunnelSpecialFallbackChoiceA,
    /// Choice B when selecting a Funnel special-array fallback.
    FunnelSpecialFallbackChoiceB,
}

/// Lane of the seed.
pub const INITIAL_LANE: u64 = 0x9e37_79b9_7f4a_7c15;

/// Lane of the key's hash.
pub const KEY_LANE: u64 = 0xa076_1d64_78bd_642f;

/// Lane of the domain kind.
pub const DOMAIN_KIND_LANE: u64 = 0xe703_7ed1_a0b4_28db;

/// Lane of the level.
pub const DOMAIN_LEVEL_LANE: u64 = 0x8ebc_6af0_9c88_c6e3;

/// Lane of the logical probe index.
pub const PROBE_LANE: u64 = 0x5899_65cc_7537_4cc3;

/// Lane of the rejection index.
pub const REJECTION_LANE: u64 = 0x1d8e_4e27_c47d_124f;

/// Salt of the membership signature.
pub const MEMBERSHIP_SALT: u64 = 0x2d35_8dcc_aa6c_78a5;

/// Ordinary Funnel levels that a packed counter can name.
pub const FUNNEL_LEVEL_LIMIT: u64 = 0x4000_0000_0000;

/// Logical probes that a packed Funnel counter can name.
pub const FUNNEL_LOGICAL_LIMIT: u64 = 256;

/// Retries that a packed Funnel counter can name.
pub const FUNNEL_REJECTION_LIMIT: u32 = 256;

/// The 64-bit avalanche permutation: two multiply-xorshift rounds.
#[verifier::opaque]
pub open spec fn mix(value: u64) -> u64 {
    let first = (value ^ (value >> 30u64)).wrapping_mul(0xbf58_476d_1ce4_e5b9);
    let second = (first ^ (first >> 27u64)).wrapping_mul(0x94d0_49bb_1331_11eb);
    second ^ (second >> 31u64)
}

/// Mixes one tuple component into a state, separated by its lane.
pub open spec fn absorb(state: u64, value: u64, lane: u64) -> u64 {
    mix(state.wrapping_add(mix(value.wrapping_add(lane))))
}

/// The 64-bit avalanche mixer.
pub fn mix64(value: u64) -> (result: u64)
    ensures
        result == mix(value),
{
    reveal(mix);
    let first: u64 = (value ^ (value >> 30u64)).wrapping_mul(0xbf58_476d_1ce4_e5b9);
    let second: u64 = (first ^ (first >> 27u64)).wrapping_mul(0x94d0_49bb_1331_11eb);
    second ^ (second >> 31u64)
}

fn absorb_counter_lane(state: u64, value: u64, lane: u64) -> (result: u64)
    ensures
        result == absorb(state, value, lane),
{
    mix64(state.wrapping_add(mix64(value.wrapping_add(lane))))
}

/// Supplies random words to probe implementations.
///
/// Implementations are stable functions of the complete input tuple: repeated
/// evaluation of the same tuple returns the same word. Implementing this trait
/// does not itself establish independence or uniformity.
pub trait ProbeOracle {
    /// The word of a tuple.
    spec fn word_of(&self, key_hash: u64, domain: ProbeDomain, logical: u64, retry: u32) -> u64;

    /// Whether the oracle has a word for a tuple.
    spec fn has_word(&self, domain: ProbeDomain, logical: u64, retry: u32) -> bool;

    /// Returns one word for a fully domain-separated logical counter tuple.
    ///
    /// `rejection_index` starts at zero and advances only when an exact range
    /// reduction needs another word. Such retries do not advance
    /// `logical_probe_index` and therefore remain part of one logical probe.
    fn word(
        &self,
        key_hash: u64,
        domain: ProbeDomain,
        logical_probe_index: u64,
        rejection_index: u32,
    ) -> (result: u64)
        requires
            self.has_word(domain, logical_probe_index, rejection_index),
        ensures
            result == self.word_of(key_hash, domain, logical_probe_index, rejection_index),
    ;
}

/// The retry words of one logical probe.
pub open spec fn oracle_words<O: ProbeOracle>(
    oracle: O,
    key_hash: u64,
    domain: ProbeDomain,
    logical: u64,
) -> spec_fn(u32) -> u64 {
    |retry: u32| oracle.word_of(key_hash, domain, logical, retry)
}

/// Samples an unbiased index in `[0, upper)` with multiply-high and rejection.
///
/// `max_random_words` explicitly bounds adversarial rejection. Retry words
/// increment only the rejection index; they do not create additional logical
/// probes.
pub fn unbiased_probe_index<O: ProbeOracle>(
    oracle: &O,
    key_hash: u64,
    domain: ProbeDomain,
    logical_probe_index: u64,
    upper: usize,
    max_random_words: u32,
) -> (result: Result<ProbeIndex, RangeReductionError>)
    requires
        forall|retry: u32|
            retry < max_random_words && reduction::drawn(
                oracle_words(*oracle, key_hash, domain, logical_probe_index),
                upper as nat,
                retry,
            ) ==> #[trigger] oracle.has_word(domain, logical_probe_index, retry),
    ensures
        result == reduction::reduced(
            oracle_words(*oracle, key_hash, domain, logical_probe_index),
            upper as nat,
            max_random_words,
        ),
{
    let ghost words = oracle_words(*oracle, key_hash, domain, logical_probe_index);
    let word = |retry: u32| -> (value: u64)
        requires
            oracle.has_word(domain, logical_probe_index, retry),
        ensures
            value == words(retry),
        { oracle.word(key_hash, domain, logical_probe_index, retry) };
    reduce_probe_words(upper, max_random_words, word, Ghost(words))
}

/// A seeded, copyable counter mixer for reproducible exact probing.
///
/// The construction domain-separates every tuple component before applying a
/// 64-bit avalanche mixer. Its outputs are not evidence of statistical
/// independence.
#[derive(Clone, Copy, Debug, Eq, PartialEq, Structural)]
pub struct CounterPrf {
    /// The seed.
    pub seed: u64,
}

/// The code of a domain and its level.
pub open spec fn domain_code(domain: ProbeDomain) -> (u64, u64) {
    match domain {
        ProbeDomain::ElasticOrdinary { level } => (1, level),
        ProbeDomain::FunnelOrdinary { level } => (2, level),
        ProbeDomain::FunnelSpecialPrimary => (3, 0),
        ProbeDomain::FunnelSpecialFallbackChoiceA => (4, 0),
        ProbeDomain::FunnelSpecialFallbackChoiceB => (5, 0),
    }
}

/// The state of a counter mixer after its seed and a key.
pub open spec fn keyed_state(seed: u64, key_hash: u64) -> u64 {
    absorb(mix(seed.wrapping_add(INITIAL_LANE)), key_hash, KEY_LANE)
}

impl ProbeOracle for CounterPrf {
    open spec fn word_of(
        &self,
        key_hash: u64,
        domain: ProbeDomain,
        logical: u64,
        retry: u32,
    ) -> u64 {
        let (kind, level) = domain_code(domain);
        let domain_state = absorb(keyed_state(self.seed, key_hash), kind, DOMAIN_KIND_LANE);
        let level_state = absorb(domain_state, level, DOMAIN_LEVEL_LANE);
        absorb(absorb(level_state, logical, PROBE_LANE), retry as u64, REJECTION_LANE)
    }

    open spec fn has_word(&self, domain: ProbeDomain, logical: u64, retry: u32) -> bool {
        true
    }

    fn word(
        &self,
        key_hash: u64,
        domain: ProbeDomain,
        logical_probe_index: u64,
        rejection_index: u32,
    ) -> (result: u64) {
        let (kind, level): (u64, u64) = match domain {
            ProbeDomain::ElasticOrdinary { level } => (1, level),
            ProbeDomain::FunnelOrdinary { level } => (2, level),
            ProbeDomain::FunnelSpecialPrimary => (3, 0),
            ProbeDomain::FunnelSpecialFallbackChoiceA => (4, 0),
            ProbeDomain::FunnelSpecialFallbackChoiceB => (5, 0),
        };
        let mut state: u64 = mix64(self.seed.wrapping_add(INITIAL_LANE));
        state = absorb_counter_lane(state, key_hash, KEY_LANE);
        state = absorb_counter_lane(state, kind, DOMAIN_KIND_LANE);
        state = absorb_counter_lane(state, level, DOMAIN_LEVEL_LANE);
        state = absorb_counter_lane(state, logical_probe_index, PROBE_LANE);
        absorb_counter_lane(state, rejection_index as u64, REJECTION_LANE)
    }
}

impl CounterPrf {
    /// Creates a deterministic counter mixer with `seed`.
    #[must_use]
    pub fn new(seed: u64) -> (result: Self)
        ensures
            result.seed == seed,
    {
        CounterPrf { seed }
    }

    /// Absorbs a key for repeated Elastic probing.
    pub fn prepare_elastic(&self, key_hash: u64) -> (result: PreparedElasticProbe)
        ensures
            result == prepared_elastic(self.seed, key_hash),
    {
        let state: u64 = mix64(self.seed.wrapping_add(INITIAL_LANE));
        let keyed: u64 = absorb_counter_lane(state, key_hash, KEY_LANE);
        PreparedElasticProbe { domain_state: absorb_counter_lane(keyed, 1, DOMAIN_KIND_LANE) }
    }
}

/// A key absorbed into the Elastic domain, ready for any level.
#[derive(Clone, Copy, Debug, Eq, PartialEq, Structural)]
pub struct PreparedElasticProbe {
    /// The mixer state after seed, key and domain kind.
    pub domain_state: u64,
}

/// A key absorbed into one Elastic level, ready for any logical probe.
#[derive(Clone, Copy, Debug, Eq, PartialEq, Structural)]
pub struct PreparedElasticLevelProbe {
    /// The mixer state after seed, key, domain kind and level.
    pub level_state: u64,
}

/// A key absorbed into the Elastic domain of a seed.
pub open spec fn prepared_elastic(seed: u64, key_hash: u64) -> PreparedElasticProbe {
    PreparedElasticProbe {
        domain_state: absorb(keyed_state(seed, key_hash), 1, DOMAIN_KIND_LANE),
    }
}

/// The lane of an Elastic level.
pub open spec fn level_lane_of(level: u64) -> u64 {
    mix(level.wrapping_add(DOMAIN_LEVEL_LANE))
}

/// The lane of a logical Elastic probe.
pub open spec fn probe_lane_of(logical: u64) -> u64 {
    mix(logical.wrapping_add(PROBE_LANE))
}

/// The retry words of one logical Elastic probe.
pub open spec fn elastic_words(level_state: u64, probe_lane: u64) -> spec_fn(u32) -> u64 {
    |retry: u32|
        mix(
            mix(level_state.wrapping_add(probe_lane)).wrapping_add(
                mix((retry as u64).wrapping_add(REJECTION_LANE)),
            ),
        )
}

impl PreparedElasticProbe {
    /// This probe at one level.
    pub open spec fn at_level(self, level: u64) -> PreparedElasticLevelProbe {
        PreparedElasticLevelProbe {
            level_state: mix(self.domain_state.wrapping_add(level_lane_of(level))),
        }
    }

    /// The geometry-independent signature of the key.
    pub open spec fn signature(self) -> u64 {
        mix(self.domain_state.wrapping_add(MEMBERSHIP_SALT))
    }

    /// The lane of a level.
    pub fn level_lane(level: u64) -> (result: u64)
        ensures
            result == level_lane_of(level),
    {
        mix64(level.wrapping_add(DOMAIN_LEVEL_LANE))
    }

    /// The lane of a logical probe.
    pub fn logical_probe_lane(logical_probe_index: u64) -> (result: u64)
        ensures
            result == probe_lane_of(logical_probe_index),
    {
        mix64(logical_probe_index.wrapping_add(PROBE_LANE))
    }

    /// Absorbs a level by its lane.
    #[inline]
    pub fn prepare_level_lane(&self, level_lane: u64) -> (result: PreparedElasticLevelProbe)
        ensures
            result.level_state == mix(self.domain_state.wrapping_add(level_lane)),
    {
        PreparedElasticLevelProbe { level_state: mix64(self.domain_state.wrapping_add(level_lane)) }
    }

    /// The key's signature for the membership filter.
    #[inline]
    pub fn routing_signature(&self) -> (result: u64)
        ensures
            result == self.signature(),
    {
        mix64(self.domain_state.wrapping_add(MEMBERSHIP_SALT))
    }
}

impl ProbeOracle for PreparedElasticProbe {
    open spec fn word_of(
        &self,
        key_hash: u64,
        domain: ProbeDomain,
        logical: u64,
        retry: u32,
    ) -> u64 {
        elastic_words(
            self.at_level(domain->ElasticOrdinary_level).level_state,
            probe_lane_of(logical),
        )(retry)
    }

    open spec fn has_word(&self, domain: ProbeDomain, logical: u64, retry: u32) -> bool {
        domain is ElasticOrdinary
    }

    fn word(
        &self,
        _key_hash: u64,
        domain: ProbeDomain,
        logical_probe_index: u64,
        rejection_index: u32,
    ) -> (result: u64) {
        let level: u64 = match domain {
            ProbeDomain::ElasticOrdinary { level } => level,
            _ => 0,
        };
        self.prepare_level_lane(Self::level_lane(level)).word_from_probe_lane(
            Self::logical_probe_lane(logical_probe_index),
            rejection_index,
        )
    }
}

impl PreparedElasticLevelProbe {
    /// The word of one retry.
    #[inline]
    pub fn word_from_probe_lane(&self, logical_probe_lane: u64, rejection_index: u32) -> (result:
        u64)
        ensures
            result == elastic_words(self.level_state, logical_probe_lane)(rejection_index),
    {
        let state: u64 = mix64(self.level_state.wrapping_add(logical_probe_lane));
        let rejection_lane: u64 = mix64((rejection_index as u64).wrapping_add(REJECTION_LANE));
        mix64(state.wrapping_add(rejection_lane))
    }
}

/// An unbiased index from the words of one logical Elastic probe. A power of
/// two needs no rejection, and takes the top bits of the first word.
#[inline]
pub fn unbiased_prepared_elastic_probe_index(
    probe: &PreparedElasticLevelProbe,
    logical_probe_lane: u64,
    upper: usize,
    max_random_words: u32,
) -> (result: Result<ProbeIndex, RangeReductionError>)
    ensures
        result == reduction::reduced(
            elastic_words(probe.level_state, logical_probe_lane),
            upper as nat,
            max_random_words,
        ),
{
    let ghost words = elastic_words(probe.level_state, logical_probe_lane);
    match exact_log2(upper as u64) {
        Some(index_bits) => {
            proof {
                lemma_pow2_pos(index_bits as nat);
            }
            if max_random_words == 0 {
                return Err(RangeReductionError::RejectionLimitExceeded { random_word_count: 0 });
            }
            let word: u64 = probe.word_from_probe_lane(logical_probe_lane, 0);
            let index: u64 = top_bits_index(word, index_bits);
            proof {
                reduction::lemma_candidate_below(word, upper as nat);
            }
            Ok(ProbeIndex { index: index as usize, random_word_count: 1 })
        },
        None => {
            let word = |retry: u32| -> (value: u64)
                ensures
                    value == words(retry),
                { probe.word_from_probe_lane(logical_probe_lane, retry) };
            reduce_probe_words(upper, max_random_words, word, Ghost(words))
        },
    }
}

/// The words of a prepared Elastic probe are those of the full counter mixer.
pub proof fn law_prepared_elastic_words_match_the_mixer(
    prf: CounterPrf,
    key_hash: u64,
    level: u64,
    logical: u64,
    retry: u32,
)
    ensures
        prepared_elastic(prf.seed, key_hash).word_of(
            0,
            ProbeDomain::ElasticOrdinary { level },
            logical,
            retry,
        ) == prf.word_of(key_hash, ProbeDomain::ElasticOrdinary { level }, logical, retry),
{
}

/// The reduction of a prepared Elastic probe is that of the full counter mixer.
pub proof fn law_prepared_elastic_reduction_matches_the_mixer(
    prf: CounterPrf,
    key_hash: u64,
    level: u64,
    logical: u64,
    upper: nat,
    limit: u32,
)
    ensures
        reduction::reduced(
            elastic_words(
                prepared_elastic(prf.seed, key_hash).at_level(level).level_state,
                probe_lane_of(logical),
            ),
            upper,
            limit,
        ) == reduction::reduced(
            oracle_words(prf, key_hash, ProbeDomain::ElasticOrdinary { level }, logical),
            upper,
            limit,
        ),
{
    let prepared = elastic_words(
        prepared_elastic(prf.seed, key_hash).at_level(level).level_state,
        probe_lane_of(logical),
    );
    let full = oracle_words(prf, key_hash, ProbeDomain::ElasticOrdinary { level }, logical);
    assert forall|retry: u32| #[trigger] prepared(retry) == full(retry) by {
        law_prepared_elastic_words_match_the_mixer(prf, key_hash, level, logical, retry);
    }
    assert(prepared =~= full);
}

/// A domain-separated Funnel counter permutation.
///
/// The packed counter preserves the distinct ordinary, primary, and two
/// fallback choices. The construction is deterministic.
#[derive(Clone, Copy, Debug, Eq, PartialEq, Structural)]
pub struct FunnelPrf {
    /// The seed.
    pub seed: u64,
}

/// A key absorbed into the Funnel permutation.
#[derive(Clone, Copy, Debug, Eq, PartialEq, Structural)]
pub struct PreparedFastFunnelProbe {
    /// The key that whitens the counter.
    pub key_in: u64,
    /// The key that whitens the word.
    pub key_out: u64,
}

/// A key absorbed into one Funnel domain.
#[derive(Clone, Copy, Debug, Eq, PartialEq, Structural)]
pub struct PreparedFastFunnelDomainProbe {
    /// The key that whitens the counter.
    pub key_in: u64,
    /// The key that whitens the word.
    pub key_out: u64,
    /// The counter of the domain's first probe.
    pub counter_base: u64,
}

/// A range with its rejection threshold.
#[derive(Clone, Copy, Debug, Eq, PartialEq, Structural)]
pub struct PreparedProbeRange {
    /// The bound.
    pub upper: usize,
    /// The low halves to reject.
    pub rejection_threshold: u64,
}

/// The tag and level under which a Funnel domain is packed.
pub open spec fn funnel_tag(domain: ProbeDomain) -> Option<(nat, nat)> {
    match domain {
        ProbeDomain::FunnelOrdinary { level } => if level < FUNNEL_LEVEL_LIMIT {
            Some((0, level as nat))
        } else {
            None
        },
        ProbeDomain::FunnelSpecialPrimary => Some((1, 0)),
        ProbeDomain::FunnelSpecialFallbackChoiceA => Some((2, 0)),
        ProbeDomain::FunnelSpecialFallbackChoiceB => Some((3, 0)),
        ProbeDomain::ElasticOrdinary { level } => None,
    }
}

/// The counter of a Funnel request: two digits for the domain, forty-six for
/// the level, and eight each for the logical probe and the retry.
pub open spec fn funnel_counter(domain: ProbeDomain, logical: u64, retry: u32) -> Option<u64> {
    if logical >= FUNNEL_LOGICAL_LIMIT || retry >= FUNNEL_REJECTION_LIMIT {
        None
    } else {
        match funnel_tag(domain) {
            Some((tag, level)) => Some(
                (tag * 0x4000_0000_0000_0000 + level * 0x1_0000 + logical * 0x100 + retry) as u64,
            ),
            None => None,
        }
    }
}

/// Distinct Funnel requests have distinct counters.
pub proof fn law_funnel_counters_are_injective(
    domain: ProbeDomain,
    logical: u64,
    retry: u32,
    other_domain: ProbeDomain,
    other_logical: u64,
    other_retry: u32,
)
    requires
        funnel_counter(domain, logical, retry) is Some,
        funnel_counter(domain, logical, retry) == funnel_counter(
            other_domain,
            other_logical,
            other_retry,
        ),
    ensures
        domain == other_domain,
        logical == other_logical,
        retry == other_retry,
{
    let (tag, level) = funnel_tag(domain)->0;
    let (other_tag, other_level) = funnel_tag(other_domain)->0;
    assert(tag <= 3 && level < 0x4000_0000_0000);
    assert(other_tag <= 3 && other_level < 0x4000_0000_0000);
}

/// Packs one Funnel request into a collision-free counter. Unsupported domains
/// and out-of-range values fail instead of truncating.
pub fn try_pack_funnel_counter(
    domain: ProbeDomain,
    logical_probe_index: u64,
    rejection_index: u32,
) -> (result: Option<u64>)
    ensures
        result == funnel_counter(domain, logical_probe_index, rejection_index),
{
    if logical_probe_index >= FUNNEL_LOGICAL_LIMIT || rejection_index >= FUNNEL_REJECTION_LIMIT {
        return None;
    }
    let (tag, level): (u64, u64) = match domain {
        ProbeDomain::FunnelOrdinary { level } => {
            if level >= FUNNEL_LEVEL_LIMIT {
                return None;
            }
            (0, level)
        },
        ProbeDomain::FunnelSpecialPrimary => (1, 0),
        ProbeDomain::FunnelSpecialFallbackChoiceA => (2, 0),
        ProbeDomain::FunnelSpecialFallbackChoiceB => (3, 0),
        ProbeDomain::ElasticOrdinary { .. } => {
            return None;
        },
    };
    let retry: u64 = rejection_index as u64;
    proof {
        assert((tag << 62) | (level << 16) | (logical_probe_index << 8) | retry == tag
            * 0x4000_0000_0000_0000 + level * 0x1_0000 + logical_probe_index * 0x100 + retry)
            by (bit_vector)
            requires
                tag <= 3,
                level < 0x4000_0000_0000,
                logical_probe_index < 256,
                retry < 256,
        ;
    }
    Some((tag << 62) | (level << 16) | (logical_probe_index << 8) | retry)
}

/// A key absorbed into the Funnel permutation of a seed.
pub open spec fn prepared_funnel(seed: u64, key_hash: u64) -> PreparedFastFunnelProbe {
    let keyed = key_hash.wrapping_add(seed);
    PreparedFastFunnelProbe {
        key_in: mix(keyed.wrapping_add(KEY_LANE)),
        key_out: mix(keyed.wrapping_add(DOMAIN_KIND_LANE)),
    }
}

impl FunnelPrf {
    /// Creates the deterministic Funnel counter permutation for `seed`.
    #[must_use]
    pub fn new(seed: u64) -> (result: Self)
        ensures
            result.seed == seed,
    {
        FunnelPrf { seed }
    }

    /// Absorbs a key.
    #[inline]
    pub fn prepare(&self, key_hash: u64) -> (result: PreparedFastFunnelProbe)
        ensures
            result == prepared_funnel(self.seed, key_hash),
    {
        let keyed: u64 = key_hash.wrapping_add(self.seed);
        PreparedFastFunnelProbe {
            key_in: mix64(keyed.wrapping_add(KEY_LANE)),
            key_out: mix64(keyed.wrapping_add(DOMAIN_KIND_LANE)),
        }
    }

    /// The counter of an ordinary level's first probe.
    pub fn ordinary_counter_base(level: u64) -> (result: Option<u64>)
        ensures
            result == funnel_counter(ProbeDomain::FunnelOrdinary { level }, 0, 0),
    {
        try_pack_funnel_counter(ProbeDomain::FunnelOrdinary { level }, 0, 0)
    }
}

impl ProbeOracle for FunnelPrf {
    open spec fn word_of(
        &self,
        key_hash: u64,
        domain: ProbeDomain,
        logical: u64,
        retry: u32,
    ) -> u64 {
        prepared_funnel(self.seed, key_hash).counter_word(
            funnel_counter(domain, logical, retry)->0,
        )
    }

    open spec fn has_word(&self, domain: ProbeDomain, logical: u64, retry: u32) -> bool {
        funnel_counter(domain, logical, retry) is Some
    }

    fn word(
        &self,
        key_hash: u64,
        domain: ProbeDomain,
        logical_probe_index: u64,
        rejection_index: u32,
    ) -> (result: u64) {
        let counter: u64 = match try_pack_funnel_counter(
            domain,
            logical_probe_index,
            rejection_index,
        ) {
            Some(counter) => counter,
            None => 0,
        };
        self.prepare(key_hash).word_from_counter(counter)
    }
}

impl PreparedFastFunnelProbe {
    /// The word of a counter.
    pub open spec fn counter_word(self, counter: u64) -> u64 {
        mix(counter ^ self.key_in) ^ self.key_out
    }

    /// This probe in one domain.
    pub open spec fn in_domain(self, domain: ProbeDomain) -> PreparedFastFunnelDomainProbe {
        PreparedFastFunnelDomainProbe {
            key_in: self.key_in,
            key_out: self.key_out,
            counter_base: funnel_counter(domain, 0, 0)->0,
        }
    }

    #[inline]
    fn word_from_counter(self, counter: u64) -> (result: u64)
        ensures
            result == self.counter_word(counter),
    {
        mix64(counter ^ self.key_in) ^ self.key_out
    }

    /// Absorbs a domain; `None` for one that has no packed counter.
    #[inline]
    pub fn prepare_domain(self, domain: ProbeDomain) -> (result: Option<
        PreparedFastFunnelDomainProbe,
    >)
        ensures
            match funnel_tag(domain) {
                Some(_) => result == Some(self.in_domain(domain)),
                None => result is None,
            },
    {
        match try_pack_funnel_counter(domain, 0, 0) {
            Some(counter_base) => Some(self.prepare_counter_base(counter_base)),
            None => None,
        }
    }

    /// Absorbs a domain by the counter of its first probe.
    #[inline]
    pub fn prepare_counter_base(self, counter_base: u64) -> (result: PreparedFastFunnelDomainProbe)
        ensures
            result == (PreparedFastFunnelDomainProbe {
                key_in: self.key_in,
                key_out: self.key_out,
                counter_base,
            }),
    {
        PreparedFastFunnelDomainProbe { key_in: self.key_in, key_out: self.key_out, counter_base }
    }
}

impl PreparedFastFunnelDomainProbe {
    /// The counter of a retry of a logical probe.
    pub open spec fn counter(self, logical: u64, retry: u32) -> u64 {
        self.counter_base | (logical << 8u64) | (retry as u64)
    }

    /// The retry words of a logical probe.
    pub open spec fn words(self, logical: u64) -> spec_fn(u32) -> u64 {
        |retry: u32| mix(self.counter(logical, retry) ^ self.key_in) ^ self.key_out
    }

    /// The word of one retry of a logical probe.
    #[inline]
    pub fn word(self, logical_probe_index: u64, rejection_index: u32) -> (result: u64)
        requires
            logical_probe_index < FUNNEL_LOGICAL_LIMIT,
            rejection_index < FUNNEL_REJECTION_LIMIT,
        ensures
            result == self.words(logical_probe_index)(rejection_index),
    {
        let counter: u64 = self.counter_base | (logical_probe_index << 8u64) | (rejection_index
            as u64);
        mix64(counter ^ self.key_in) ^ self.key_out
    }
}

/// The counter of a prepared domain probe is the packed counter of its request.
pub proof fn lemma_domain_counter_is_packed(
    probe: PreparedFastFunnelProbe,
    domain: ProbeDomain,
    logical: u64,
    retry: u32,
)
    requires
        funnel_counter(domain, logical, retry) is Some,
    ensures
        probe.in_domain(domain).counter(logical, retry) == funnel_counter(
            domain,
            logical,
            retry,
        )->0,
{
    let (tag, level) = funnel_tag(domain)->0;
    let base = funnel_counter(domain, 0, 0)->0;
    let wide = retry as u64;
    let low = (tag * 0x4000_0000_0000_0000 + level * 0x1_0000) as u64;
    assert(base == low);
    assert(low % 0x1_0000 == 0);
    assert(low | (logical << 8u64) | wide == low + logical * 0x100 + wide) by (bit_vector)
        requires
            low % 0x1_0000 == 0,
            logical < 256,
            wide < 256,
    ;
}

/// The words and reductions of a prepared Funnel probe are those of the full
/// Funnel permutation.
pub proof fn law_prepared_funnel_words_match_the_permutation(
    prf: FunnelPrf,
    key_hash: u64,
    domain: ProbeDomain,
    logical: u64,
    retry: u32,
)
    requires
        funnel_counter(domain, logical, retry) is Some,
    ensures
        prepared_funnel(prf.seed, key_hash).in_domain(domain).words(logical)(retry) == prf.word_of(
            key_hash,
            domain,
            logical,
            retry,
        ),
{
    lemma_domain_counter_is_packed(prepared_funnel(prf.seed, key_hash), domain, logical, retry);
}

impl PreparedProbeRange {
    /// A threshold that belongs to the bound.
    pub open spec fn wf(self) -> bool {
        if self.upper == 0 {
            self.rejection_threshold == 0
        } else {
            self.rejection_threshold as nat == reduction::rejection_threshold(self.upper as nat)
        }
    }

    /// A placeholder for a range that is never drawn from.
    pub fn empty() -> (result: Self)
        ensures
            result.upper == 0,
            result.rejection_threshold == 0,
            result.wf(),
    {
        PreparedProbeRange { upper: 0, rejection_threshold: 0 }
    }

    /// The range `[0, upper)`.
    pub fn new(upper: usize) -> (result: Result<Self, RangeReductionError>)
        ensures
            upper == 0 ==> result == Err::<Self, _>(RangeReductionError::ZeroUpperBound),
            upper > 0 ==> (result matches Ok(range) && range.upper == upper && range.wf()),
    {
        if upper == 0 {
            return Err(RangeReductionError::ZeroUpperBound);
        }
        Ok(PreparedProbeRange { upper, rejection_threshold: threshold_of(upper as u64) })
    }

    /// The bound.
    #[inline]
    pub fn upper(self) -> (result: usize)
        ensures
            result == self.upper,
    {
        self.upper
    }
}

/// The index that a Funnel probe draws from a range.
pub open spec fn funnel_index(
    probe: PreparedFastFunnelDomainProbe,
    logical: u64,
    range: PreparedProbeRange,
    limit: u32,
) -> Result<ProbeIndex, RangeReductionError> {
    reduction::reduce_from(
        probe.words(logical),
        range.upper as nat,
        range.rejection_threshold as nat,
        0,
        limit,
    )
}

/// An unbiased index from the words of one logical Funnel probe. A retry index
/// beyond the packed counters is never reached.
#[inline]
pub fn unbiased_prepared_funnel_probe_index_in_range(
    probe: &PreparedFastFunnelDomainProbe,
    logical_probe_index: u64,
    range: PreparedProbeRange,
    max_random_words: u32,
) -> (result: Result<ProbeIndex, RangeReductionError>)
    requires
        range.wf(),
        max_random_words > 0 ==> logical_probe_index < FUNNEL_LOGICAL_LIMIT,
        max_random_words <= FUNNEL_REJECTION_LIMIT || exists|retry: u32|
            retry < FUNNEL_REJECTION_LIMIT && reduction::accepted(
                #[trigger] probe.words(logical_probe_index)(retry),
                range.upper as nat,
                range.rejection_threshold as nat,
            ),
    ensures
        result == funnel_index(*probe, logical_probe_index, range, max_random_words),
{
    let ghost words = probe.words(logical_probe_index);
    let word = |retry: u32| -> (value: u64)
        requires
            logical_probe_index < FUNNEL_LOGICAL_LIMIT,
            retry < FUNNEL_REJECTION_LIMIT,
        ensures
            value == words(retry),
        { probe.word(logical_probe_index, retry) };
    proof {
        assert forall|retry: u32|
            (0 <= retry < max_random_words && (forall|earlier: u32|
                0 <= earlier < retry ==> !reduction::accepted(
                    #[trigger] words(earlier),
                    range.upper as nat,
                    range.rejection_threshold as nat,
                ))) implies #[trigger] word.requires((retry,)) by {
            if max_random_words > FUNNEL_REJECTION_LIMIT && retry >= FUNNEL_REJECTION_LIMIT {
                let hit = choose|hit: u32|
                    hit < FUNNEL_REJECTION_LIMIT && reduction::accepted(
                        #[trigger] words(hit),
                        range.upper as nat,
                        range.rejection_threshold as nat,
                    );
                assert(!reduction::accepted(
                    words(hit),
                    range.upper as nat,
                    range.rejection_threshold as nat,
                ));
            }
        }
    }
    reduce_words_from(
        word,
        Ghost(words),
        range.upper,
        range.rejection_threshold,
        0,
        max_random_words,
    )
}

/// The index that a prepared Funnel probe draws is that of the full Funnel
/// permutation over the same range.
pub proof fn law_prepared_funnel_reduction_matches_the_permutation(
    prf: FunnelPrf,
    key_hash: u64,
    domain: ProbeDomain,
    logical: u64,
    range: PreparedProbeRange,
    limit: u32,
)
    requires
        range.wf(),
        range.upper > 0,
        limit <= FUNNEL_REJECTION_LIMIT,
        funnel_counter(domain, logical, 0) is Some,
    ensures
        funnel_index(
            prepared_funnel(prf.seed, key_hash).in_domain(domain),
            logical,
            range,
            limit,
        ) == reduction::reduced(
            oracle_words(prf, key_hash, domain, logical),
            range.upper as nat,
            limit,
        ),
{
    lemma_funnel_reductions_agree(prf, key_hash, domain, logical, range, 0, limit);
}

proof fn lemma_funnel_reductions_agree(
    prf: FunnelPrf,
    key_hash: u64,
    domain: ProbeDomain,
    logical: u64,
    range: PreparedProbeRange,
    from: u32,
    limit: u32,
)
    requires
        limit <= FUNNEL_REJECTION_LIMIT,
        funnel_counter(domain, logical, 0) is Some,
    ensures
        reduction::reduce_from(
            prepared_funnel(prf.seed, key_hash).in_domain(domain).words(logical),
            range.upper as nat,
            range.rejection_threshold as nat,
            from,
            limit,
        ) == reduction::reduce_from(
            oracle_words(prf, key_hash, domain, logical),
            range.upper as nat,
            range.rejection_threshold as nat,
            from,
            limit,
        ),
    decreases limit - from,
{
    if from < limit {
        law_prepared_funnel_words_match_the_permutation(prf, key_hash, domain, logical, from);
        lemma_funnel_reductions_agree(
            prf,
            key_hash,
            domain,
            logical,
            range,
            (from + 1) as u32,
            limit,
        );
    }
}

/// The index that the words of an oracle choose lies below its bound.
pub proof fn law_choices_are_in_range<O: ProbeOracle>(
    oracle: O,
    key_hash: u64,
    domain: ProbeDomain,
    logical: u64,
    upper: nat,
    limit: u32,
)
    requires
        0 < upper <= usize::MAX,
    ensures
        reduction::reduced(
            oracle_words(oracle, key_hash, domain, logical),
            upper,
            limit,
        ) matches Ok(found) ==> found.index < upper && 1 <= found.random_word_count <= limit,
{
    reduction::law_reduced_index_is_in_range(
        oracle_words(oracle, key_hash, domain, logical),
        upper,
        reduction::rejection_threshold(upper),
        0,
        limit,
    );
}

/// Xor with a shift of itself, or with a key, loses nothing of a word.
proof fn lemma_xors_are_injective(a: u64, b: u64, key: u64)
    by (bit_vector)
    ensures
        a ^ (a >> 30u64) == b ^ (b >> 30u64) ==> a == b,
        a ^ (a >> 27u64) == b ^ (b >> 27u64) ==> a == b,
        a ^ (a >> 31u64) == b ^ (b >> 31u64) ==> a == b,
        a ^ key == b ^ key ==> a == b,
{
}

/// Multiplying by a number that has an inverse loses nothing of a word.
proof fn lemma_odd_product_is_injective(a: u64, b: u64, factor: u64, inverse: u64)
    requires
        (factor * inverse) % 0x1_0000_0000_0000_0000 == 1,
        a.wrapping_mul(factor) == b.wrapping_mul(factor),
    ensures
        a == b,
{
    lemma_product_undone(a, factor, inverse);
    lemma_product_undone(b, factor, inverse);
}

/// A factor's inverse undoes a product.
proof fn lemma_product_undone(a: u64, factor: u64, inverse: u64)
    requires
        (factor * inverse) % 0x1_0000_0000_0000_0000 == 1,
    ensures
        (a.wrapping_mul(factor) * inverse) % 0x1_0000_0000_0000_0000 == a,
{
    let m = 0x1_0000_0000_0000_0000int;
    let product = a * factor;
    assert(a.wrapping_mul(factor) == product % m);
    vstd::arithmetic::div_mod::lemma_mul_mod_noop_left(product, inverse as int, m);
    assert(product * inverse == a * (factor * inverse)) by (nonlinear_arith)
        requires
            product == a * factor,
    ;
    vstd::arithmetic::div_mod::lemma_mul_mod_noop_right(a as int, factor * inverse, m);
    assert(a * 1 == a);
    vstd::arithmetic::div_mod::lemma_small_mod(a as nat, m as nat);
}

/// The mixer is a permutation: different words are mixed to different words.
pub proof fn law_mixing_tells_words_apart(left: u64, right: u64)
    requires
        mix(left) == mix(right),
    ensures
        left == right,
{
    reveal(mix);
    let first = (left ^ (left >> 30u64)).wrapping_mul(0xbf58_476d_1ce4_e5b9);
    let second = (first ^ (first >> 27u64)).wrapping_mul(0x94d0_49bb_1331_11eb);
    let other_first = (right ^ (right >> 30u64)).wrapping_mul(0xbf58_476d_1ce4_e5b9);
    let other_second = (other_first ^ (other_first >> 27u64)).wrapping_mul(
        0x94d0_49bb_1331_11eb,
    );
    lemma_xors_are_injective(second, other_second, 0);
    assert((0x94d0_49bb_1331_11eb * 0x319642b2d24d8ec3) % 0x1_0000_0000_0000_0000 == 1);
    lemma_odd_product_is_injective(
        first ^ (first >> 27u64),
        other_first ^ (other_first >> 27u64),
        0x94d0_49bb_1331_11eb,
        0x319642b2d24d8ec3,
    );
    lemma_xors_are_injective(first, other_first, 0);
    assert((0xbf58_476d_1ce4_e5b9 * 0x96de1b173f119089) % 0x1_0000_0000_0000_0000 == 1);
    lemma_odd_product_is_injective(
        left ^ (left >> 30u64),
        right ^ (right >> 30u64),
        0xbf58_476d_1ce4_e5b9,
        0x96de1b173f119089,
    );
    lemma_xors_are_injective(left, right, 0);
}

/// Adding a word loses nothing of another.
proof fn lemma_sums_are_injective(a: u64, b: u64, word: u64)
    requires
        a.wrapping_add(word) == b.wrapping_add(word),
    ensures
        a == b,
{
}

/// Absorbing different values into a state, or a value into different states, gives
/// different states.
pub proof fn law_absorbing_tells_values_apart(
    state: u64,
    other_state: u64,
    value: u64,
    other_value: u64,
    lane: u64,
)
    requires
        absorb(state, value, lane) == absorb(other_state, other_value, lane),
    ensures
        state == other_state ==> value == other_value,
        value == other_value ==> state == other_state,
{
    let mixed = mix(value.wrapping_add(lane));
    let other_mixed = mix(other_value.wrapping_add(lane));
    law_mixing_tells_words_apart(
        state.wrapping_add(mixed),
        other_state.wrapping_add(other_mixed),
    );
    if state == other_state {
        lemma_sums_are_injective(mixed, other_mixed, state);
        law_mixing_tells_words_apart(value.wrapping_add(lane), other_value.wrapping_add(lane));
        lemma_sums_are_injective(value, other_value, lane);
    }
    if value == other_value {
        lemma_sums_are_injective(state, other_state, mixed);
    }
}

/// The words of the Elastic mixer differ wherever one part of the request does: the key's
/// hash, the level, the logical probe or the retry.
pub proof fn law_elastic_words_tell_probes_apart(
    prf: CounterPrf,
    key_hash: u64,
    level: u64,
    logical: u64,
    retry: u32,
    other: u64,
)
    ensures
        ({
            let word = prf.word_of(
                key_hash,
                ProbeDomain::ElasticOrdinary { level },
                logical,
                retry,
            );
            &&& other != logical ==> prf.word_of(
                key_hash,
                ProbeDomain::ElasticOrdinary { level },
                other,
                retry,
            ) != word
            &&& other != level ==> prf.word_of(
                key_hash,
                ProbeDomain::ElasticOrdinary { level: other },
                logical,
                retry,
            ) != word
            &&& other != key_hash ==> prf.word_of(
                other,
                ProbeDomain::ElasticOrdinary { level },
                logical,
                retry,
            ) != word
            &&& other <= u32::MAX && other != retry ==> prf.word_of(
                key_hash,
                ProbeDomain::ElasticOrdinary { level },
                logical,
                other as u32,
            ) != word
        }),
{
    let start = mix(prf.seed.wrapping_add(INITIAL_LANE));
    let keyed = keyed_state(prf.seed, key_hash);
    let other_keyed = keyed_state(prf.seed, other);
    let domain = absorb(keyed, 1, DOMAIN_KIND_LANE);
    let other_domain = absorb(other_keyed, 1, DOMAIN_KIND_LANE);
    let at = absorb(domain, level, DOMAIN_LEVEL_LANE);
    let other_at = absorb(domain, other, DOMAIN_LEVEL_LANE);
    let keyed_at = absorb(other_domain, level, DOMAIN_LEVEL_LANE);
    let probe = absorb(at, logical, PROBE_LANE);
    if other <= u32::MAX && absorb(probe, other as u32 as u64, REJECTION_LANE) == absorb(
        probe,
        retry as u64,
        REJECTION_LANE,
    ) {
        law_absorbing_tells_values_apart(probe, probe, other, retry as u64, REJECTION_LANE);
    }
    if absorb(absorb(at, other, PROBE_LANE), retry as u64, REJECTION_LANE) == absorb(
        probe,
        retry as u64,
        REJECTION_LANE,
    ) {
        law_absorbing_tells_values_apart(
            absorb(at, other, PROBE_LANE),
            probe,
            retry as u64,
            retry as u64,
            REJECTION_LANE,
        );
        law_absorbing_tells_values_apart(at, at, other, logical, PROBE_LANE);
    }
    if absorb(absorb(other_at, logical, PROBE_LANE), retry as u64, REJECTION_LANE) == absorb(
        probe,
        retry as u64,
        REJECTION_LANE,
    ) {
        law_absorbing_tells_values_apart(
            absorb(other_at, logical, PROBE_LANE),
            probe,
            retry as u64,
            retry as u64,
            REJECTION_LANE,
        );
        law_absorbing_tells_values_apart(other_at, at, logical, logical, PROBE_LANE);
        law_absorbing_tells_values_apart(domain, domain, other, level, DOMAIN_LEVEL_LANE);
    }
    if absorb(absorb(keyed_at, logical, PROBE_LANE), retry as u64, REJECTION_LANE) == absorb(
        probe,
        retry as u64,
        REJECTION_LANE,
    ) {
        law_absorbing_tells_values_apart(
            absorb(keyed_at, logical, PROBE_LANE),
            probe,
            retry as u64,
            retry as u64,
            REJECTION_LANE,
        );
        law_absorbing_tells_values_apart(keyed_at, at, logical, logical, PROBE_LANE);
        law_absorbing_tells_values_apart(other_domain, domain, level, level, DOMAIN_LEVEL_LANE);
        law_absorbing_tells_values_apart(other_keyed, keyed, 1, 1, DOMAIN_KIND_LANE);
        law_absorbing_tells_values_apart(start, start, other, key_hash, KEY_LANE);
    }
}

/// The words of the Funnel permutation for one key differ wherever the request does: in the
/// domain, the level, the logical probe or the retry.
pub proof fn law_funnel_words_tell_probes_apart(
    prf: FunnelPrf,
    key_hash: u64,
    domain: ProbeDomain,
    logical: u64,
    retry: u32,
    other_domain: ProbeDomain,
    other_logical: u64,
    other_retry: u32,
)
    requires
        prf.has_word(domain, logical, retry),
        prf.has_word(other_domain, other_logical, other_retry),
        prf.word_of(key_hash, domain, logical, retry) == prf.word_of(
            key_hash,
            other_domain,
            other_logical,
            other_retry,
        ),
    ensures
        domain == other_domain,
        logical == other_logical,
        retry == other_retry,
{
    let key = prepared_funnel(prf.seed, key_hash);
    let left = funnel_counter(domain, logical, retry)->0;
    let right = funnel_counter(other_domain, other_logical, other_retry)->0;
    lemma_xors_are_injective(mix(left ^ key.key_in), mix(right ^ key.key_in), key.key_out);
    law_mixing_tells_words_apart(left ^ key.key_in, right ^ key.key_in);
    lemma_xors_are_injective(left, right, key.key_in);
    law_funnel_counters_are_injective(
        domain,
        logical,
        retry,
        other_domain,
        other_logical,
        other_retry,
    );
}

} // verus!
