//! The filter words of an Elastic table: which keys it may hold, and at which
//! levels.

use vstd::prelude::*;

use crate::membership::{self, MembershipKey};
use crate::probe::{self, CounterPrf, PreparedElasticProbe};

verus! {

/// The construction seed shared by placement, lookup and membership.
pub const ELASTIC_PROBE_SEED: u64 = 0x2d35_8dcc_aa6c_78a5;

/// The levels that a route summary tells apart; the last stands for all deeper
/// ones.
pub const ROUTE_SUMMARY_LEVELS: usize = 16;

/// One filter word: membership bits, and the levels of four route bins.
#[derive(Clone, Copy, Debug)]
pub struct ElasticMetadataWord {
    /// The membership bits.
    pub membership: u64,
    /// The level summaries of the route bins.
    pub route_bins: [u16; 4],
}

/// A key's prepared route.
#[derive(Clone, Copy, Debug, PartialEq, Eq, Structural)]
pub struct PreparedElasticRoute {
    /// The prepared probe.
    pub probe: PreparedElasticProbe,
}

/// The prepared probe of a hash.
pub open spec fn probe_of(hash: u64) -> PreparedElasticProbe {
    probe::prepared_elastic(ELASTIC_PROBE_SEED, hash)
}

impl PreparedElasticRoute {
    /// Prepares the route of a hash.
    #[inline]
    pub fn new(hash: u64) -> (result: Self)
        ensures
            result.probe == probe_of(hash),
    {
        PreparedElasticRoute { probe: CounterPrf::new(ELASTIC_PROBE_SEED).prepare_elastic(hash) }
    }

    /// The geometry-independent signature.
    #[inline]
    pub fn signature(self) -> (result: u64)
        ensures
            result == self.probe.signature(),
    {
        self.probe.routing_signature()
    }

    /// The route bin.
    #[inline]
    pub fn summary_bin(self) -> (result: usize)
        ensures
            result as u64 == self.probe.signature() & 3,
            result < 4,
    {
        let signature: u64 = self.signature();
        proof {
            lemma_bin_below(signature);
        }
        (signature & 3) as usize
    }
}

/// A signature has one of four route bins.
proof fn lemma_bin_below(signature: u64)
    ensures
        signature & 3 < 4,
{
    membership::lemma_bit_places(signature);
}

/// A key prepared for filter and probes, once per operation.
#[derive(Clone, Copy, Debug, PartialEq, Eq, Structural)]
pub struct PreparedElasticKey {
    /// The route.
    pub route: PreparedElasticRoute,
    /// The filter bits.
    pub membership: MembershipKey,
}

impl PreparedElasticKey {
    /// The signature.
    pub open spec fn sign(self) -> u64 {
        self.route.probe.signature()
    }

    /// The filter bits are those of the route.
    pub open spec fn wf(self) -> bool {
        self.membership.spec_bits() == membership::bits_of(self.sign())
    }

    /// Whether this is the preparation of a hash.
    pub open spec fn is_for(self, hash: u64) -> bool {
        self.wf() && self.route.probe == probe_of(hash)
    }

    /// Prepares a hash.
    #[inline]
    pub fn new(hash: u64) -> (result: Self)
        ensures
            result.is_for(hash),
    {
        let route: PreparedElasticRoute = PreparedElasticRoute::new(hash);
        PreparedElasticKey {
            route,
            membership: MembershipKey::from_signature(route.signature()),
        }
    }
}

/// Both filter answers for one prepared key.
#[derive(Clone, Copy, Debug, PartialEq, Eq, Structural)]
pub struct ElasticRouteFilter {
    /// `false` proves that no insertion ever recorded this key.
    pub maybe_present: bool,
    /// Summary bits of the levels that this route bin has occupied. Bit `i`
    /// stands for level `i`; the last bit stands for every deeper level too.
    pub level_mask: u32,
}

/// The summary bit that stands for a level.
pub open spec fn summary_of(level: nat) -> nat {
    if level < ROUTE_SUMMARY_LEVELS - 1 {
        level
    } else {
        (ROUTE_SUMMARY_LEVELS - 1) as nat
    }
}

/// The summary bit that stands for a level.
#[inline]
pub fn summary_level(level: usize) -> (result: usize)
    ensures
        result as nat == summary_of(level as nat),
{
    if level < ROUTE_SUMMARY_LEVELS - 1 {
        level
    } else {
        ROUTE_SUMMARY_LEVELS - 1
    }
}

/// A mask whose last summary bit is widened over the levels that it stands for.
pub open spec fn widened(mask: u32) -> u32 {
    mask | (if mask & 0x8000 != 0 {
        0xffff_8000u32
    } else {
        0u32
    })
}

/// A widened mask has the bit of a level exactly where the mask has its summary.
proof fn lemma_widened(mask: u32, level: u32)
    requires
        mask <= 0xffff,
        level < 32,
    ensures
        widened(mask) & (1u32 << level) != 0 <==> mask & (1u32 << (summary_of(level as nat) as u32))
            != 0,
{
    let summary = summary_of(level as nat) as u32;
    assert(((mask | (if mask & 0x8000 != 0 {
        0xffff_8000u32
    } else {
        0u32
    })) & (1u32 << level) != 0) <==> (mask & (1u32 << summary) != 0)) by (bit_vector)
        requires
            mask <= 0xffff,
            level < 32,
            summary == (if level < 15 {
                level
            } else {
                15u32
            }),
    ;
}

impl ElasticRouteFilter {
    /// The level mask with the last summary bit widened over every level that it
    /// stands for, so that a lookup tests the bit of a level directly.
    #[inline]
    pub fn expanded_level_mask(self) -> (result: u32)
        ensures
            result == widened(self.level_mask),
    {
        let saturated: u32 = self.level_mask & 0x8000;
        self.level_mask | (if saturated != 0 {
            0xffff_8000u32
        } else {
            0u32
        })
    }
}

/// The membership answer for a signature.
pub open spec fn may_hold(words: Seq<ElasticMetadataWord>, signature: u64) -> bool {
    words.len() > 0 && {
        let word = words[membership::word_of(signature, words.len()) as int];
        word.membership & membership::bits_of(signature) == membership::bits_of(signature)
    }
}

/// The levels that the route bin of a signature has occupied.
pub open spec fn levels_of(words: Seq<ElasticMetadataWord>, signature: u64) -> u32 {
    if words.len() == 0 {
        0
    } else {
        words[membership::word_of(signature, words.len()) as int].route_bins@[(signature
            & 3) as int] as u32
    }
}

/// Whether a signature was recorded at a level, as far as the filter tells.
pub open spec fn admits(words: Seq<ElasticMetadataWord>, signature: u64, level: nat) -> bool {
    may_hold(words, signature) && widened(levels_of(words, signature)) & (1u32 << (level as u32))
        != 0
}

/// The filter words of a table.
#[derive(Debug)]
pub struct RouteMetadata {
    words: Vec<ElasticMetadataWord>,
}

impl View for RouteMetadata {
    type V = Seq<ElasticMetadataWord>;

    closed spec fn view(&self) -> Seq<ElasticMetadataWord> {
        self.words@
    }
}

/// A word with nothing recorded.
pub open spec fn is_blank(word: ElasticMetadataWord) -> bool {
    word.membership == 0 && word.route_bins@ =~= seq![0u16, 0u16, 0u16, 0u16]
}

/// What a filter word holds.
pub struct WordModel {
    /// The membership bits.
    pub membership: u64,
    /// The level summaries of the route bins.
    pub bins: Seq<u16>,
}

/// What filter words hold.
pub open spec fn model(words: Seq<ElasticMetadataWord>) -> Seq<WordModel> {
    words.map_values(
        |word: ElasticMetadataWord|
            WordModel { membership: word.membership, bins: word.route_bins@ },
    )
}

/// What filter words hold with nothing recorded.
pub open spec fn blank_model(words: nat) -> Seq<WordModel> {
    Seq::new(words, |i: int| WordModel { membership: 0, bins: seq![0u16, 0u16, 0u16, 0u16] })
}

/// What filter words hold after recording a signature at a level: in the word of the
/// signature, its bits are set, and the level's summary bit in its route bin.
pub open spec fn with_record(words: Seq<WordModel>, signature: u64, level: nat) -> Seq<WordModel> {
    if words.len() == 0 {
        words
    } else {
        let place = membership::word_of(signature, words.len()) as int;
        let bin = (signature & 3) as int;
        words.update(
            place,
            WordModel {
                membership: words[place].membership | membership::bits_of(signature),
                bins: words[place].bins.update(
                    bin,
                    words[place].bins[bin] | (1u16 << (summary_of(level) as u16)),
                ),
            },
        )
    }
}

/// The order in which bits are set does not matter.
proof fn lemma_bits_commute(a: u64, b: u64, c: u64, x: u16, y: u16, z: u16)
    by (bit_vector)
    ensures
        (a | b) | c == (a | c) | b,
        (x | y) | z == (x | z) | y,
{
}

/// Recording keeps the number of words and of their route bins.
pub proof fn lemma_record_keeps_bins(words: Seq<WordModel>, signature: u64, level: nat)
    requires
        forall|i: int| 0 <= i < words.len() ==> (#[trigger] words[i]).bins.len() == 4,
    ensures
        with_record(words, signature, level).len() == words.len(),
        forall|i: int|
            0 <= i < words.len() ==> (#[trigger] with_record(words, signature, level)[i]).bins.len()
                == 4,
{
    if words.len() > 0 {
        membership::lemma_word_below(signature, words.len());
        lemma_bin_below(signature);
        assert forall|i: int| 0 <= i < words.len() implies (
        #[trigger] with_record(words, signature, level)[i]).bins.len() == 4 by {
            assert(words[i].bins.len() == 4);
        }
    }
}

/// The order in which two signatures are recorded does not matter.
pub proof fn lemma_records_commute(
    words: Seq<WordModel>,
    first: u64,
    first_level: nat,
    second: u64,
    second_level: nat,
)
    requires
        forall|i: int| 0 <= i < words.len() ==> (#[trigger] words[i]).bins.len() == 4,
    ensures
        with_record(with_record(words, first, first_level), second, second_level) == with_record(
            with_record(words, second, second_level),
            first,
            first_level,
        ),
{
    if words.len() > 0 {
        membership::lemma_word_below(first, words.len());
        membership::lemma_word_below(second, words.len());
        lemma_bin_below(first);
        lemma_bin_below(second);
        let p = membership::word_of(first, words.len()) as int;
        let q = membership::word_of(second, words.len()) as int;
        let i = (first & 3) as int;
        let j = (second & 3) as int;
        let left = with_record(with_record(words, first, first_level), second, second_level);
        let right = with_record(with_record(words, second, second_level), first, first_level);
        lemma_bits_commute(
            words[p].membership,
            membership::bits_of(first),
            membership::bits_of(second),
            words[p].bins[i],
            1u16 << (summary_of(first_level) as u16),
            1u16 << (summary_of(second_level) as u16),
        );
        if p == q {
            assert(left[p].bins =~= right[p].bins);
        }
        assert(left =~= right);
    }
}

/// Words with nothing recorded hold what blank words hold.
pub proof fn lemma_blank_model(words: Seq<ElasticMetadataWord>)
    requires
        forall|i: int| 0 <= i < words.len() ==> is_blank(#[trigger] words[i]),
    ensures
        model(words) == blank_model(words.len()),
{
    assert forall|i: int| 0 <= i < words.len() implies #[trigger] model(words)[i] == blank_model(
        words.len(),
    )[i] by {
        assert(is_blank(words[i]));
    }
    assert(model(words) =~= blank_model(words.len()));
}

impl RouteMetadata {
    /// Words with nothing recorded.
    pub fn new(words: usize) -> (result: Self)
        ensures
            result@.len() == words,
            forall|i: int| 0 <= i < words ==> is_blank(#[trigger] result@[i]),
    {
        RouteMetadata::fill(words, Vec::new())
    }

    /// Words with nothing recorded; `None` where the memory cannot be had.
    pub fn try_new(words: usize) -> (result: Option<Self>)
        ensures
            match result {
                Some(metadata) => metadata@.len() == words && forall|i: int|
                    0 <= i < words ==> is_blank(#[trigger] metadata@[i]),
                None => words > 0,
            },
    {
        let mut start: Vec<ElasticMetadataWord> = Vec::new();
        if words > 0 && start.try_reserve(words).is_err() {
            return None;
        }
        Some(RouteMetadata::fill(words, start))
    }

    fn fill(words: usize, start: Vec<ElasticMetadataWord>) -> (result: Self)
        requires
            start@.len() == 0,
        ensures
            result@.len() == words,
            forall|i: int| 0 <= i < words ==> is_blank(#[trigger] result@[i]),
    {
        let mut filled: Vec<ElasticMetadataWord> = start;
        while filled.len() < words
            invariant
                filled@.len() <= words,
                forall|i: int| 0 <= i < filled@.len() ==> is_blank(#[trigger] filled@[i]),
            decreases words - filled@.len(),
        {
            filled.push(ElasticMetadataWord { membership: 0, route_bins: [0, 0, 0, 0] });
        }
        RouteMetadata { words: filled }
    }

    /// Both filter answers from one word.
    #[inline]
    pub fn route_filter(&self, prepared: PreparedElasticKey) -> (result: ElasticRouteFilter)
        requires
            prepared.wf(),
        ensures
            result.maybe_present == may_hold(self@, prepared.sign()),
            result.level_mask == levels_of(self@, prepared.sign()),
    {
        let words: usize = self.words.len();
        if words == 0 {
            return ElasticRouteFilter { maybe_present: false, level_mask: 0 };
        }
        let word: usize = MembershipKey::word(prepared.route.signature(), words);
        let metadata: ElasticMetadataWord = self.words[word];
        let bits: u64 = prepared.membership.bits();
        ElasticRouteFilter {
            maybe_present: metadata.membership & bits == bits,
            level_mask: metadata.route_bins[prepared.route.summary_bin()] as u32,
        }
    }

    /// Records a key at a level.
    #[inline]
    pub fn record(&mut self, prepared: PreparedElasticKey, level: usize)
        requires
            prepared.wf(),
            level < 32,
        ensures
            final(self)@.len() == old(self)@.len(),
            model(final(self)@) == with_record(model(old(self)@), prepared.sign(), level as nat),
            old(self)@.len() > 0 ==> admits(final(self)@, prepared.sign(), level as nat),
            forall|signature: u64, other: nat|
                other < 32 && admits(old(self)@, signature, other) ==> #[trigger] admits(
                    final(self)@,
                    signature,
                    other,
                ),
    {
        let words: usize = self.words.len();
        if words != 0 {
            let ghost before = self@;
            let word: usize = MembershipKey::word(prepared.route.signature(), words);
            let mut metadata: ElasticMetadataWord = self.words[word];
            let bin: usize = prepared.route.summary_bin();
            let summary: usize = summary_level(level);
            let bit: u16 = 1u16 << (summary as u16);
            let bits: u64 = prepared.membership.bits();
            metadata.membership = metadata.membership | bits;
            let bins: u16 = metadata.route_bins[bin];
            metadata.route_bins[bin] = bins | bit;
            self.words[word] = metadata;
            proof {
                lemma_recorded(before, self@, word as int, prepared.sign(), level as u32);
                assert(model(self@) =~= with_record(
                    model(before),
                    prepared.sign(),
                    level as nat,
                ));
            }
        }
    }

    /// Forgets every key.
    pub fn clear(&mut self)
        ensures
            final(self)@.len() == old(self)@.len(),
            forall|i: int| 0 <= i < final(self)@.len() ==> is_blank(#[trigger] final(self)@[i]),
    {
        let mut index: usize = 0;
        while index < self.words.len()
            invariant
                index <= self.words@.len(),
                self.words@.len() == old(self).words@.len(),
                forall|i: int| 0 <= i < index ==> is_blank(#[trigger] self.words@[i]),
            decreases self.words@.len() - index,
        {
            self.words[index] = ElasticMetadataWord { membership: 0, route_bins: [0, 0, 0, 0] };
            index = index + 1;
        }
    }

    /// A copy of the filter.
    pub fn copy(&self) -> (result: Self)
        ensures
            result@ == self@,
    {
        let mut words: Vec<ElasticMetadataWord> = Vec::new();
        while words.len() < self.words.len()
            invariant
                words@.len() <= self.words@.len(),
                words@ == self.words@.take(words@.len() as int),
            decreases self.words@.len() - words@.len(),
        {
            proof {
                assert(self.words@.take(words@.len() as int + 1) =~= self.words@.take(
                    words@.len() as int,
                ).push(self.words@[words@.len() as int]));
            }
            words.push(self.words[words.len()]);
        }
        assert(self.words@.take(self.words@.len() as int) =~= self.words@);
        RouteMetadata { words }
    }
}

/// Setting bits of one word admits the recorded key and keeps what was admitted.
proof fn lemma_recorded(
    before: Seq<ElasticMetadataWord>,
    after: Seq<ElasticMetadataWord>,
    word: int,
    recorded: u64,
    level: u32,
)
    requires
        0 <= word < before.len(),
        level < 32,
        word == membership::word_of(recorded, before.len()),
        after.len() == before.len(),
        forall|i: int| 0 <= i < before.len() && i != word ==> #[trigger] after[i] == before[i],
        after[word].membership == before[word].membership | membership::bits_of(recorded),
        after[word].route_bins@ == before[word].route_bins@.update(
            (recorded & 3) as int,
            before[word].route_bins@[(recorded & 3) as int] | (1u16 << (summary_of(
                level as nat,
            ) as u16)),
        ),
    ensures
        admits(after, recorded, level as nat),
        forall|signature: u64, other: nat|
            other < 32 && admits(before, signature, other) ==> #[trigger] admits(
                after,
                signature,
                other,
            ),
{
    assert forall|signature: u64| #[trigger] (signature & 3) < 4 by {
        lemma_bin_below(signature);
    }
    let old_bits = before[word].membership;
    let new_bits = membership::bits_of(recorded);
    let bins = before[word].route_bins@[(recorded & 3) as int];
    let summary = summary_of(level as nat) as u16;
    assert forall|held: u64| old_bits & held == held implies #[trigger] ((old_bits | new_bits)
        & held) == held by {
        assert((old_bits | new_bits) & held == held) by (bit_vector)
            requires
                old_bits & held == held,
        ;
    }
    assert((old_bits | new_bits) & new_bits == new_bits) by (bit_vector);
    assert(((bins | (1u16 << summary)) as u32) & (1u32 << (summary as u32)) != 0) by (bit_vector)
        requires
            summary < 16,
    ;
    assert forall|other: u32| other < 16 && (bins as u32) & (1u32 << other) != 0 implies (((bins | (
    1u16 << summary)) as u32) & #[trigger] (1u32 << other)) != 0 by {
        assert(((bins | (1u16 << summary)) as u32) & (1u32 << other) != 0) by (bit_vector)
            requires
                summary < 16,
                other < 16,
                (bins as u32) & (1u32 << other) != 0,
        ;
    }
    lemma_widened(levels_of(after, recorded), level);
    assert forall|signature: u64, other: nat|
        other < 32 && admits(before, signature, other) implies #[trigger] admits(
        after,
        signature,
        other,
    ) by {
        membership::lemma_word_below(signature, before.len());
        lemma_widened(levels_of(before, signature), other as u32);
        lemma_widened(levels_of(after, signature), other as u32);
        let place = membership::word_of(signature, before.len()) as int;
        if place == word {
            let held = membership::bits_of(signature);
            assert(((old_bits | new_bits) & held) == held);
            let slot = summary_of(other) as u32;
            assert(slot < 16);
            if signature & 3 == recorded & 3 {
                assert((bins as u32) & (1u32 << slot) != 0);
            }
        }
    }
}

/// A filter with nothing recorded holds no key.
pub proof fn law_blank_filter_admits_nothing(
    words: Seq<ElasticMetadataWord>,
    signature: u64,
)
    requires
        forall|i: int| 0 <= i < words.len() ==> is_blank(#[trigger] words[i]),
    ensures
        !may_hold(words, signature),
{
    if words.len() > 0 {
        membership::lemma_word_below(signature, words.len());
        let word = words[membership::word_of(signature, words.len()) as int];
        let first = signature & 63;
        let bits = membership::bits_of(signature);
        assert(0u64 & bits != bits && signature & 63 < 64) by (bit_vector)
            requires
                bits == (1u64 << (signature & 63)) | (1u64 << ((signature >> 32) & 63)),
        ;
    }
}

/// Recording a signature touches no word but its own, sets at most two bits there, and one
/// bit of one of its four route bins.
pub proof fn law_records_touch_one_word(words: Seq<WordModel>, signature: u64, level: nat)
    requires
        words.len() > 0,
        forall|i: int| 0 <= i < words.len() ==> (#[trigger] words[i]).bins.len() == 4,
    ensures
        ({
            let after = with_record(words, signature, level);
            let place = membership::word_of(signature, words.len()) as int;
            &&& after.len() == words.len()
            &&& 0 <= place < words.len()
            &&& forall|i: int|
                0 <= i < words.len() && i != place ==> #[trigger] after[i] == words[i]
            &&& exists|first: u64, second: u64|
                first < 64 && second < 64 && after[place].membership == words[place].membership
                    | #[trigger] two_bits(first, second)
            &&& exists|bin: int, bit: u16|
                0 <= bin < 4 && bit < 16 && after[place].bins == words[place].bins.update(
                    bin,
                    words[place].bins[bin] | #[trigger] bin_bit(bin, bit),
                )
        }),
{
    membership::lemma_word_below(signature, words.len());
    lemma_bin_below(signature);
    let first = signature & 63;
    let second = (signature >> 32) & 63;
    membership::lemma_bit_places(signature);
    assert(membership::bits_of(signature) == two_bits(first, second));
    let bin = (signature & 3) as int;
    let bit = summary_of(level) as u16;
    assert(bin_bit(bin, bit) == 1u16 << bit);
}

/// A word with two bits set.
pub open spec fn two_bits(first: u64, second: u64) -> u64 {
    (1u64 << first) | (1u64 << second)
}

/// The bit of a level in a route bin.
pub open spec fn bin_bit(bin: int, bit: u16) -> u16 {
    1u16 << bit
}

} // verus!
