//! The probe order of a Funnel table, and what a search along it finds.

use vstd::arithmetic::mul::*;
use vstd::prelude::*;

use crate::control::{self, CTRL_EMPTY, CTRL_TOMBSTONE};
use crate::funnel_scan::{self, BucketScanResult};
use crate::funnel_shape::{self, FunnelShape, LevelShape};
use crate::geometry::FunnelPlan;
use crate::probe::{
    self, unbiased_prepared_funnel_probe_index_in_range, FunnelPrf,
    PreparedFastFunnelDomainProbe, PreparedFastFunnelProbe, PreparedProbeRange, ProbeDomain,
};
use crate::reduction;
use crate::reserve::ReserveFraction;

verus! {

/// Seed of the Funnel permutation.
pub const FUNNEL_PROBE_SEED: u64 = 0x8A5C_7D31_6E29_B4F0;

/// Random words that one probe may consume.
pub const RANGE_WORD_CAP: u32 = 8;

/// The outcome of a search.
#[derive(Clone, Copy, Debug, Eq, PartialEq, Structural)]
pub enum SearchResult {
    /// The key's slot.
    Hit(usize),
    /// The key is absent, and this slot is the one to fill.
    Vacant(usize),
    /// The key is on no probe, and no probe is free.
    Full,
    /// A probe could not be drawn within its word limit.
    RangeFailure,
}

/// The slots of a probe order, and whether it could be drawn to its end.
pub ghost struct Trail {
    /// The slots, in order.
    pub cells: Seq<nat>,
    /// Whether every probe could be drawn.
    pub complete: bool,
}

impl Trail {
    /// The trail of a probe that could not be drawn.
    pub open spec fn failed() -> Trail {
        Trail { cells: Seq::empty(), complete: false }
    }

    /// This trail after some slots.
    pub open spec fn after(self, cells: Seq<nat>) -> Trail {
        Trail { cells: cells + self.cells, complete: self.complete }
    }
}

/// The index that a probe draws, if it can be drawn within the word limit.
pub open spec fn sampled(
    domain_probe: PreparedFastFunnelDomainProbe,
    logical: u64,
    range: PreparedProbeRange,
) -> Option<usize> {
    match probe::funnel_index(domain_probe, logical, range, RANGE_WORD_CAP) {
        Ok(index) => Some(index.index),
        Err(_) => None,
    }
}

/// Draws an index.
#[inline]
pub fn sample(
    domain_probe: &PreparedFastFunnelDomainProbe,
    logical_probe: u64,
    range: PreparedProbeRange,
) -> (result: Option<usize>)
    requires
        range.wf(),
        range.upper > 0,
        logical_probe < probe::FUNNEL_LOGICAL_LIMIT,
    ensures
        result == sampled(*domain_probe, logical_probe, range),
        result matches Some(index) ==> index < range.upper,
{
    proof {
        reduction::law_reduced_index_is_in_range(
            domain_probe.words(logical_probe),
            range.upper as nat,
            range.rejection_threshold as nat,
            0,
            RANGE_WORD_CAP,
        );
    }
    match unbiased_prepared_funnel_probe_index_in_range(
        domain_probe,
        logical_probe,
        range,
        RANGE_WORD_CAP,
    ) {
        Ok(index) => Some(index.index),
        Err(_) => None,
    }
}

/// A drawn index lies in its range.
pub proof fn lemma_sampled_in_range(
    domain_probe: PreparedFastFunnelDomainProbe,
    logical: u64,
    range: PreparedProbeRange,
)
    requires
        range.upper > 0,
    ensures
        sampled(domain_probe, logical, range) matches Some(index) ==> index < range.upper,
{
    reduction::law_reduced_index_is_in_range(
        domain_probe.words(logical),
        range.upper as nat,
        range.rejection_threshold as nat,
        0,
        RANGE_WORD_CAP,
    );
}

/// A key's probe at one ordinary level.
pub open spec fn at_level(
    key: PreparedFastFunnelProbe,
    level: LevelShape,
) -> PreparedFastFunnelDomainProbe {
    PreparedFastFunnelDomainProbe {
        key_in: key.key_in,
        key_out: key.key_out,
        counter_base: level.ordinary_counter_base,
    }
}

/// The two fallback buckets, slot by slot in turn.
pub open spec fn fallback_cells(offset: nat, width: nat, bucket_a: nat, bucket_b: nat) -> Seq<nat> {
    Seq::new(
        2 * width,
        |i: int|
            (offset + (if i % 2 == 0 {
                bucket_a
            } else {
                bucket_b
            }) * width + i / 2) as nat,
    )
}

/// The probe order from the fallback on.
pub open spec fn fallback_trail(shape: FunnelShape, key: PreparedFastFunnelProbe) -> Trail {
    match sampled(
        key.in_domain(ProbeDomain::FunnelSpecialFallbackChoiceA),
        0,
        shape.fallback_bucket_range,
    ) {
        None => Trail::failed(),
        Some(bucket_a) => match sampled(
            key.in_domain(ProbeDomain::FunnelSpecialFallbackChoiceB),
            0,
            shape.fallback_bucket_range,
        ) {
            None => Trail::failed(),
            Some(bucket_b) => Trail {
                cells: fallback_cells(
                    shape.fallback_offset as nat,
                    shape.fallback_bucket_width as nat,
                    bucket_a as nat,
                    bucket_b as nat,
                ),
                complete: true,
            },
        },
    }
}

/// The probe order from primary probe `from` on.
pub open spec fn primary_trail(
    shape: FunnelShape,
    key: PreparedFastFunnelProbe,
    from: nat,
) -> Trail
    decreases shape.loglog_ceiling - from,
{
    if from >= shape.loglog_ceiling {
        fallback_trail(shape, key)
    } else {
        match sampled(
            key.in_domain(ProbeDomain::FunnelSpecialPrimary),
            from as u64,
            shape.primary_range,
        ) {
            None => Trail::failed(),
            Some(local) => primary_trail(shape, key, from + 1).after(
                seq![(shape.primary_offset + local) as nat],
            ),
        }
    }
}

/// The probe order from ordinary level `from` on: one bucket of each level, the
/// primary probes, and the two fallback buckets.
pub open spec fn level_trail(shape: FunnelShape, key: PreparedFastFunnelProbe, from: nat) -> Trail
    decreases shape.levels@.len() - from,
{
    if from >= shape.levels@.len() {
        primary_trail(shape, key, 0)
    } else {
        let level = shape.levels@[from as int];
        match sampled(at_level(key, level), 0, level.bucket_range) {
            None => Trail::failed(),
            Some(bucket) => level_trail(shape, key, from + 1).after(
                funnel_scan::bucket_cells(
                    (level.offset + bucket * shape.beta) as nat,
                    shape.beta as nat,
                ),
            ),
        }
    }
}

/// The whole probe order of a hash; a table without slots has none.
pub open spec fn trail(shape: FunnelShape, hash: u64) -> Trail {
    if shape.n == 0 {
        Trail { cells: Seq::empty(), complete: true }
    } else {
        level_trail(shape, probe::prepared_funnel(FUNNEL_PROBE_SEED, hash), 0)
    }
}

/// Layouts with the same parts have the same probe orders.
pub proof fn lemma_same_trail(left: FunnelShape, right: FunnelShape, hash: u64)
    requires
        left.same_as(right),
    ensures
        trail(left, hash) == trail(right, hash),
{
    lemma_same_level_trail(left, right, probe::prepared_funnel(FUNNEL_PROBE_SEED, hash), 0);
}

proof fn lemma_same_level_trail(
    left: FunnelShape,
    right: FunnelShape,
    key: PreparedFastFunnelProbe,
    from: nat,
)
    requires
        left.same_as(right),
    ensures
        level_trail(left, key, from) == level_trail(right, key, from),
    decreases left.levels@.len() - from,
{
    if from >= left.levels@.len() {
        lemma_same_primary_trail(left, right, key, 0);
    } else {
        lemma_same_level_trail(left, right, key, from + 1);
    }
}

proof fn lemma_same_primary_trail(
    left: FunnelShape,
    right: FunnelShape,
    key: PreparedFastFunnelProbe,
    from: nat,
)
    requires
        left.same_as(right),
    ensures
        primary_trail(left, key, from) == primary_trail(right, key, from),
    decreases left.loglog_ceiling - from,
{
    if from < left.loglog_ceiling {
        lemma_same_primary_trail(left, right, key, from + 1);
    }
}

/// What a search along a trail finds, after a tombstone seen before it.
pub open spec fn search(
    controls: Seq<u8>,
    fingerprint: u8,
    matches_key: spec_fn(int) -> bool,
    along: Trail,
    tombstone: Option<usize>,
) -> SearchResult {
    let scan = funnel_scan::scan_from(
        controls,
        fingerprint,
        matches_key,
        along.cells,
        0,
        tombstone,
    );
    match scan.result {
        BucketScanResult::Hit(slot) => SearchResult::Hit(slot),
        BucketScanResult::Empty(slot) => SearchResult::Vacant(slot),
        BucketScanResult::Full => if !along.complete {
            SearchResult::RangeFailure
        } else {
            match scan.tombstone {
                Some(slot) => SearchResult::Vacant(slot),
                None => SearchResult::Full,
            }
        },
    }
}

/// A search goes on behind a run of cells that neither hits nor ends it.
pub proof fn lemma_search_after(
    controls: Seq<u8>,
    fingerprint: u8,
    matches_key: spec_fn(int) -> bool,
    cells: Seq<nat>,
    rest: Trail,
    tombstone: Option<usize>,
)
    ensures
        ({
            let scan = funnel_scan::scan_from(
                controls,
                fingerprint,
                matches_key,
                cells,
                0,
                tombstone,
            );
            search(
                controls,
                fingerprint,
                matches_key,
                rest.after(cells),
                tombstone,
            ) == match scan.result {
                BucketScanResult::Hit(slot) => SearchResult::Hit(slot),
                BucketScanResult::Empty(slot) => SearchResult::Vacant(slot),
                BucketScanResult::Full => search(
                    controls,
                    fingerprint,
                    matches_key,
                    rest,
                    scan.tombstone,
                ),
            }
        }),
{
    funnel_scan::lemma_scan_append(
        controls,
        fingerprint,
        matches_key,
        cells,
        rest.cells,
        0,
        tombstone,
    );
}

/// Every cell of a trail is a slot.
pub open spec fn within(cells: Seq<nat>, n: nat) -> bool {
    forall|i: int| 0 <= i < cells.len() ==> #[trigger] cells[i] < n
}

proof fn lemma_fallback_within(shape: FunnelShape, key: PreparedFastFunnelProbe)
    requires
        shape.wf(),
        shape.n > 0,
    ensures
        within(fallback_trail(shape, key).cells, shape.n as nat),
{
    let range = shape.fallback_bucket_range;
    lemma_sampled_in_range(
        key.in_domain(ProbeDomain::FunnelSpecialFallbackChoiceA),
        0,
        range,
    );
    lemma_sampled_in_range(
        key.in_domain(ProbeDomain::FunnelSpecialFallbackChoiceB),
        0,
        range,
    );
    let cells = fallback_trail(shape, key).cells;
    assert forall|i: int| 0 <= i < cells.len() implies #[trigger] cells[i] < shape.n by {
        let bucket = if i % 2 == 0 {
            sampled(
                key.in_domain(ProbeDomain::FunnelSpecialFallbackChoiceA),
                0,
                range,
            )->0
        } else {
            sampled(
                key.in_domain(ProbeDomain::FunnelSpecialFallbackChoiceB),
                0,
                range,
            )->0
        };
        lemma_bucket_within(
            bucket as nat,
            range.upper as nat,
            shape.fallback_bucket_width as nat,
        );
    }
}

/// A bucket below the bucket count ends by the end of all buckets.
pub proof fn lemma_bucket_within(bucket: nat, count: nat, width: nat)
    requires
        bucket < count,
    ensures
        bucket * width + width <= count * width,
        bucket * width >= 0,
{
    assert(bucket * width + width <= count * width) by (nonlinear_arith)
        requires
            bucket + 1 <= count,
            width >= 0,
    ;
}

proof fn lemma_primary_within(shape: FunnelShape, key: PreparedFastFunnelProbe, from: nat)
    requires
        shape.wf(),
        shape.n > 0,
    ensures
        within(primary_trail(shape, key, from).cells, shape.n as nat),
    decreases shape.loglog_ceiling - from,
{
    if from >= shape.loglog_ceiling {
        lemma_fallback_within(shape, key);
    } else {
        lemma_primary_within(shape, key, from + 1);
        lemma_sampled_in_range(
            key.in_domain(ProbeDomain::FunnelSpecialPrimary),
            from as u64,
            shape.primary_range,
        );
        lemma_mul_nonnegative(
            shape.fallback_bucket_range.upper as int,
            shape.fallback_bucket_width as int,
        );
    }
}

proof fn lemma_levels_within(shape: FunnelShape, key: PreparedFastFunnelProbe, from: nat)
    requires
        shape.wf(),
        shape.n > 0,
    ensures
        within(level_trail(shape, key, from).cells, shape.n as nat),
    decreases shape.levels@.len() - from,
{
    if from >= shape.levels@.len() {
        lemma_primary_within(shape, key, 0);
    } else {
        lemma_levels_within(shape, key, from + 1);
        let level = shape.levels@[from as int];
        lemma_sampled_in_range(at_level(key, level), 0, level.bucket_range);
        lemma_mul_nonnegative(
            shape.fallback_bucket_range.upper as int,
            shape.fallback_bucket_width as int,
        );
        match sampled(at_level(key, level), 0, level.bucket_range) {
            None => {},
            Some(bucket) => {
                lemma_bucket_within(
                    bucket as nat,
                    level.bucket_range.upper as nat,
                    shape.beta as nat,
                );
            },
        }
    }
}

/// A product of counts is no less than zero.
pub proof fn lemma_mul_nonnegative(left: int, right: int)
    requires
        left >= 0,
        right >= 0,
    ensures
        left * right >= 0,
{
    assert(left * right >= 0) by (nonlinear_arith)
        requires
            left >= 0,
            right >= 0,
    ;
}

/// Every probe of a hash is a slot of the table.
pub proof fn law_trail_stays_in_the_table(shape: FunnelShape, hash: u64)
    requires
        shape.wf(),
    ensures
        within(trail(shape, hash).cells, shape.n as nat),
{
    if shape.n > 0 {
        lemma_levels_within(shape, probe::prepared_funnel(FUNNEL_PROBE_SEED, hash), 0);
    }
}

/// Whether a search along the cells reaches a slot: no empty slot comes before it.
pub open spec fn reaches(controls: Seq<u8>, cells: Seq<nat>, slot: nat) -> bool {
    exists|position: int| #[trigger] reaches_at(controls, cells, slot, position)
}

/// Whether a slot stands at a position, with no empty slot before it.
pub open spec fn reaches_at(controls: Seq<u8>, cells: Seq<nat>, slot: nat, position: int) -> bool {
    &&& 0 <= position < cells.len()
    &&& cells[position] == slot
    &&& forall|earlier: int|
        0 <= earlier < position ==> controls[#[trigger] cells[earlier] as int] != CTRL_EMPTY
}

/// Whether slots that were not empty are still not empty.
pub open spec fn still_filled(before: Seq<u8>, after: Seq<u8>) -> bool {
    &&& before.len() == after.len()
    &&& forall|slot: int|
        0 <= slot < before.len() && #[trigger] before[slot] != CTRL_EMPTY ==> after[slot]
            != CTRL_EMPTY
}

/// A slot stays within reach while no slot becomes empty.
pub proof fn lemma_reach_survives(
    before: Seq<u8>,
    after: Seq<u8>,
    cells: Seq<nat>,
    slot: nat,
)
    requires
        still_filled(before, after),
        within(cells, before.len()),
        reaches(before, cells, slot),
    ensures
        reaches(after, cells, slot),
{
    let position = choose|position: int| #[trigger] reaches_at(before, cells, slot, position);
    assert forall|earlier: int| 0 <= earlier < position implies after[
        #[trigger] cells[earlier] as int
    ] != CTRL_EMPTY by {
        assert(before[cells[earlier] as int] != CTRL_EMPTY);
    }
    assert(reaches_at(after, cells, slot, position));
}

/// A scan finds a slot that it reaches and whose key matches, if no other
/// slot's key does.
pub proof fn lemma_scan_finds(
    controls: Seq<u8>,
    fingerprint: u8,
    matches_key: spec_fn(int) -> bool,
    cells: Seq<nat>,
    from: nat,
    tombstone: Option<usize>,
    slot: nat,
    position: int,
)
    requires
        within(cells, controls.len()),
        controls.len() <= usize::MAX,
        control::occupied(fingerprint),
        reaches_at(controls, cells, slot, position),
        from <= position,
        controls[slot as int] == fingerprint,
        matches_key(slot as int),
        forall|other: int|
            0 <= other < controls.len() && #[trigger] controls[other] == fingerprint && matches_key(
                other,
            ) ==> other == slot,
    ensures
        funnel_scan::scan_from(
            controls,
            fingerprint,
            matches_key,
            cells,
            from,
            tombstone,
        ).result == BucketScanResult::Hit(slot as usize),
    decreases position - from,
{
    let cell = cells[from as int];
    if from < position {
        assert(controls[cells[from as int] as int] != CTRL_EMPTY);
        let seen = if controls[cell as int] == CTRL_TOMBSTONE {
            Some(funnel_scan::first_of(tombstone, cell))
        } else {
            tombstone
        };
        if controls[cell as int] == fingerprint && matches_key(cell as int) {
            assert(cell == slot);
        } else {
            lemma_scan_finds(
                controls,
                fingerprint,
                matches_key,
                cells,
                from + 1,
                seen,
                slot,
                position,
            );
        }
    }
}

/// What the outcome of a scan says of its slot.
pub proof fn lemma_scan_outcome(
    controls: Seq<u8>,
    fingerprint: u8,
    matches_key: spec_fn(int) -> bool,
    cells: Seq<nat>,
    from: nat,
    tombstone: Option<usize>,
)
    requires
        within(cells, controls.len()),
        controls.len() <= usize::MAX,
        control::occupied(fingerprint),
        from <= cells.len(),
        // So far no empty slot, and the first tombstone is known.
        forall|earlier: int|
            0 <= earlier < from ==> controls[#[trigger] cells[earlier] as int] != CTRL_EMPTY,
        match tombstone {
            Some(first) => controls[first as int] == CTRL_TOMBSTONE && first < controls.len()
                && reaches(controls, cells, first as nat),
            None => true,
        },
    ensures
        ({
            let scan = funnel_scan::scan_from(
                controls,
                fingerprint,
                matches_key,
                cells,
                from,
                tombstone,
            );
            &&& match scan.result {
                BucketScanResult::Hit(slot) => slot < controls.len() && controls[slot as int]
                    == fingerprint && matches_key(slot as int) && reaches(
                    controls,
                    cells,
                    slot as nat,
                ),
                BucketScanResult::Empty(slot) => slot < controls.len() && !control::occupied(
                    controls[slot as int],
                ) && reaches(controls, cells, slot as nat),
                BucketScanResult::Full => true,
            }
            &&& match scan.tombstone {
                Some(first) => controls[first as int] == CTRL_TOMBSTONE && first < controls.len()
                    && reaches(controls, cells, first as nat),
                None => true,
            }
        }),
    decreases cells.len() - from,
{
    if from < cells.len() {
        let cell = cells[from as int];
        assert(reaches_at(controls, cells, cell, from as int));
        let control = controls[cell as int];
        if control == CTRL_TOMBSTONE {
            let seen = Some(funnel_scan::first_of(tombstone, cell));
            lemma_scan_outcome(controls, fingerprint, matches_key, cells, from + 1, seen);
        } else if control != CTRL_EMPTY && !(control == fingerprint && matches_key(cell as int)) {
            lemma_scan_outcome(controls, fingerprint, matches_key, cells, from + 1, tombstone);
        }
    }
}

/// A slot that a search gives out for filling is free, and stays within reach
/// of its key; a hit is the key's slot.
pub proof fn lemma_search_outcome(
    controls: Seq<u8>,
    fingerprint: u8,
    matches_key: spec_fn(int) -> bool,
    along: Trail,
)
    requires
        within(along.cells, controls.len()),
        controls.len() <= usize::MAX,
        control::occupied(fingerprint),
    ensures
        match search(controls, fingerprint, matches_key, along, None) {
            SearchResult::Hit(slot) => slot < controls.len() && controls[slot as int] == fingerprint
                && matches_key(slot as int),
            SearchResult::Vacant(slot) => slot < controls.len() && !control::occupied(
                controls[slot as int],
            ) && reaches(controls, along.cells, slot as nat),
            _ => true,
        },
{
    lemma_scan_outcome(controls, fingerprint, matches_key, along.cells, 0, None);
}

/// The index below a bound that the words of a probe choose for a hash, if one of the
/// first eight does.
pub open spec fn choice(hash: u64, domain: ProbeDomain, logical: u64, upper: nat) -> Option<nat> {
    match reduction::reduced(
        probe::oracle_words(FunnelPrf { seed: FUNNEL_PROBE_SEED }, hash, domain, logical),
        upper,
        8,
    ) {
        Ok(found) => Some(found.index as nat),
        Err(_) => None,
    }
}

/// The bucket of an ordinary level that a hash chooses.
pub open spec fn bucket_choice(shape: FunnelShape, hash: u64, level: int) -> Option<nat> {
    choice(
        hash,
        ProbeDomain::FunnelOrdinary { level: level as u64 },
        0,
        shape.levels@[level].bucket_range.upper as nat,
    )
}

/// The slot of the primary array that a hash chooses at a probe.
pub open spec fn primary_choice(shape: FunnelShape, hash: u64, probe: int) -> Option<nat> {
    choice(
        hash,
        ProbeDomain::FunnelSpecialPrimary,
        probe as u64,
        shape.primary_range.upper as nat,
    )
}

/// A draw is the choice of its domain.
proof fn lemma_draw(key_hash: u64, domain: ProbeDomain, logical: u64, range: PreparedProbeRange)
    requires
        range.wf(),
        range.upper > 0,
        probe::funnel_counter(domain, logical, 0) is Some,
    ensures
        choice(key_hash, domain, logical, range.upper as nat) == match sampled(
            probe::prepared_funnel(FUNNEL_PROBE_SEED, key_hash).in_domain(domain),
            logical,
            range,
        ) {
            Some(index) => Some(index as nat),
            None => None,
        },
{
    probe::law_prepared_funnel_reduction_matches_the_permutation(
        FunnelPrf { seed: FUNNEL_PROBE_SEED },
        key_hash,
        domain,
        logical,
        range,
        RANGE_WORD_CAP,
    );
}

/// Whether the buckets of the levels from one up to another can be drawn.
pub open spec fn buckets_drawn(shape: FunnelShape, hash: u64, from: int, to: int) -> bool {
    forall|level: int|
        from <= level < to ==> (#[trigger] bucket_choice(shape, hash, level)) is Some
}

/// What the probe order of a hash is behind so many ordinary levels.
pub open spec fn follows_levels(shape: FunnelShape, hash: u64, from: int, order: Trail) -> bool {
    let levels = shape.levels@.len() as int;
    let beta = shape.beta as int;
    &&& forall|i: int|
        from <= i < levels && #[trigger] buckets_drawn(shape, hash, from, i) ==> match bucket_choice(
            shape,
            hash,
            i,
        ) {
            Some(bucket) => holds_run(
                order.cells,
                (i - from) * beta,
                shape.levels@[i].offset + bucket * beta,
                beta,
            ),
            None => !order.complete && order.cells.len() == (i - from) * beta,
        }
    &&& buckets_drawn(shape, hash, from, levels) ==> {
        &&& order.cells.len() >= (levels - from) * beta
        &&& follows_primaries(
            shape,
            hash,
            0,
            Trail { cells: order.cells.skip((levels - from) * beta), complete: order.complete },
        )
    }
}

/// Whether cells hold so many consecutive slots from a position on.
pub open spec fn holds_run(cells: Seq<nat>, at: int, start: int, length: int) -> bool {
    &&& 0 <= at
    &&& at + length <= cells.len()
    &&& forall|k: int| at <= k < at + length ==> #[trigger] cells[k] == start + (k - at)
}

/// Whether the primary probes from one up to another can be drawn.
pub open spec fn primaries_drawn(shape: FunnelShape, hash: u64, from: int, to: int) -> bool {
    forall|probe: int|
        from <= probe < to ==> (#[trigger] primary_choice(shape, hash, probe)) is Some
}

/// What the probe order of a hash is behind so many primary probes.
pub open spec fn follows_primaries(shape: FunnelShape, hash: u64, from: int, order: Trail) -> bool {
    let count = shape.loglog_ceiling as int;
    &&& forall|p: int|
        from <= p < count && #[trigger] primaries_drawn(shape, hash, from, p) ==> match primary_choice(
            shape,
            hash,
            p,
        ) {
            Some(local) => p - from < order.cells.len() && order.cells[p - from]
                == shape.primary_offset + local,
            None => !order.complete && order.cells.len() == p - from,
        }
    &&& primaries_drawn(shape, hash, from, count) ==> {
        &&& order.cells.len() >= count - from
        &&& follows_fallback(
            shape,
            hash,
            Trail { cells: order.cells.skip(count - from), complete: order.complete },
        )
    }
}

/// What the probe order of a hash is behind all primary probes: two fallback buckets, slot
/// by slot in turn.
pub open spec fn follows_fallback(shape: FunnelShape, hash: u64, order: Trail) -> bool {
    let width = shape.fallback_bucket_width as int;
    let buckets = shape.fallback_bucket_range.upper as nat;
    let first = choice(hash, ProbeDomain::FunnelSpecialFallbackChoiceA, 0, buckets);
    let second = choice(hash, ProbeDomain::FunnelSpecialFallbackChoiceB, 0, buckets);
    if first is Some && second is Some {
        &&& order.complete
        &&& order.cells.len() == 2 * width
        &&& forall|k: int|
            0 <= k < 2 * width ==> #[trigger] order.cells[k] == shape.fallback_offset + (if k % 2
                == 0 {
                first->0
            } else {
                second->0
            }) * width + k / 2
    } else {
        !order.complete && order.cells.len() == 0
    }
}

proof fn lemma_fallback_order(shape: FunnelShape, hash: u64)
    requires
        shape.wf(),
        shape.n > 0,
        shape.fallback_bucket_range.wf(),
        shape.fallback_bucket_range.upper > 0,
    ensures
        follows_fallback(
            shape,
            hash,
            fallback_trail(shape, probe::prepared_funnel(FUNNEL_PROBE_SEED, hash)),
        ),
{
    lemma_draw(
        hash,
        ProbeDomain::FunnelSpecialFallbackChoiceA,
        0,
        shape.fallback_bucket_range,
    );
    lemma_draw(
        hash,
        ProbeDomain::FunnelSpecialFallbackChoiceB,
        0,
        shape.fallback_bucket_range,
    );
    let order = fallback_trail(shape, probe::prepared_funnel(FUNNEL_PROBE_SEED, hash));
    let width = shape.fallback_bucket_width as int;
    assert forall|k: int| 0 <= k < order.cells.len() implies #[trigger] order.cells[k] >= 0 by {
        let buckets = shape.fallback_bucket_range.upper as nat;
        let first = choice(hash, ProbeDomain::FunnelSpecialFallbackChoiceA, 0, buckets)->0;
        let second = choice(hash, ProbeDomain::FunnelSpecialFallbackChoiceB, 0, buckets)->0;
        lemma_mul_nonnegative(first as int, width);
        lemma_mul_nonnegative(second as int, width);
    }
    let buckets = shape.fallback_bucket_range.upper as nat;
    let first = choice(hash, ProbeDomain::FunnelSpecialFallbackChoiceA, 0, buckets);
    let second = choice(hash, ProbeDomain::FunnelSpecialFallbackChoiceB, 0, buckets);
    if first is Some && second is Some {
        lemma_mul_nonnegative(first->0 as int, width);
        lemma_mul_nonnegative(second->0 as int, width);
    }
}

/// A primary probe that cannot be drawn ends the order.
proof fn lemma_primary_break(shape: FunnelShape, hash: u64, from: nat, order: Trail)
    requires
        from < shape.loglog_ceiling,
        primary_choice(shape, hash, from as int) is None,
        order == Trail::failed(),
    ensures
        follows_primaries(shape, hash, from as int, order),
{
    let count = shape.loglog_ceiling as int;
    assert forall|p: int| p > from implies !#[trigger] primaries_drawn(
        shape,
        hash,
        from as int,
        p,
    ) by {
        assert(primary_choice(shape, hash, from as int) is None);
    }
}

/// A primary probe comes before the rest of the order.
proof fn lemma_primary_step(
    shape: FunnelShape,
    hash: u64,
    from: nat,
    local: nat,
    rest: Trail,
    order: Trail,
)
    requires
        from < shape.loglog_ceiling,
        primary_choice(shape, hash, from as int) == Some(local),
        follows_primaries(shape, hash, from as int + 1, rest),
        order == rest.after(seq![(shape.primary_offset + local) as nat]),
    ensures
        follows_primaries(shape, hash, from as int, order),
{
    let count = shape.loglog_ceiling as int;
    let next = from as int + 1;
    assert forall|p: int|
        from <= p < count && #[trigger] primaries_drawn(
            shape,
            hash,
            from as int,
            p,
        ) implies match primary_choice(shape, hash, p) {
        Some(local) => p - from < order.cells.len() && order.cells[p - from]
            == shape.primary_offset + local,
        None => !order.complete && order.cells.len() == p - from,
    } by {
        if p > from {
            assert(primaries_drawn(shape, hash, next, p));
            if primary_choice(shape, hash, p) is Some {
                assert(order.cells[p - from] == rest.cells[p - next]);
            }
        }
    }
    if primaries_drawn(shape, hash, from as int, count) {
        assert(primaries_drawn(shape, hash, next, count));
        assert(order.cells.skip(count - from) =~= rest.cells.skip(count - next));
    }
}

proof fn lemma_primary_order(shape: FunnelShape, hash: u64, from: nat)
    requires
        shape.wf(),
        shape.n > 0,
        shape.primary_range.upper > 0,
        shape.fallback_bucket_range.wf(),
        shape.fallback_bucket_range.upper > 0,
        from <= shape.loglog_ceiling,
    ensures
        follows_primaries(
            shape,
            hash,
            from as int,
            primary_trail(shape, probe::prepared_funnel(FUNNEL_PROBE_SEED, hash), from),
        ),
    decreases shape.loglog_ceiling - from,
{
    let key = probe::prepared_funnel(FUNNEL_PROBE_SEED, hash);
    let order = primary_trail(shape, key, from);
    let count = shape.loglog_ceiling as int;
    if from >= count {
        lemma_fallback_order(shape, hash);
        assert(order.cells.skip(0) =~= order.cells);
    } else {
        lemma_draw(hash, ProbeDomain::FunnelSpecialPrimary, from as u64, shape.primary_range);
        lemma_primary_order(shape, hash, from + 1);
        let rest = primary_trail(shape, key, from + 1);
        let here = primary_choice(shape, hash, from as int);
        match here {
            None => {
                lemma_primary_break(shape, hash, from, order);
            },
            Some(local) => {
                lemma_primary_step(shape, hash, from, local, rest, order);
            },
        }
    }
}

proof fn lemma_level_order(shape: FunnelShape, hash: u64, from: nat)
    requires
        shape.wf(),
        shape.n > 0,
        forall|i: int|
            0 <= i < shape.levels@.len() ==> {
                &&& (#[trigger] shape.levels@[i]).bucket_range.upper > 0
                &&& shape.levels@[i].bucket_range.wf()
                &&& probe::funnel_counter(ProbeDomain::FunnelOrdinary { level: i as u64 }, 0, 0)
                    == Some(shape.levels@[i].ordinary_counter_base)
            },
        shape.primary_range.upper > 0,
        shape.fallback_bucket_range.wf(),
        shape.fallback_bucket_range.upper > 0,
        from <= shape.levels@.len(),
    ensures
        follows_levels(
            shape,
            hash,
            from as int,
            level_trail(shape, probe::prepared_funnel(FUNNEL_PROBE_SEED, hash), from),
        ),
    decreases shape.levels@.len() - from,
{
    let key = probe::prepared_funnel(FUNNEL_PROBE_SEED, hash);
    let order = level_trail(shape, key, from);
    let levels = shape.levels@.len() as int;
    let beta = shape.beta as int;
    if from >= levels {
        lemma_primary_order(shape, hash, 0);
        assert(0 * beta == 0) by (nonlinear_arith);
        assert(order.cells.skip(0) =~= order.cells);
    } else {
        let level = shape.levels@[from as int];
        lemma_draw(
            hash,
            ProbeDomain::FunnelOrdinary { level: from as u64 },
            0,
            level.bucket_range,
        );
        assert(at_level(key, level) == key.in_domain(
            ProbeDomain::FunnelOrdinary { level: from as u64 },
        ));
        lemma_level_order(shape, hash, from + 1);
        let rest = level_trail(shape, key, from + 1);
        assert(0 * beta == 0) by (nonlinear_arith);
        match bucket_choice(shape, hash, from as int) {
            None => {
                assert forall|i: int| i > from implies !#[trigger] buckets_drawn(
                    shape,
                    hash,
                    from as int,
                    i,
                ) by {
                    assert(bucket_choice(shape, hash, from as int) is None);
                }
            },
            Some(bucket) => {
                lemma_mul_nonnegative(bucket as int, beta);
                lemma_level_step(shape, hash, from, bucket, rest, order);
            },
        }
    }
}

/// The bucket of a level comes before the rest of the order.
proof fn lemma_level_step(
    shape: FunnelShape,
    hash: u64,
    from: nat,
    bucket: nat,
    rest: Trail,
    order: Trail,
)
    requires
        from < shape.levels@.len(),
        bucket_choice(shape, hash, from as int) == Some(bucket),
        bucket * shape.beta >= 0,
        follows_levels(shape, hash, from as int + 1, rest),
        order == rest.after(
            funnel_scan::bucket_cells(
                (shape.levels@[from as int].offset + bucket * shape.beta) as nat,
                shape.beta as nat,
            ),
        ),
    ensures
        follows_levels(shape, hash, from as int, order),
{
    let levels = shape.levels@.len() as int;
    let beta = shape.beta as int;
    let next = from as int + 1;
    let start = shape.levels@[from as int].offset + bucket * beta;
    let run = funnel_scan::bucket_cells(start as nat, beta as nat);
    assert(order.cells == run + rest.cells);
    assert(0 * beta == 0) by (nonlinear_arith);
    assert forall|i: int|
        from <= i < levels && #[trigger] buckets_drawn(
            shape,
            hash,
            from as int,
            i,
        ) implies match bucket_choice(shape, hash, i) {
        Some(bucket) => holds_run(
            order.cells,
            (i - from) * beta,
            shape.levels@[i].offset + bucket * beta,
            beta,
        ),
        None => !order.complete && order.cells.len() == (i - from) * beta,
    } by {
        if i > from {
            assert(buckets_drawn(shape, hash, next, i));
            let at = (i - next) * beta;
            lemma_mul_nonnegative(i - next, beta);
            assert((i - from) * beta == at + beta) by (nonlinear_arith)
                requires
                    at == (i - next) * beta,
                    next == from + 1,
            ;
            if let Some(other) = bucket_choice(shape, hash, i) {
                let begin = shape.levels@[i].offset + other * beta;
                assert(holds_run(rest.cells, at, begin, beta));
                assert forall|k: int| at + beta <= k < at + beta + beta implies #[trigger]
                    order.cells[k] == begin + (k - (at + beta)) by {
                    assert(order.cells[k] == rest.cells[k - beta]);
                }
            }
        }
    }
    if buckets_drawn(shape, hash, from as int, levels) {
        assert(buckets_drawn(shape, hash, next, levels));
        assert((levels - from) * beta == (levels - next) * beta + beta) by (nonlinear_arith)
            requires
                next == from + 1,
        ;
        lemma_mul_nonnegative(levels - next, beta);
        assert(order.cells.skip((levels - from) * beta) =~= rest.cells.skip(
            (levels - next) * beta,
        ));
    }
}

/// The probe order of a hash starts with all slots of one bucket of each ordinary level,
/// from the first level on, then has the primary probes, and then two fallback buckets in
/// turn. Which they are is chosen by the words of the hash for that level or probe; where
/// no word is accepted, the order breaks off.
pub proof fn law_probe_order_visits_the_levels_first(
    shape: FunnelShape,
    reserve: ReserveFraction,
    hash: u64,
)
    requires
        shape.wf(),
        shape.n > 0,
        shape.is_for(shape.n as nat, reserve),
    ensures
        follows_levels(shape, hash, 0, trail(shape, hash)),
{
    let plan = choose|plan: FunnelPlan| #[trigger]
        shape.lays_out(plan) && plan.config == funnel_shape::config_of(shape.n as nat, reserve);
    assert(shape.lays_out(plan));
    funnel_shape::law_special_array_is_the_largest(shape, shape.n as nat, reserve, 0);
    assert forall|i: int| 0 <= i < shape.levels@.len() implies ({
        &&& (#[trigger] shape.levels@[i]).bucket_range.upper > 0
        &&& shape.levels@[i].bucket_range.wf()
        &&& probe::funnel_counter(ProbeDomain::FunnelOrdinary { level: i as u64 }, 0, 0) == Some(
            shape.levels@[i].ordinary_counter_base,
        )
    }) by {
        assert(shape.levels@[i].bucket_range.upper == plan.counts()[i]);
    }
    lemma_level_order(shape, hash, 0);
}

/// What a scan that meets no matching key finds: the first free cell from a position on,
/// or what was found before.
pub proof fn lemma_scan_finds_the_first_free(
    controls: Seq<u8>,
    fingerprint: u8,
    matches_key: spec_fn(int) -> bool,
    cells: Seq<nat>,
    from: nat,
    tombstone: Option<usize>,
)
    requires
        from <= cells.len(),
        within(cells, usize::MAX as nat),
        forall|i: int|
            0 <= i < cells.len() && controls[#[trigger] cells[i] as int] == fingerprint
                ==> !matches_key(cells[i] as int),
    ensures
        ({
            let scan = funnel_scan::scan_from(
                controls,
                fingerprint,
                matches_key,
                cells,
                from,
                tombstone,
            );
            &&& !(scan.result is Hit)
            &&& tombstone matches Some(slot) ==> match scan.result {
                BucketScanResult::Empty(found) => found == slot,
                _ => scan.tombstone == tombstone,
            }
            &&& tombstone is None ==> match scan.result {
                BucketScanResult::Empty(found) => is_first_free_cell(controls, cells, from, found),
                _ => match scan.tombstone {
                    Some(found) => is_first_free_cell(controls, cells, from, found),
                    None => forall|i: int|
                        from <= i < cells.len() ==> control::occupied(
                            controls[#[trigger] cells[i] as int],
                        ),
                },
            }
            &&& !(scan.result is Empty) ==> forall|i: int|
                from <= i < cells.len() ==> controls[#[trigger] cells[i] as int] != CTRL_EMPTY
        }),
    decreases cells.len() - from,
{
    if from < cells.len() {
        let slot = cells[from as int];
        lemma_scan_finds_the_first_free(
            controls,
            fingerprint,
            matches_key,
            cells,
            from + 1,
            tombstone,
        );
        lemma_scan_finds_the_first_free(
            controls,
            fingerprint,
            matches_key,
            cells,
            from + 1,
            Some(funnel_scan::first_of(tombstone, slot)),
        );
        if !control::occupied(controls[slot as int]) {
            assert(first_free_at(controls, cells, from, slot as usize, from as int));
        } else {
            assert forall|found: usize|
                #[trigger] is_first_free_cell(controls, cells, from + 1, found) implies
                is_first_free_cell(controls, cells, from, found) by {
                let at = choose|at: int| #[trigger]
                    first_free_at(controls, cells, from + 1, found, at);
                assert(first_free_at(controls, cells, from, found, at));
            }
        }
    }
}

/// Whether a slot is the first free one among cells from a position on.
pub open spec fn is_first_free_cell(
    controls: Seq<u8>,
    cells: Seq<nat>,
    from: nat,
    slot: usize,
) -> bool {
    exists|at: int| #[trigger] first_free_at(controls, cells, from, slot, at)
}

/// Whether a slot is the first free one among cells from a position on, and stands at
/// another.
pub open spec fn first_free_at(
    controls: Seq<u8>,
    cells: Seq<nat>,
    from: nat,
    slot: usize,
    at: int,
) -> bool {
    &&& from <= at < cells.len()
    &&& cells[at] == slot
    &&& !control::occupied(controls[slot as int])
    &&& forall|i: int|
        from <= i < at ==> control::occupied(controls[#[trigger] cells[i] as int])
}

} // verus!
