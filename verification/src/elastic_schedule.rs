//! The order in which a lookup visits the probes of an Elastic table.

use vstd::prelude::*;

use crate::error::TryReserveError;
use crate::phi::{self, elastic_phi};

verus! {

/// The probes of one level that a search for a vacancy tries.
pub const UNIFORM_SEARCH_CAP: u64 = 4096;

/// The last position that a placement may have.
pub const QUERY_POSITION_CAP: u32 = 1_000_000;

/// More probes of a level than lie within the position cap.
pub const QUERY_PROBE_LIMIT: usize = 384;

/// The logical probes that a packed counter tells apart.
pub const ELASTIC_LOGICAL_LIMIT: u32 = 8192;

/// The levels that a packed counter tells apart.
pub const ELASTIC_LEVEL_LIMIT: u32 = 32;

/// The paper position of a logical probe of a level, both counted from zero.
pub open spec fn position(level: nat, logical: nat) -> nat {
    phi::phi(level + 1, logical + 1)
}

/// The packed counter of a logical probe of a level.
pub open spec fn packed(level: nat, logical: nat) -> nat {
    level * (ELASTIC_LOGICAL_LIMIT as nat) + logical
}

/// Packs a logical probe of a level.
pub fn elastic_counter_base(level: u32, logical: u32) -> (result: u32)
    requires
        level < ELASTIC_LEVEL_LIMIT,
        logical < ELASTIC_LOGICAL_LIMIT,
    ensures
        result as nat == packed(level as nat, logical as nat),
{
    level * ELASTIC_LOGICAL_LIMIT + logical
}

/// Packs a logical probe of a level where both fit.
pub fn try_pack_elastic_counter(level: u64, logical: u64) -> (result: Option<u32>)
    ensures
        match result {
            Some(counter) => level < ELASTIC_LEVEL_LIMIT && logical < ELASTIC_LOGICAL_LIMIT
                && counter as nat == packed(level as nat, logical as nat),
            None => level >= ELASTIC_LEVEL_LIMIT || logical >= ELASTIC_LOGICAL_LIMIT,
        },
{
    if level >= ELASTIC_LEVEL_LIMIT as u64 || logical >= ELASTIC_LOGICAL_LIMIT as u64 {
        return None;
    }
    Some(elastic_counter_base(level as u32, logical as u32))
}

/// The level of a packed counter.
pub fn elastic_counter_level(counter: u32) -> (result: u32)
    ensures
        result == counter / ELASTIC_LOGICAL_LIMIT,
{
    counter / ELASTIC_LOGICAL_LIMIT
}

/// A packed counter gives its level and its logical probe back.
pub proof fn law_packing_round_trip(level: nat, logical: nat)
    requires
        logical < ELASTIC_LOGICAL_LIMIT,
    ensures
        packed(level, logical) / (ELASTIC_LOGICAL_LIMIT as nat) == level,
        packed(level, logical) % (ELASTIC_LOGICAL_LIMIT as nat) == logical,
{
}

/// One step of the lookup order.
#[derive(Clone, Copy, Debug, Eq, PartialEq, Structural)]
pub struct PhiRoute {
    /// The slots of the level.
    pub range_upper: u32,
    /// The packed counter of the probe.
    pub counter_base: u32,
}

impl PhiRoute {
    /// Whether this step visits a logical probe of a level.
    pub open spec fn visits(self, level: nat, logical: nat) -> bool {
        logical < ELASTIC_LOGICAL_LIMIT && self.counter_base as nat == packed(level, logical)
    }

    /// The level.
    pub open spec fn at_level(self) -> nat {
        self.counter_base as nat / (ELASTIC_LOGICAL_LIMIT as nat)
    }

    /// The logical probe.
    pub open spec fn probe(self) -> nat {
        self.counter_base as nat % (ELASTIC_LOGICAL_LIMIT as nat)
    }

    /// The paper position.
    pub open spec fn place(self) -> nat {
        position(self.at_level(), self.probe())
    }

    /// The level.
    #[inline]
    pub fn level(self) -> (result: usize)
        ensures
            result as nat == self.at_level(),
    {
        elastic_counter_level(self.counter_base) as usize
    }

    /// The logical probe.
    #[inline]
    pub fn logical(self) -> (result: u64)
        ensures
            result as nat == self.probe(),
    {
        (self.counter_base % ELASTIC_LOGICAL_LIMIT) as u64
    }
}

/// Whether a lookup order of `levels` levels visits a probe up to a position.
/// The first probe of the first level is tried before the order starts.
pub open spec fn due(level: nat, logical: nat, levels: nat, high: nat) -> bool {
    &&& level < levels
    &&& logical < UNIFORM_SEARCH_CAP
    &&& !(level == 0 && logical == 0)
    &&& position(level, logical) <= high
}

/// Whether a lookup order visits a probe.
pub open spec fn scheduled(routes: Seq<PhiRoute>, level: nat, logical: nat) -> bool {
    exists|i: int| 0 <= i < routes.len() && (#[trigger] routes[i]).visits(level, logical)
}

/// Whether the steps ascend in paper order.
pub open spec fn ascending(routes: Seq<PhiRoute>) -> bool {
    forall|i: int, j: int|
        0 <= i < j < routes.len() ==> (#[trigger] routes[i]).place() < (
        #[trigger] routes[j]).place()
}

/// The probes of a level from paper probe `from` on that lie up to a position.
pub open spec fn probes_within(level: nat, from: nat, high: nat) -> nat
    decreases UNIFORM_SEARCH_CAP + 1 - from,
{
    if from > UNIFORM_SEARCH_CAP || phi::phi(level + 1, from) > high {
        0
    } else {
        1 + probes_within(level, from + 1, high)
    }
}

/// The first paper probe of a level in the order.
pub open spec fn first_probe(level: nat) -> nat {
    if level == 0 {
        2
    } else {
        1
    }
}

/// The steps of an order of `levels` levels up to a position.
pub open spec fn steps_within(levels: nat, high: nat) -> nat
    decreases levels,
{
    if levels == 0 {
        0
    } else {
        steps_within((levels - 1) as nat, high) + probes_within(
            (levels - 1) as nat,
            first_probe((levels - 1) as nat),
            high,
        )
    }
}

/// Positions of searched probes are small.
proof fn lemma_position_small(level: nat, paper_probe: nat)
    requires
        level < ELASTIC_LEVEL_LIMIT,
        1 <= paper_probe <= UNIFORM_SEARCH_CAP + 1,
    ensures
        0 < phi::phi(level + 1, paper_probe) <= 0xffff_ffff_ffff,
{
    phi::law_phi_bound(level + 1, paper_probe);
    phi::lemma_coordinates_within(level + 1, paper_probe);
    assert(16 * ((level + 1) * (paper_probe * paper_probe)) <= 16 * (32 * (4097 * 4097)))
        by (nonlinear_arith)
        requires
            level + 1 <= 32,
            1 <= paper_probe <= 4097,
    ;
}

/// Fewer probes than the limit of any level lie within the position cap.
pub proof fn law_query_probe_limit(level: nat, logical: nat)
    requires
        position(level, logical) <= QUERY_POSITION_CAP,
    ensures
        logical < QUERY_PROBE_LIMIT,
{
    if logical >= QUERY_PROBE_LIMIT {
        phi::lemma_phi_first_level_least(level + 1, logical + 1);
        phi::lemma_phi_first_level_least(1, 385);
        reveal_with_fuel(phi::marked, 10);
        assert(phi::marked(385) == 256683);
        if logical + 1 > 385 {
            phi::law_phi_increases_with_probe(1, 385, logical + 1);
        }
    }
}

/// Whether a paper probe of a level is the first behind a position, or one more than
/// the search cap where there is none.
pub open spec fn is_first_probe_after(paper_level: nat, behind: nat, first: nat) -> bool {
    &&& 1 <= first <= UNIFORM_SEARCH_CAP + 1
    &&& first == UNIFORM_SEARCH_CAP + 1 || phi::phi(paper_level, first) > behind
    &&& forall|probe: nat| 1 <= probe < first ==> #[trigger] phi::phi(paper_level, probe) <= behind
}

/// There is one first paper probe of a level behind a position.
pub proof fn law_first_probe_is_unique(paper_level: nat, behind: nat, left: nat, right: nat)
    requires
        is_first_probe_after(paper_level, behind, left),
        is_first_probe_after(paper_level, behind, right),
    ensures
        left == right,
{
    if left < right {
        assert(phi::phi(paper_level, left) <= behind);
    }
    if right < left {
        assert(phi::phi(paper_level, right) <= behind);
    }
}

/// The first paper probe of a level behind a position, or one more than the
/// search cap where there is none.
pub fn first_paper_probe_after(paper_level: u128, behind: u128) -> (result: u128)
    requires
        1 <= paper_level <= u64::MAX,
    ensures
        is_first_probe_after(paper_level as nat, behind as nat, result as nat),
        1 <= result <= UNIFORM_SEARCH_CAP + 1,
        forall|probe: nat|
            1 <= probe < result ==> #[trigger] phi::phi(paper_level as nat, probe) <= behind,
        forall|probe: nat|
            result <= probe <= UNIFORM_SEARCH_CAP ==> #[trigger] phi::phi(
                paper_level as nat,
                probe,
            ) > behind,
{
    let mut lower: u128 = 1;
    let mut upper: u128 = UNIFORM_SEARCH_CAP as u128 + 1;
    while lower < upper
        invariant
            1 <= paper_level <= u64::MAX,
            1 <= lower <= upper <= UNIFORM_SEARCH_CAP + 1,
            forall|probe: nat|
                1 <= probe < lower ==> #[trigger] phi::phi(paper_level as nat, probe) <= behind,
            forall|probe: nat|
                upper <= probe <= UNIFORM_SEARCH_CAP ==> #[trigger] phi::phi(
                    paper_level as nat,
                    probe,
                ) > behind,
        decreases upper - lower,
    {
        let middle: u128 = lower + (upper - lower) / 2;
        proof {
            phi::law_phi_bound(paper_level as nat, middle as nat);
            assert(16 * (paper_level * (middle * middle)) <= u128::MAX) by (nonlinear_arith)
                requires
                    paper_level <= u64::MAX,
                    1 <= middle <= 4096,
            ;
        }
        let found: u128 = elastic_phi(paper_level, middle).unwrap();
        if found <= behind {
            proof {
                assert forall|probe: nat| 1 <= probe < middle + 1 implies #[trigger] phi::phi(
                    paper_level as nat,
                    probe,
                ) <= behind by {
                    if probe < middle {
                        phi::law_phi_increases_with_probe(
                            paper_level as nat,
                            probe,
                            middle as nat,
                        );
                    }
                }
            }
            lower = middle + 1;
        } else {
            proof {
                assert forall|probe: nat|
                    middle <= probe <= UNIFORM_SEARCH_CAP implies #[trigger] phi::phi(
                    paper_level as nat,
                    probe,
                ) > behind by {
                    if probe > middle {
                        phi::law_phi_increases_with_probe(
                            paper_level as nat,
                            middle as nat,
                            probe,
                        );
                    }
                }
            }
            upper = middle;
        }
    }
    lower
}

/// The steps that an order of `level_count` levels can ever have.
pub fn probe_schedule_capacity(level_count: usize) -> (result: usize)
    requires
        level_count <= ELASTIC_LEVEL_LIMIT,
    ensures
        result as nat == steps_within(level_count as nat, QUERY_POSITION_CAP as nat),
{
    let mut count: usize = 0;
    let mut level: usize = 0;
    while level < level_count
        invariant
            level <= level_count <= ELASTIC_LEVEL_LIMIT,
            count as nat == steps_within(level as nat, QUERY_POSITION_CAP as nat),
            count <= level * UNIFORM_SEARCH_CAP,
        decreases level_count - level,
    {
        let start: u128 = if level == 0 {
            2
        } else {
            1
        };
        let mut paper_probe: u128 = start;
        let ghost before = count;
        let ghost whole = probes_within(level as nat, start as nat, QUERY_POSITION_CAP as nat);
        while paper_probe <= UNIFORM_SEARCH_CAP as u128
            invariant_except_break
                whole == (paper_probe - start) + probes_within(
                    level as nat,
                    paper_probe as nat,
                    QUERY_POSITION_CAP as nat,
                ),
            invariant
                level < level_count <= ELASTIC_LEVEL_LIMIT,
                1 <= start <= paper_probe <= UNIFORM_SEARCH_CAP + 1,
                count as nat == before + (paper_probe - start),
                before <= level * UNIFORM_SEARCH_CAP,
            ensures
                whole == paper_probe - start,
            decreases UNIFORM_SEARCH_CAP + 1 - paper_probe,
        {
            proof {
                lemma_position_small(level as nat, paper_probe as nat);
            }
            let found: u128 = elastic_phi(level as u128 + 1, paper_probe).unwrap();
            if found > QUERY_POSITION_CAP as u128 {
                break;
            }
            count = count + 1;
            paper_probe = paper_probe + 1;
        }
        level = level + 1;
    }
    count
}

/// Whether steps ascend by the value that they hold for their range.
spec fn sorted_by_range(routes: Seq<PhiRoute>) -> bool {
    forall|i: int, j: int|
        0 <= i < j < routes.len() ==> (#[trigger] routes[i]).range_upper < (
        #[trigger] routes[j]).range_upper
}

/// Inserts a step where its range value belongs.
fn insert_sorted(routes: &mut Vec<PhiRoute>, route: PhiRoute) -> (place: Ghost<int>)
    requires
        sorted_by_range(old(routes)@),
        forall|i: int|
            0 <= i < old(routes)@.len() ==> (#[trigger] old(routes)@[i]).range_upper
                != route.range_upper,
    ensures
        0 <= place@ <= old(routes)@.len(),
        final(routes)@ == old(routes)@.insert(place@, route),
        sorted_by_range(final(routes)@),
{
    let mut lower: usize = 0;
    let mut upper: usize = routes.len();
    while lower < upper
        invariant
            sorted_by_range(routes@),
            routes@ == old(routes)@,
            lower <= upper <= routes@.len(),
            forall|i: int|
                0 <= i < lower ==> (#[trigger] routes@[i]).range_upper < route.range_upper,
            forall|i: int|
                upper <= i < routes@.len() ==> (#[trigger] routes@[i]).range_upper
                    >= route.range_upper,
        decreases upper - lower,
    {
        let middle: usize = lower + (upper - lower) / 2;
        if routes[middle].range_upper < route.range_upper {
            lower = middle + 1;
        } else {
            upper = middle;
        }
    }
    let ghost before = routes@;
    routes.insert(lower, route);
    proof {
        let after = routes@;
        assert forall|i: int, j: int| 0 <= i < j < after.len() implies (
        #[trigger] after[i]).range_upper < (#[trigger] after[j]).range_upper by {
            if i < lower {
                assert(after[i] == before[i]);
            } else if i > lower {
                assert(after[i] == before[i - 1]);
            }
            if j < lower {
                assert(after[j] == before[j]);
            } else if j > lower {
                assert(after[j] == before[j - 1]);
            }
        }
    }
    Ghost(lower as int)
}

/// Whether collected steps are those of some probes between two positions, in
/// order, each holding its position for its range.
spec fn collected(fresh: Seq<PhiRoute>, levels: nat, prior: nat, high: nat) -> bool {
    &&& sorted_by_range(fresh)
    &&& forall|i: int|
        0 <= i < fresh.len() ==> {
            &&& (#[trigger] fresh[i]).range_upper as nat == fresh[i].place()
            &&& due(fresh[i].at_level(), fresh[i].probe(), levels, high)
            &&& fresh[i].place() > prior
        }
}

/// Whether every due probe between two positions is collected, below a level
/// and before a paper probe of it.
spec fn collects_before(
    fresh: Seq<PhiRoute>,
    levels: nat,
    prior: nat,
    high: nat,
    level: nat,
    paper_probe: nat,
) -> bool {
    &&& forall|other: nat, logical: nat|
        due(other, logical, levels, high) && position(other, logical) > prior && (other < level
            || other == level && logical + 1 < paper_probe) ==> #[trigger] scheduled(
            fresh,
            other,
            logical,
        )
    &&& forall|i: int|
        0 <= i < fresh.len() ==> (#[trigger] fresh[i]).at_level() < level || fresh[i].at_level()
            == level && fresh[i].probe() + 1 < paper_probe
}

/// Inserting a step keeps what was visited and visits its own probe.
proof fn lemma_scheduled_after_insert(
    routes: Seq<PhiRoute>,
    place: int,
    route: PhiRoute,
    level: nat,
    logical: nat,
)
    requires
        0 <= place <= routes.len(),
    ensures
        scheduled(routes, level, logical) || route.visits(level, logical) ==> scheduled(
            routes.insert(place, route),
            level,
            logical,
        ),
{
    let longer = routes.insert(place, route);
    if route.visits(level, logical) {
        assert(longer[place].visits(level, logical));
    } else if scheduled(routes, level, logical) {
        let i = choose|i: int|
            0 <= i < routes.len() && (#[trigger] routes[i]).visits(level, logical);
        if i < place {
            assert(longer[i].visits(level, logical));
        } else {
            assert(longer[i + 1].visits(level, logical));
        }
    }
}

/// Collects the steps of one level between two positions.
fn collect_level(
    fresh: &mut Vec<PhiRoute>,
    level: usize,
    prior: u32,
    high: u32,
    Ghost(levels): Ghost<nat>,
)
    requires
        level < levels <= ELASTIC_LEVEL_LIMIT,
        prior < high <= QUERY_POSITION_CAP,
        collected(old(fresh)@, levels, prior as nat, high as nat),
        collects_before(
            old(fresh)@,
            levels,
            prior as nat,
            high as nat,
            level as nat,
            0,
        ),
    ensures
        collected(final(fresh)@, levels, prior as nat, high as nat),
        collects_before(
            final(fresh)@,
            levels,
            prior as nat,
            high as nat,
            level as nat + 1,
            0,
        ),
        final(fresh)@.len() + probes_within(level as nat, first_probe(level as nat), prior as nat)
            == old(fresh)@.len() + probes_within(
            level as nat,
            first_probe(level as nat),
            high as nat,
        ),
{
    let paper_level: u128 = level as u128 + 1;
    let from: u128 = first_paper_probe_after(paper_level, prior as u128);
    let start: u128 = if level == 0 && from == 1 {
        2
    } else {
        from
    };
    let mut paper_probe: u128 = start;
    let ghost before = fresh@;
    let ghost whole = probes_within(level as nat, start as nat, high as nat);
    proof {
        lemma_probes_split(
            level as nat,
            first_probe(level as nat),
            start as nat,
            prior as nat,
            high as nat,
        );
        assert forall|other: nat, logical: nat|
            due(other, logical, levels, high as nat) && position(other, logical) > prior && (other
                < level || other == level && logical + 1 < paper_probe) implies #[trigger] scheduled(
            fresh@,
            other,
            logical,
        ) by {
            if other == level && logical + 1 < from {
                assert(phi::phi(paper_level as nat, logical + 1) <= prior);
            }
        }
    }
    while paper_probe <= UNIFORM_SEARCH_CAP as u128
        invariant_except_break
            whole == (paper_probe - start) + probes_within(
                level as nat,
                paper_probe as nat,
                high as nat,
            ),
        invariant
            level < levels <= ELASTIC_LEVEL_LIMIT,
            paper_level == level + 1,
            prior < high <= QUERY_POSITION_CAP,
            first_probe(level as nat) <= start <= paper_probe <= UNIFORM_SEARCH_CAP + 1,
            forall|probe: nat|
                start <= probe <= UNIFORM_SEARCH_CAP ==> #[trigger] phi::phi(
                    paper_level as nat,
                    probe,
                ) > prior,
            collected(fresh@, levels, prior as nat, high as nat),
            collects_before(
                fresh@,
                levels,
                prior as nat,
                high as nat,
                level as nat,
                paper_probe as nat,
            ),
            fresh@.len() == before.len() + (paper_probe - start),
        ensures
            whole == paper_probe - start,
            paper_probe > UNIFORM_SEARCH_CAP || phi::phi(paper_level as nat, paper_probe as nat)
                > high,
        decreases UNIFORM_SEARCH_CAP + 1 - paper_probe,
    {
        proof {
            lemma_position_small(level as nat, paper_probe as nat);
        }
        let found: u128 = elastic_phi(paper_level, paper_probe).unwrap();
        if found > high as u128 {
            break;
        }
        let logical: u32 = (paper_probe - 1) as u32;
        let route: PhiRoute = PhiRoute {
            range_upper: found as u32,
            counter_base: elastic_counter_base(level as u32, logical),
        };
        let ghost held = fresh@;
        proof {
            law_packing_round_trip(level as nat, logical as nat);
            assert(phi::phi(paper_level as nat, paper_probe as nat) > prior);
            assert forall|i: int| 0 <= i < held.len() implies (#[trigger] held[i]).range_upper
                != route.range_upper by {
                if held[i].range_upper == route.range_upper {
                    phi::law_phi_is_injective(
                        held[i].at_level() + 1,
                        held[i].probe() + 1,
                        paper_level as nat,
                        paper_probe as nat,
                    );
                }
            }
        }
        let place = insert_sorted(fresh, route);
        proof {
            lemma_collected_step(
                held,
                fresh@,
                place@,
                route,
                levels,
                prior as nat,
                high as nat,
                level as nat,
                paper_probe as nat,
            );
        }
        paper_probe = paper_probe + 1;
    }
    proof {
        assert forall|other: nat, logical: nat|
            due(other, logical, levels, high as nat) && position(other, logical) > prior && other
                < level + 1 implies #[trigger] scheduled(fresh@, other, logical) by {
            if other == level && logical + 1 >= paper_probe {
                if logical + 1 > paper_probe {
                    phi::law_phi_increases_with_probe(
                        paper_level as nat,
                        paper_probe as nat,
                        logical + 1,
                    );
                }
            }
        }
    }
}

/// One more collected step.
proof fn lemma_collected_step(
    held: Seq<PhiRoute>,
    longer: Seq<PhiRoute>,
    place: int,
    route: PhiRoute,
    levels: nat,
    prior: nat,
    high: nat,
    level: nat,
    paper_probe: nat,
)
    requires
        paper_probe >= 1,
        0 <= place <= held.len(),
        longer == held.insert(place, route),
        sorted_by_range(longer),
        collected(held, levels, prior, high),
        collects_before(held, levels, prior, high, level, paper_probe),
        route.at_level() == level,
        route.probe() + 1 == paper_probe,
        route.range_upper as nat == route.place(),
        due(level, route.probe(), levels, high),
        route.place() > prior,
    ensures
        collected(longer, levels, prior, high),
        collects_before(longer, levels, prior, high, level, paper_probe + 1),
{
    assert forall|i: int| 0 <= i < longer.len() implies ({
        &&& (#[trigger] longer[i]).range_upper as nat == longer[i].place()
        &&& due(longer[i].at_level(), longer[i].probe(), levels, high)
        &&& longer[i].place() > prior
        &&& longer[i].at_level() < level || longer[i].at_level() == level && longer[i].probe() + 1
            < paper_probe + 1
    }) by {
        if i < place {
            assert(longer[i] == held[i]);
        } else if i > place {
            assert(longer[i] == held[i - 1]);
        }
    }
    assert forall|other: nat, logical: nat|
        due(other, logical, levels, high) && position(other, logical) > prior && (other < level
            || other == level && logical + 1 < paper_probe + 1) implies #[trigger] scheduled(
        longer,
        other,
        logical,
    ) by {
        lemma_scheduled_after_insert(held, place, route, other, logical);
        if other == level && logical + 1 == paper_probe {
            assert(route.visits(level, logical));
        } else {
            assert(scheduled(held, other, logical));
        }
    }
}

/// The probes up to a higher position are those up to a lower one and the rest.
proof fn lemma_probes_split(level: nat, first: nat, start: nat, prior: nat, high: nat)
    requires
        first <= start <= UNIFORM_SEARCH_CAP + 1,
        prior <= high,
        forall|probe: nat|
            first <= probe < start ==> #[trigger] phi::phi(level + 1, probe) <= prior,
        start <= UNIFORM_SEARCH_CAP ==> phi::phi(level + 1, start) > prior,
    ensures
        probes_within(level, first, high) == probes_within(level, first, prior) + probes_within(
            level,
            start,
            high,
        ),
    decreases start - first,
{
    if first < start {
        assert(phi::phi(level + 1, first) <= prior);
        lemma_probes_split(level, first + 1, start, prior, high);
    }
}

/// The order in which a lookup visits the probes that placements have used, up
/// to the highest position of a placement.
#[derive(Debug)]
pub struct ProbeSchedule {
    routes: Vec<PhiRoute>,
    high_water: u32,
}

impl ProbeSchedule {
    /// The steps.
    pub closed spec fn steps(self) -> Seq<PhiRoute> {
        self.routes@
    }

    /// The highest position of a placement.
    pub closed spec fn high(self) -> nat {
        self.high_water as nat
    }

    /// The steps are exactly the due probes of the levels up to the highest
    /// position, in paper order, each with its level's slots.
    pub open spec fn wf(self, capacities: Seq<usize>) -> bool {
        &&& capacities.len() <= ELASTIC_LEVEL_LIMIT
        &&& self.high() <= QUERY_POSITION_CAP
        &&& ascending(self.steps())
        &&& forall|i: int|
            0 <= i < self.steps().len() ==> {
                &&& due(
                    (#[trigger] self.steps()[i]).at_level(),
                    self.steps()[i].probe(),
                    capacities.len(),
                    self.high(),
                )
                &&& self.steps()[i].range_upper == capacities[self.steps()[i].at_level() as int]
            }
        &&& forall|level: nat, logical: nat|
            due(level, logical, capacities.len(), self.high()) ==> #[trigger] scheduled(
                self.steps(),
                level,
                logical,
            )
        &&& self.steps().len() == steps_within(capacities.len(), self.high())
    }

    /// No placements yet.
    pub fn new() -> (result: Self)
        ensures
            result.steps().len() == 0,
            result.high() == 0,
    {
        ProbeSchedule { routes: Vec::new(), high_water: 0 }
    }

    /// No placements yet, with memory for every step that an epoch can need.
    pub fn try_new(level_count: usize) -> (result: Result<Self, TryReserveError>)
        requires
            level_count <= ELASTIC_LEVEL_LIMIT,
        ensures
            match result {
                Ok(schedule) => schedule.steps().len() == 0 && schedule.high() == 0,
                Err(error) => error == TryReserveError::AllocError && level_count > 0,
            },
    {
        let mut routes: Vec<PhiRoute> = Vec::new();
        if level_count > 0 && routes.try_reserve(probe_schedule_capacity(level_count)).is_err() {
            return Err(TryReserveError::AllocError);
        }
        Ok(ProbeSchedule { routes, high_water: 0 })
    }

    /// The number of steps.
    #[inline]
    pub fn len(&self) -> (result: usize)
        ensures
            result == self.steps().len(),
    {
        self.routes.len()
    }

    /// One step.
    #[inline]
    pub fn route(&self, index: usize) -> (result: PhiRoute)
        requires
            index < self.steps().len(),
        ensures
            result == self.steps()[index as int],
    {
        self.routes[index]
    }

    /// Forgets every placement.
    pub fn clear(&mut self)
        ensures
            final(self).steps().len() == 0,
            final(self).high() == 0,
    {
        self.routes.clear();
        self.high_water = 0;
    }

    /// Visits every due probe up to a placement's position.
    pub fn extend(&mut self, capacities: &[usize], high_water: u32)
        requires
            old(self).wf(capacities@),
            high_water <= QUERY_POSITION_CAP,
            forall|i: int|
                0 <= i < capacities@.len() ==> #[trigger] capacities@[i] <= u32::MAX,
        ensures
            final(self).wf(capacities@),
            final(self).high() == if high_water > old(self).high() {
                high_water as nat
            } else {
                old(self).high()
            },
            old(self).steps().is_prefix_of(final(self).steps()),
    {
        let prior: u32 = self.high_water;
        if high_water <= prior {
            return;
        }
        let mut fresh: Vec<PhiRoute> = Vec::new();
        let ghost levels = capacities@.len();
        let mut level: usize = 0;
        while level < capacities.len()
            invariant
                level <= capacities@.len(),
                levels == capacities@.len() <= ELASTIC_LEVEL_LIMIT,
                prior < high_water <= QUERY_POSITION_CAP,
                collected(fresh@, levels, prior as nat, high_water as nat),
                collects_before(
                    fresh@,
                    levels,
                    prior as nat,
                    high_water as nat,
                    level as nat,
                    0,
                ),
                fresh@.len() + steps_within(level as nat, prior as nat) == steps_within(
                    level as nat,
                    high_water as nat,
                ),
            decreases capacities@.len() - level,
        {
            collect_level(&mut fresh, level, prior, high_water, Ghost(levels));
            level = level + 1;
        }
        let ghost before = self.routes@;
        let mut index: usize = 0;
        while index < fresh.len()
            invariant
                index <= fresh@.len(),
                levels == capacities@.len() <= ELASTIC_LEVEL_LIMIT,
                collected(fresh@, levels, prior as nat, high_water as nat),
                self.routes@.len() == before.len() + index,
                self.high_water == prior,
                before == self.routes@.take(before.len() as int),
                forall|i: int|
                    0 <= i < capacities@.len() ==> #[trigger] capacities@[i] <= u32::MAX,
                forall|i: int|
                    before.len() <= i < self.routes@.len() ==> {
                        &&& (#[trigger] self.routes@[i]).counter_base == fresh@[i
                            - before.len()].counter_base
                        &&& self.routes@[i].range_upper
                            == capacities@[self.routes@[i].at_level() as int]
                    },
            decreases fresh@.len() - index,
        {
            let route: PhiRoute = fresh[index];
            let upper: usize = capacities[route.level()];
            let ghost held = self.routes@;
            self.routes.push(PhiRoute { range_upper: upper as u32, counter_base: route.counter_base });
            assert(self.routes@.take(before.len() as int) =~= held.take(before.len() as int));
            index = index + 1;
        }
        proof {
            assert forall|i: int| 0 <= i < before.len() implies self.routes@[i]
                == #[trigger] before[i] by {
                assert(self.routes@.take(before.len() as int)[i] == self.routes@[i]);
            }
        }
        self.high_water = high_water;
        proof {
            lemma_extended(
                *old(self),
                *self,
                fresh@,
                capacities@,
            );
        }
    }

    /// A copy of the order.
    pub fn copy(&self) -> (result: Self)
        ensures
            result.steps() == self.steps(),
            result.high() == self.high(),
    {
        let mut routes: Vec<PhiRoute> = Vec::new();
        while routes.len() < self.routes.len()
            invariant
                routes@.len() <= self.routes@.len(),
                routes@ == self.routes@.take(routes@.len() as int),
            decreases self.routes@.len() - routes@.len(),
        {
            proof {
                assert(self.routes@.take(routes@.len() as int + 1) =~= self.routes@.take(
                    routes@.len() as int,
                ).push(self.routes@[routes@.len() as int]));
            }
            routes.push(self.routes[routes.len()]);
        }
        assert(self.routes@.take(self.routes@.len() as int) =~= self.routes@);
        ProbeSchedule { routes, high_water: self.high_water }
    }
}

/// Appending the collected steps keeps the order whole.
proof fn lemma_extended(
    before: ProbeSchedule,
    after: ProbeSchedule,
    fresh: Seq<PhiRoute>,
    capacities: Seq<usize>,
)
    requires
        before.wf(capacities),
        before.high() < after.high() <= QUERY_POSITION_CAP,
        collected(fresh, capacities.len(), before.high(), after.high()),
        collects_before(
            fresh,
            capacities.len(),
            before.high(),
            after.high(),
            capacities.len(),
            0,
        ),
        fresh.len() + steps_within(capacities.len(), before.high()) == steps_within(
            capacities.len(),
            after.high(),
        ),
        after.steps().len() == before.steps().len() + fresh.len(),
        forall|i: int|
            0 <= i < before.steps().len() ==> after.steps()[i] == #[trigger] before.steps()[i],
        forall|i: int|
            before.steps().len() <= i < after.steps().len() ==> {
                &&& (#[trigger] after.steps()[i]).counter_base == fresh[i
                    - before.steps().len()].counter_base
                &&& after.steps()[i].range_upper == capacities[after.steps()[i].at_level() as int]
            },
    ensures
        after.wf(capacities),
        before.steps().is_prefix_of(after.steps()),
{
    let old_steps = before.steps();
    let new_steps = after.steps();
    let count = old_steps.len();
    assert(old_steps =~= new_steps.take(count as int));
    assert forall|i: int| 0 <= i < new_steps.len() implies ({
        &&& due(
            (#[trigger] new_steps[i]).at_level(),
            new_steps[i].probe(),
            capacities.len(),
            after.high(),
        )
        &&& new_steps[i].range_upper == capacities[new_steps[i].at_level() as int]
        &&& i < count ==> new_steps[i].place() <= before.high()
        &&& i >= count ==> new_steps[i].place() == fresh[i - count].range_upper
            && new_steps[i].place() > before.high()
    }) by {
        if i < count {
            assert(new_steps[i] == old_steps[i]);
        } else {
            assert(fresh[i - count].counter_base == new_steps[i].counter_base);
        }
    }
    assert forall|i: int, j: int| 0 <= i < j < new_steps.len() implies (
    #[trigger] new_steps[i]).place() < (#[trigger] new_steps[j]).place() by {
        if j < count {
            assert(new_steps[i] == old_steps[i] && new_steps[j] == old_steps[j]);
        } else if i >= count {
            assert(fresh[i - count].range_upper < fresh[j - count].range_upper);
        }
    }
    assert forall|level: nat, logical: nat|
        due(level, logical, capacities.len(), after.high()) implies #[trigger] scheduled(
        new_steps,
        level,
        logical,
    ) by {
        if position(level, logical) <= before.high() {
            assert(scheduled(old_steps, level, logical));
            let i = choose|i: int|
                0 <= i < old_steps.len() && (#[trigger] old_steps[i]).visits(level, logical);
            assert(new_steps[i].visits(level, logical));
        } else {
            assert(scheduled(fresh, level, logical));
            let i = choose|i: int|
                0 <= i < fresh.len() && (#[trigger] fresh[i]).visits(level, logical);
            assert(new_steps[i + count].visits(level, logical));
        }
    }
}

/// No probe lies up to position zero.
pub proof fn lemma_nothing_due(levels: nat)
    ensures
        steps_within(levels, 0) == 0,
        forall|level: nat, logical: nat| !#[trigger] due(level, logical, levels, 0),
    decreases levels,
{
    assert forall|level: nat, logical: nat| !#[trigger] due(level, logical, levels, 0) by {
        phi::lemma_coordinates_within(level + 1, logical + 1);
    }
    if levels > 0 {
        lemma_nothing_due((levels - 1) as nat);
        let level = (levels - 1) as nat;
        phi::lemma_coordinates_within(level + 1, first_probe(level));
    }
}

/// More probes lie up to a higher position.
proof fn lemma_steps_grow(levels: nat, low: nat, high: nat)
    requires
        low <= high,
    ensures
        steps_within(levels, low) <= steps_within(levels, high),
    decreases levels,
{
    if levels > 0 {
        let level = (levels - 1) as nat;
        lemma_steps_grow(level, low, high);
        lemma_probes_grow(level, first_probe(level), low, high);
    }
}

proof fn lemma_probes_grow(level: nat, from: nat, low: nat, high: nat)
    requires
        low <= high,
    ensures
        probes_within(level, from, low) <= probes_within(level, from, high),
    decreases UNIFORM_SEARCH_CAP + 1 - from,
{
    if from <= UNIFORM_SEARCH_CAP && phi::phi(level + 1, from) <= low {
        lemma_probes_grow(level, from + 1, low, high);
    }
}

/// The order never needs more steps than an epoch sets memory aside for.
pub proof fn law_schedule_fits_its_capacity(schedule: ProbeSchedule, capacities: Seq<usize>)
    requires
        schedule.wf(capacities),
    ensures
        schedule.steps().len() <= steps_within(capacities.len(), QUERY_POSITION_CAP as nat),
{
    lemma_steps_grow(capacities.len(), schedule.high(), QUERY_POSITION_CAP as nat);
}

/// The lookup order of given levels up to a position is unique.
pub proof fn law_schedule_is_unique(
    left: ProbeSchedule,
    right: ProbeSchedule,
    capacities: Seq<usize>,
)
    requires
        left.wf(capacities),
        right.wf(capacities),
        left.high() == right.high(),
    ensures
        left.steps() == right.steps(),
{
    lemma_same_prefix(left, right, capacities, left.steps().len());
    assert(left.steps().take(left.steps().len() as int) =~= left.steps());
    assert(right.steps().take(right.steps().len() as int) =~= right.steps());
}

proof fn lemma_same_prefix(
    left: ProbeSchedule,
    right: ProbeSchedule,
    capacities: Seq<usize>,
    count: nat,
)
    requires
        left.wf(capacities),
        right.wf(capacities),
        left.high() == right.high(),
        count <= left.steps().len(),
    ensures
        left.steps().take(count as int) == right.steps().take(count as int),
    decreases count,
{
    if count > 0 {
        let last = count - 1;
        lemma_same_prefix(left, right, capacities, last as nat);
        lemma_not_behind(left, right, capacities, last);
        assert(left.steps().take(last) == right.steps().take(last));
        lemma_not_behind(right, left, capacities, last);
        let a = left.steps()[last];
        let b = right.steps()[last];
        phi::law_phi_is_injective(a.at_level() + 1, a.probe() + 1, b.at_level() + 1, b.probe() + 1);
        assert(left.steps().take(count as int) =~= left.steps().take(last).push(a));
        assert(right.steps().take(count as int) =~= right.steps().take(last).push(b));
    }
}

/// The step of one order stands no later than that of another with the same
/// steps before it.
proof fn lemma_not_behind(
    left: ProbeSchedule,
    right: ProbeSchedule,
    capacities: Seq<usize>,
    at: int,
)
    requires
        left.wf(capacities),
        right.wf(capacities),
        left.high() == right.high(),
        0 <= at < left.steps().len(),
        left.steps().take(at) == right.steps().take(at),
    ensures
        left.steps()[at].place() >= right.steps()[at].place(),
{
    let step = left.steps()[at];
    assert(scheduled(right.steps(), step.at_level(), step.probe()));
    let i = choose|i: int|
        0 <= i < right.steps().len() && (#[trigger] right.steps()[i]).visits(
            step.at_level(),
            step.probe(),
        );
    law_packing_round_trip(step.at_level(), step.probe());
    assert(right.steps()[i].place() == step.place());
    if i < at {
        assert(left.steps()[i] == left.steps().take(at)[i]);
        assert(right.steps()[i] == right.steps().take(at)[i]);
        assert(left.steps()[i].place() < step.place());
    } else if at < i {
        assert(right.steps()[at].place() < right.steps()[i].place());
    }
}

} // verus!
