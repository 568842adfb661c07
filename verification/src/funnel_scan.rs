//! Scans over control bytes in probe order.

use vstd::prelude::*;

use crate::bitmask::BitMask;
use crate::config::GROUP_SIZE;
use crate::control::{self, CTRL_EMPTY, CTRL_TOMBSTONE};
use crate::simd::{eq_mask_group, free_mask_group};

verus! {

/// The outcome of scanning one bucket.
#[derive(Clone, Copy, Debug, Eq, PartialEq, Structural)]
pub enum BucketScanResult {
    /// The key's slot.
    Hit(usize),
    /// An empty slot ended the scan; the slot to fill is this one, or the first
    /// tombstone seen.
    Empty(usize),
    /// Neither.
    Full,
}

/// The outcome of a scan, and the first tombstone seen so far.
pub ghost struct Scan {
    /// The outcome.
    pub result: BucketScanResult,
    /// The first tombstone.
    pub tombstone: Option<usize>,
}

/// The first of two optional slots.
pub open spec fn first_of(earlier: Option<usize>, slot: nat) -> usize {
    match earlier {
        Some(first) => first,
        None => slot as usize,
    }
}

/// Scanning the cells from position `from` on: a tombstone is remembered, an
/// empty slot ends the scan, and so does a slot with the fingerprint whose key
/// matches.
pub open spec fn scan_from(
    controls: Seq<u8>,
    fingerprint: u8,
    matches_key: spec_fn(int) -> bool,
    cells: Seq<nat>,
    from: nat,
    tombstone: Option<usize>,
) -> Scan
    decreases cells.len() - from,
{
    if from >= cells.len() {
        Scan { result: BucketScanResult::Full, tombstone }
    } else {
        let slot = cells[from as int];
        let control = controls[slot as int];
        if control == CTRL_TOMBSTONE {
            scan_from(
                controls,
                fingerprint,
                matches_key,
                cells,
                from + 1,
                Some(first_of(tombstone, slot)),
            )
        } else if control == CTRL_EMPTY {
            Scan { result: BucketScanResult::Empty(first_of(tombstone, slot)), tombstone }
        } else if control == fingerprint && matches_key(slot as int) {
            Scan { result: BucketScanResult::Hit(slot as usize), tombstone }
        } else {
            scan_from(controls, fingerprint, matches_key, cells, from + 1, tombstone)
        }
    }
}

/// A scan rests on the keys of the slots with the fingerprint alone.
pub proof fn lemma_scan_alike(
    controls: Seq<u8>,
    fingerprint: u8,
    left: spec_fn(int) -> bool,
    right: spec_fn(int) -> bool,
    cells: Seq<nat>,
    from: nat,
    tombstone: Option<usize>,
)
    requires
        forall|i: int|
            0 <= i < cells.len() && controls[#[trigger] cells[i] as int] == fingerprint ==> left(
                cells[i] as int,
            ) == right(cells[i] as int),
    ensures
        scan_from(controls, fingerprint, left, cells, from, tombstone) == scan_from(
            controls,
            fingerprint,
            right,
            cells,
            from,
            tombstone,
        ),
    decreases cells.len() - from,
{
    if from < cells.len() {
        let slot = cells[from as int];
        lemma_scan_alike(controls, fingerprint, left, right, cells, from + 1, tombstone);
        lemma_scan_alike(
            controls,
            fingerprint,
            left,
            right,
            cells,
            from + 1,
            Some(first_of(tombstone, slot)),
        );
    }
}

/// The slots of a bucket, in order.
pub open spec fn bucket_cells(start: nat, length: nat) -> Seq<nat> {
    Seq::new(length, |i: int| (start + i) as nat)
}

/// Whether a slot changes a scan: it is free, or has the fingerprint.
pub open spec fn is_event(control: u8, fingerprint: u8) -> bool {
    !control::occupied(control) || control == fingerprint
}

/// The control byte of a lane of the group at `position`.
pub open spec fn lane_control(controls: Seq<u8>, position: nat, lane: nat) -> u8 {
    controls[(position + lane) as int]
}

/// Whether a lane of the group at `position` changes a scan.
pub open spec fn lane_event(controls: Seq<u8>, position: nat, lane: nat, fingerprint: u8) -> bool {
    is_event(controls[(position + lane) as int], fingerprint)
}

/// Whether an inspection answers by a predicate.
pub open spec fn inspects<F: Fn(usize) -> bool>(
    inspect: F,
    matches_key: spec_fn(int) -> bool,
) -> bool {
    forall|slot: usize, answer: bool| #[trigger]
        inspect.ensures((slot,), answer) ==> answer == matches_key(slot as int)
}

/// Slots that are no events do not change a scan.
pub proof fn lemma_scan_skip(
    controls: Seq<u8>,
    fingerprint: u8,
    matches_key: spec_fn(int) -> bool,
    cells: Seq<nat>,
    from: nat,
    to: nat,
    tombstone: Option<usize>,
)
    requires
        from <= to <= cells.len(),
        forall|i: int|
            from <= i < to ==> !is_event(controls[#[trigger] cells[i] as int], fingerprint),
    ensures
        scan_from(controls, fingerprint, matches_key, cells, from, tombstone) == scan_from(
            controls,
            fingerprint,
            matches_key,
            cells,
            to,
            tombstone,
        ),
    decreases to - from,
{
    if from < to {
        assert(!is_event(controls[cells[from as int] as int], fingerprint));
        lemma_scan_skip(controls, fingerprint, matches_key, cells, from + 1, to, tombstone);
    }
}

/// A scan of two runs of cells goes on with the second where the first is full.
pub proof fn lemma_scan_append(
    controls: Seq<u8>,
    fingerprint: u8,
    matches_key: spec_fn(int) -> bool,
    first: Seq<nat>,
    second: Seq<nat>,
    from: nat,
    tombstone: Option<usize>,
)
    requires
        from <= first.len(),
    ensures
        ({
            let whole = scan_from(
                controls,
                fingerprint,
                matches_key,
                first + second,
                from,
                tombstone,
            );
            let part = scan_from(controls, fingerprint, matches_key, first, from, tombstone);
            if part.result == BucketScanResult::Full {
                whole == scan_from(
                    controls,
                    fingerprint,
                    matches_key,
                    second,
                    0,
                    part.tombstone,
                )
            } else {
                whole == part
            }
        }),
    decreases first.len() - from,
{
    let cells = first + second;
    if from < first.len() {
        assert(cells[from as int] == first[from as int]);
        let slot = first[from as int];
        let control = controls[slot as int];
        let seen = if control == CTRL_TOMBSTONE {
            Some(first_of(tombstone, slot))
        } else {
            tombstone
        };
        if control != CTRL_EMPTY && !(control != CTRL_TOMBSTONE && control == fingerprint
            && matches_key(slot as int)) {
            lemma_scan_append(controls, fingerprint, matches_key, first, second, from + 1, seen);
        }
    } else {
        lemma_scan_shift(controls, fingerprint, matches_key, first, second, 0, tombstone);
    }
}

proof fn lemma_scan_shift(
    controls: Seq<u8>,
    fingerprint: u8,
    matches_key: spec_fn(int) -> bool,
    first: Seq<nat>,
    second: Seq<nat>,
    from: nat,
    tombstone: Option<usize>,
)
    ensures
        scan_from(
            controls,
            fingerprint,
            matches_key,
            first + second,
            first.len() + from,
            tombstone,
        ) == scan_from(controls, fingerprint, matches_key, second, from, tombstone),
    decreases second.len() - from,
{
    if from < second.len() {
        assert((first + second)[(first.len() + from) as int] == second[from as int]);
        let slot = second[from as int];
        let seen = if controls[slot as int] == CTRL_TOMBSTONE {
            Some(first_of(tombstone, slot))
        } else {
            tombstone
        };
        lemma_scan_shift(controls, fingerprint, matches_key, first, second, from + 1, seen);
    }
}

/// Scans exactly `length` logical controls in order, a group at a time.
pub fn scan_funnel_bucket<F: Fn(usize) -> bool>(
    controls: &[u8],
    start: usize,
    length: usize,
    fingerprint: u8,
    first_tombstone: &mut Option<usize>,
    inspect_match: F,
) -> (result: BucketScanResult)
    requires
        start + length + GROUP_SIZE - 1 <= controls@.len(),
        control::occupied(fingerprint),
        forall|slot: usize|
            start <= slot < start + length && controls@[slot as int] == fingerprint
                ==> #[trigger] inspect_match.requires((slot,)),
    ensures
        forall|matches_key: spec_fn(int) -> bool| #[trigger]
            inspects(inspect_match, matches_key) ==> (Scan {
                result,
                tombstone: *final(first_tombstone),
            }) == scan_from(
                controls@,
                fingerprint,
                matches_key,
                bucket_cells(start as nat, length as nat),
                0,
                *old(first_tombstone),
            ),
{
    let total: usize = controls.len();
    let end: usize = start + length;
    let ghost cells = bucket_cells(start as nat, length as nat);
    let mut position: usize = start;
    while position < end
        invariant
            start <= position <= end,
            end == start + length,
            total == controls@.len(),
            start + length + GROUP_SIZE - 1 <= controls@.len(),
            control::occupied(fingerprint),
            cells == bucket_cells(start as nat, length as nat),
            forall|slot: usize|
                start <= slot < start + length && controls@[slot as int] == fingerprint
                    ==> #[trigger] inspect_match.requires((slot,)),
            forall|matches_key: spec_fn(int) -> bool| #[trigger]
                inspects(inspect_match, matches_key) ==> scan_from(
                    controls@,
                    fingerprint,
                    matches_key,
                    cells,
                    (position - start) as nat,
                    *first_tombstone,
                ) == scan_from(
                    controls@,
                    fingerprint,
                    matches_key,
                    cells,
                    0,
                    *old(first_tombstone),
                ),
        decreases end - position,
    {
        let left: usize = end - position;
        let logical_lanes: usize = if GROUP_SIZE < left {
            GROUP_SIZE
        } else {
            left
        };
        let mut events: BitMask = free_mask_group(controls, position).union(
            eq_mask_group(controls, position, fingerprint),
        );
        let ghost mut seen: nat = 0;
        loop
            invariant_except_break
                start <= position < end,
                end == start + length,
                start + length + GROUP_SIZE - 1 <= controls@.len(),
                control::occupied(fingerprint),
                cells == bucket_cells(start as nat, length as nat),
                logical_lanes <= GROUP_SIZE,
                logical_lanes <= end - position,
                seen <= logical_lanes,
                forall|slot: usize|
                    start <= slot < start + length && controls@[slot as int] == fingerprint
                        ==> #[trigger] inspect_match.requires((slot,)),
                forall|lane: nat|
                    #[trigger] events.has(lane) <==> seen <= lane < GROUP_SIZE && lane_event(
                        controls@,
                        position as nat,
                        lane,
                        fingerprint,
                    ),
                forall|matches_key: spec_fn(int) -> bool| #[trigger]
                    inspects(inspect_match, matches_key) ==> scan_from(
                        controls@,
                        fingerprint,
                        matches_key,
                        cells,
                        (position - start + seen) as nat,
                        *first_tombstone,
                    ) == scan_from(
                        controls@,
                        fingerprint,
                        matches_key,
                        cells,
                        0,
                        *old(first_tombstone),
                    ),
            ensures
                forall|matches_key: spec_fn(int) -> bool| #[trigger]
                    inspects(inspect_match, matches_key) ==> scan_from(
                        controls@,
                        fingerprint,
                        matches_key,
                        cells,
                        (position - start + logical_lanes) as nat,
                        *first_tombstone,
                    ) == scan_from(
                        controls@,
                        fingerprint,
                        matches_key,
                        cells,
                        0,
                        *old(first_tombstone),
                    ),
            decreases events.0,
        {
            let ghost before = events;
            let stop: bool = match events.next() {
                None => {
                    assert forall|lane: nat|
                        seen <= lane < logical_lanes implies !#[trigger] lane_event(
                        controls@,
                        position as nat,
                        lane,
                        fingerprint,
                    ) by {
                        assert(!before.has(lane));
                    }
                    true
                },
                Some(lane) => {
                    assert(before.has(lane as nat));
                    assert forall|other: nat|
                        seen <= other < lane && other < logical_lanes implies !#[trigger] lane_event(
                        controls@,
                        position as nat,
                        other,
                        fingerprint,
                    ) by {
                        assert(!before.has(other));
                    }
                    if lane >= logical_lanes {
                        true
                    } else {
                        let slot: usize = position + lane;
                        let control: u8 = controls[slot];
                        assert forall|matches_key: spec_fn(int) -> bool| #[trigger]
                            inspects(inspect_match, matches_key) implies scan_from(
                            controls@,
                            fingerprint,
                            matches_key,
                            cells,
                            (position - start + lane) as nat,
                            *first_tombstone,
                        ) == scan_from(
                            controls@,
                            fingerprint,
                            matches_key,
                            cells,
                            0,
                            *old(first_tombstone),
                        ) by {
                            lemma_group_skip(
                                controls@,
                                fingerprint,
                                matches_key,
                                start as nat,
                                length as nat,
                                position as nat,
                                seen,
                                lane as nat,
                                *first_tombstone,
                            );
                        }
                        assert(cells[position - start + lane] == slot);
                        if control == CTRL_TOMBSTONE {
                            if first_tombstone.is_none() {
                                *first_tombstone = Some(slot);
                            }
                        } else if control == CTRL_EMPTY {
                            return BucketScanResult::Empty(
                                match *first_tombstone {
                                    Some(first) => first,
                                    None => slot,
                                },
                            );
                        } else if inspect_match(slot) {
                            return BucketScanResult::Hit(slot);
                        }
                        proof {
                            seen = lane as nat + 1;
                        }
                        false
                    }
                },
            };
            if stop {
                assert forall|matches_key: spec_fn(int) -> bool| #[trigger]
                    inspects(inspect_match, matches_key) implies scan_from(
                    controls@,
                    fingerprint,
                    matches_key,
                    cells,
                    (position - start + logical_lanes) as nat,
                    *first_tombstone,
                ) == scan_from(
                    controls@,
                    fingerprint,
                    matches_key,
                    cells,
                    0,
                    *old(first_tombstone),
                ) by {
                    lemma_group_skip(
                        controls@,
                        fingerprint,
                        matches_key,
                        start as nat,
                        length as nat,
                        position as nat,
                        seen,
                        logical_lanes as nat,
                        *first_tombstone,
                    );
                }
                break;
            }
        }
        position = position + logical_lanes;
    }
    BucketScanResult::Full
}

/// Lanes of a group that are no events do not change a scan.
proof fn lemma_group_skip(
    controls: Seq<u8>,
    fingerprint: u8,
    matches_key: spec_fn(int) -> bool,
    start: nat,
    length: nat,
    position: nat,
    from: nat,
    to: nat,
    tombstone: Option<usize>,
)
    requires
        start <= position,
        from <= to,
        position + to <= start + length,
        forall|lane: nat|
            from <= lane < to ==> !#[trigger] lane_event(controls, position, lane, fingerprint),
    ensures
        scan_from(
            controls,
            fingerprint,
            matches_key,
            bucket_cells(start, length),
            (position - start + from) as nat,
            tombstone,
        ) == scan_from(
            controls,
            fingerprint,
            matches_key,
            bucket_cells(start, length),
            (position - start + to) as nat,
            tombstone,
        ),
{
    let cells = bucket_cells(start, length);
    assert forall|i: int|
        position - start + from <= i < position - start + to implies !is_event(
        controls[#[trigger] cells[i] as int],
        fingerprint,
    ) by {
        let lane = (i - (position - start)) as nat;
        assert(cells[i] == position + lane);
        assert(!lane_event(controls, position, lane, fingerprint));
    }
    lemma_scan_skip(
        controls,
        fingerprint,
        matches_key,
        cells,
        (position - start + from) as nat,
        (position - start + to) as nat,
        tombstone,
    );
}

/// Clean-epoch specialization: without tombstones, the first free lane is the
/// terminating empty lane.
pub fn scan_clean_funnel_bucket<F: Fn(usize) -> bool>(
    controls: &[u8],
    start: usize,
    length: usize,
    fingerprint: u8,
    inspect_match: F,
) -> (result: BucketScanResult)
    requires
        start + length + GROUP_SIZE - 1 <= controls@.len(),
        control::occupied(fingerprint),
        forall|slot: int|
            start <= slot < start + length ==> #[trigger] controls@[slot] != CTRL_TOMBSTONE,
        forall|slot: usize|
            start <= slot < start + length && controls@[slot as int] == fingerprint
                ==> #[trigger] inspect_match.requires((slot,)),
    ensures
        forall|matches_key: spec_fn(int) -> bool| #[trigger]
            inspects(inspect_match, matches_key) ==> (Scan { result, tombstone: None })
                == scan_from(
                controls@,
                fingerprint,
                matches_key,
                bucket_cells(start as nat, length as nat),
                0,
                None,
            ),
{
    let total: usize = controls.len();
    let end: usize = start + length;
    let ghost cells = bucket_cells(start as nat, length as nat);
    let mut position: usize = start;
    while position < end
        invariant
            start <= position <= end,
            end == start + length,
            total == controls@.len(),
            start + length + GROUP_SIZE - 1 <= controls@.len(),
            control::occupied(fingerprint),
            cells == bucket_cells(start as nat, length as nat),
            forall|slot: int|
                start <= slot < start + length ==> #[trigger] controls@[slot] != CTRL_TOMBSTONE,
            forall|slot: usize|
                start <= slot < start + length && controls@[slot as int] == fingerprint
                    ==> #[trigger] inspect_match.requires((slot,)),
            forall|matches_key: spec_fn(int) -> bool| #[trigger]
                inspects(inspect_match, matches_key) ==> scan_from(
                    controls@,
                    fingerprint,
                    matches_key,
                    cells,
                    (position - start) as nat,
                    None,
                ) == scan_from(controls@, fingerprint, matches_key, cells, 0, None),
        decreases end - position,
    {
        let left: usize = end - position;
        let logical_lanes: usize = if GROUP_SIZE < left {
            GROUP_SIZE
        } else {
            left
        };
        let mut matching: BitMask = eq_mask_group(controls, position, fingerprint);
        let free: BitMask = free_mask_group(controls, position);
        let first_empty: Option<usize> = free.first_below(logical_lanes);
        let semantic_lanes: usize = match first_empty {
            Some(lane) => lane,
            None => logical_lanes,
        };
        proof {
            assert forall|lane: nat| lane < semantic_lanes implies control::occupied(
                #[trigger] lane_control(controls@, position as nat, lane),
            ) by {
                assert(!free.has(lane));
            }
            if first_empty is Some {
                assert(free.has(semantic_lanes as nat));
            }
        }
        let ghost mut seen: nat = 0;
        loop
            invariant_except_break
                start <= position < end,
                end == start + length,
                start + length + GROUP_SIZE - 1 <= controls@.len(),
                control::occupied(fingerprint),
                cells == bucket_cells(start as nat, length as nat),
                semantic_lanes <= logical_lanes <= GROUP_SIZE,
                logical_lanes <= end - position,
                seen <= semantic_lanes,
                forall|lane: nat|
                    lane < semantic_lanes ==> control::occupied(
                        #[trigger] lane_control(controls@, position as nat, lane),
                    ),
                forall|slot: usize|
                    start <= slot < start + length && controls@[slot as int] == fingerprint
                        ==> #[trigger] inspect_match.requires((slot,)),
                forall|lane: nat|
                    #[trigger] matching.has(lane) <==> seen <= lane < GROUP_SIZE && lane_control(
                        controls@,
                        position as nat,
                        lane,
                    ) == fingerprint,
                forall|matches_key: spec_fn(int) -> bool| #[trigger]
                    inspects(inspect_match, matches_key) ==> scan_from(
                        controls@,
                        fingerprint,
                        matches_key,
                        cells,
                        (position - start + seen) as nat,
                        None,
                    ) == scan_from(controls@, fingerprint, matches_key, cells, 0, None),
            ensures
                forall|matches_key: spec_fn(int) -> bool| #[trigger]
                    inspects(inspect_match, matches_key) ==> scan_from(
                        controls@,
                        fingerprint,
                        matches_key,
                        cells,
                        (position - start + semantic_lanes) as nat,
                        None,
                    ) == scan_from(controls@, fingerprint, matches_key, cells, 0, None),
            decreases matching.0,
        {
            let ghost before = matching;
            let found: Option<usize> = matching.next();
            let reached: usize = match found {
                Some(lane) => if lane < semantic_lanes {
                    lane
                } else {
                    semantic_lanes
                },
                None => semantic_lanes,
            };
            proof {
                assert forall|lane: nat|
                    seen <= lane < reached implies !#[trigger] lane_event(
                    controls@,
                    position as nat,
                    lane,
                    fingerprint,
                ) by {
                    assert(!before.has(lane));
                    assert(control::occupied(lane_control(controls@, position as nat, lane)));
                }
                if found is Some {
                    assert(before.has(found->0 as nat));
                }
                assert forall|matches_key: spec_fn(int) -> bool| #[trigger]
                    inspects(inspect_match, matches_key) implies scan_from(
                    controls@,
                    fingerprint,
                    matches_key,
                    cells,
                    (position - start + reached) as nat,
                    None,
                ) == scan_from(controls@, fingerprint, matches_key, cells, 0, None) by {
                    lemma_group_skip(
                        controls@,
                        fingerprint,
                        matches_key,
                        start as nat,
                        length as nat,
                        position as nat,
                        seen,
                        reached as nat,
                        None,
                    );
                }
            }
            if reached == semantic_lanes {
                break;
            }
            let slot: usize = position + reached;
            assert(cells[position - start + reached] == slot);
            assert(control::occupied(lane_control(controls@, position as nat, reached as nat)));
            if inspect_match(slot) {
                return BucketScanResult::Hit(slot);
            }
            proof {
                seen = reached as nat + 1;
            }
        }
        match first_empty {
            Some(empty_lane) => {
                proof {
                    assert(cells[position - start + empty_lane] == position + empty_lane);
                    assert(controls@[position + empty_lane] != CTRL_TOMBSTONE);
                }
                return BucketScanResult::Empty(position + empty_lane);
            },
            None => {},
        }
        position = position + logical_lanes;
    }
    BucketScanResult::Full
}

} // verus!
