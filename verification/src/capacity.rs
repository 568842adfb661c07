//! Capacity arithmetic shared by both maps.

use vstd::arithmetic::power2::*;
use vstd::prelude::*;

use crate::config::GROUP_SIZE;
use crate::reserve::ReserveFraction;

verus! {

/// The insertion limit of `capacity` slots: all but the reserved ones.
pub open spec fn insertion_limit(capacity: nat, reserve: ReserveFraction) -> int {
    capacity - reserve.reserved(capacity)
}

/// Whether `doublings` doublings of `start` give the first capacity that takes
/// `needed` insertions.
pub open spec fn is_first_fit(
    start: nat,
    needed: nat,
    reserve: ReserveFraction,
    doublings: nat,
) -> bool {
    &&& insertion_limit(start * pow2(doublings), reserve) >= needed
    &&& misses_before(start, needed, reserve, doublings)
}

/// Whether fewer than `doublings` doublings of `start` never take `needed` insertions.
pub open spec fn misses_before(
    start: nat,
    needed: nat,
    reserve: ReserveFraction,
    doublings: nat,
) -> bool {
    forall|fewer: nat|
        fewer < doublings ==> insertion_limit(start * #[trigger] pow2(fewer), reserve) < needed
}

/// The slots that may be filled before a map of `capacity` slots must grow.
#[inline]
pub fn max_insertions(capacity: usize, reserve: ReserveFraction) -> (result: usize)
    ensures
        result == insertion_limit(capacity as nat, reserve),
        result <= capacity,
{
    capacity - reserve.floor_reserved(capacity)
}

/// The smallest capacity that doubling `start` reaches with room for `needed`
/// insertions, where it is representable.
pub open spec fn doubled_capacity(start: nat, needed: nat, reserve: ReserveFraction) -> Option<nat> {
    if exists|doublings: nat| #[trigger] fits_after(start, needed, reserve, doublings) {
        let doublings = choose|doublings: nat| #[trigger]
            fits_after(start, needed, reserve, doublings);
        Some(start * pow2(doublings))
    } else {
        None
    }
}

/// Whether `doublings` doublings give the first capacity with room, and it is
/// representable.
pub open spec fn fits_after(
    start: nat,
    needed: nat,
    reserve: ReserveFraction,
    doublings: nat,
) -> bool {
    is_first_fit(start, needed, reserve, doublings) && start * pow2(doublings) <= usize::MAX
}

/// There is one first fit.
pub proof fn lemma_doubled_capacity(
    start: nat,
    needed: nat,
    reserve: ReserveFraction,
    doublings: nat,
)
    requires
        fits_after(start, needed, reserve, doublings),
    ensures
        doubled_capacity(start, needed, reserve) == Some(start * pow2(doublings)),
{
    let chosen = choose|doublings: nat| #[trigger] fits_after(start, needed, reserve, doublings);
    assert(fits_after(start, needed, reserve, chosen));
    assert(pow2(chosen) >= 0 && pow2(doublings) >= 0);
}

/// Doubling the slots doubles the limit, but for one slot.
pub proof fn lemma_limit_of_double(slots: nat, reserve: ReserveFraction)
    ensures
        insertion_limit(2 * slots, reserve) >= 2 * insertion_limit(slots, reserve) - 1,
{
    let d = pow2(reserve.d() as nat);
    lemma_pow2_pos(reserve.d() as nat);
    let q = slots / d;
    vstd::arithmetic::div_mod::lemma_fundamental_div_mod(slots as int, d as int);
    vstd::arithmetic::div_mod::lemma_mod_bound(slots as int, d as int);
    assert((2 * slots) / d < 2 * q + 2) by {
        assert(2 * slots < (2 * q + 2) * d) by (nonlinear_arith)
            requires
                slots == d * q + slots % d,
                slots % d < d,
                d > 0,
        ;
        vstd::arithmetic::div_mod::lemma_multiply_divide_lt(
            (2 * slots) as int,
            d as int,
            (2 * q + 2) as int,
        );
    }
}

/// What a capacity has room for.
pub proof fn lemma_doubled_capacity_fits(start: nat, needed: nat, reserve: ReserveFraction)
    ensures
        doubled_capacity(start, needed, reserve) matches Some(capacity) ==> insertion_limit(
            capacity,
            reserve,
        ) >= needed && start <= capacity <= usize::MAX,
{
    if let Some(capacity) = doubled_capacity(start, needed, reserve) {
        let doublings = choose|doublings: nat| #[trigger]
            fits_after(start, needed, reserve, doublings);
        assert(fits_after(start, needed, reserve, doublings));
        lemma_pow2_pos(doublings);
        assert(start <= start * pow2(doublings)) by (nonlinear_arith)
            requires
                pow2(doublings) >= 1,
                start >= 0,
        ;
    }
}

/// The smallest capacity that doubling `start` reaches with room for `needed`
/// insertions, or `None` when it is not representable.
#[inline]
pub fn capacity_for(start: usize, needed: usize, reserve: ReserveFraction) -> (result: Option<
    usize,
>)
    requires
        start > 0 || needed == 0,
    ensures
        match result {
            Some(capacity) => doubled_capacity(start as nat, needed as nat, reserve) == Some(
                capacity as nat,
            ),
            None => doubled_capacity(start as nat, needed as nat, reserve) is None,
        },
{
    let mut cap: usize = start;
    let ghost mut doublings: nat = 0;
    proof {
        lemma2_to64();
    }
    while max_insertions(cap, reserve) < needed
        invariant
            start > 0 || needed == 0,
            start > 0 ==> cap > 0,
            cap == start * pow2(doublings),
            misses_before(start as nat, needed as nat, reserve, doublings),
        decreases usize::MAX - cap,
    {
        proof {
            lemma_pow2_unfold(doublings + 1);
            assert(start * pow2(doublings + 1) == 2 * (start * pow2(doublings)))
                by (nonlinear_arith)
                requires
                    pow2(doublings + 1) == 2 * pow2(doublings),
            ;
            doublings = doublings + 1;
        }
        match cap.checked_mul(2) {
            Some(next) => {
                cap = next;
            },
            None => {
                proof {
                    assert forall|fitting: nat| !#[trigger] fits_after(
                        start as nat,
                        needed as nat,
                        reserve,
                        fitting,
                    ) by {
                        if fits_after(start as nat, needed as nat, reserve, fitting) {
                            assert(fitting >= doublings) by {
                                assert(pow2(fitting) >= 0);
                            }
                            crate::arith::lemma_pow2_monotone(doublings, fitting);
                            assert(start * pow2(doublings) <= start * pow2(fitting))
                                by (nonlinear_arith)
                                requires
                                    pow2(doublings) <= pow2(fitting),
                            ;
                        }
                    }
                }
                return None;
            },
        }
    }
    proof {
        assert(fits_after(start as nat, needed as nat, reserve, doublings));
        lemma_doubled_capacity(start as nat, needed as nat, reserve, doublings);
    }
    Some(cap)
}

/// The tombstone count from which a table of `capacity` slots is rebuilt.
pub open spec fn cleanup_threshold(capacity: nat) -> nat {
    let half = capacity / 2;
    let tripled = if capacity * 3 > usize::MAX {
        usize::MAX as nat
    } else {
        capacity * 3
    };
    let hysteresis = if half + 64 > usize::MAX {
        usize::MAX as nat
    } else {
        half + 64
    };
    let bounded = if hysteresis <= tripled / 4 {
        hysteresis
    } else {
        tripled / 4
    };
    if bounded >= half {
        bounded
    } else {
        half
    }
}

/// Half the capacity and four groups more, between one half and three
/// quarters of the capacity.
#[inline]
pub fn tombstone_cleanup_threshold(capacity: usize) -> (result: usize)
    ensures
        result as nat == cleanup_threshold(capacity as nat),
{
    let half: usize = capacity / 2;
    let tripled: usize = match capacity.checked_mul(3) {
        Some(product) => product,
        None => usize::MAX,
    };
    let three_quarters: usize = tripled / 4;
    let hysteresis: usize = half.saturating_add(GROUP_SIZE * 4);
    let bounded: usize = if hysteresis <= three_quarters {
        hysteresis
    } else {
        three_quarters
    };
    if bounded >= half {
        bounded
    } else {
        half
    }
}

/// The cleanup threshold lies between one half and three quarters of the
/// capacity, for every capacity whose triple is representable.
pub proof fn law_cleanup_threshold_bounds(capacity: nat)
    requires
        capacity * 3 <= usize::MAX,
    ensures
        capacity / 2 <= cleanup_threshold(capacity) <= capacity * 3 / 4,
{
}

/// A table never takes more insertions than it has slots, and a fraction
/// below one leaves at least half of them.
pub proof fn law_insertion_limit_bounds(capacity: nat, reserve: ReserveFraction)
    requires
        reserve.wf(),
    ensures
        capacity <= 2 * insertion_limit(capacity, reserve),
        insertion_limit(capacity, reserve) <= capacity,
{
    let d = reserve.d() as nat;
    lemma2_to64();
    crate::arith::lemma_pow2_monotone(1, d);
    vstd::arithmetic::div_mod::lemma_div_is_ordered_by_denominator(
        capacity as int,
        2,
        pow2(d) as int,
    );
}

/// What a table holds back is the share `2^-d` of its slots, rounded down: one slot
/// more would be more than that share.
pub proof fn law_reserve_is_the_share_rounded_down(capacity: nat, reserve: ReserveFraction)
    ensures
        ({
            let held_back = capacity - insertion_limit(capacity, reserve);
            &&& held_back >= 0
            &&& held_back * pow2(reserve.d() as nat) <= capacity
            &&& capacity < (held_back + 1) * pow2(reserve.d() as nat)
        }),
{
    let d = pow2(reserve.d() as nat) as int;
    lemma_pow2_pos(reserve.d() as nat);
    let q = capacity as int / d;
    vstd::arithmetic::div_mod::lemma_fundamental_div_mod(capacity as int, d);
    vstd::arithmetic::div_mod::lemma_mod_bound(capacity as int, d);
    vstd::arithmetic::div_mod::lemma_div_pos_is_pos(capacity as int, d);
    assert(q * d <= capacity && capacity < (q + 1) * d) by (nonlinear_arith)
        requires
            capacity == d * q + capacity as int % d,
            0 <= capacity as int % d < d,
    ;
}

/// More slots never take fewer insertions.
pub proof fn law_limit_grows_with_the_slots(fewer: nat, more: nat, reserve: ReserveFraction)
    requires
        fewer <= more,
    ensures
        insertion_limit(fewer, reserve) <= insertion_limit(more, reserve),
{
    let d = pow2(reserve.d() as nat) as int;
    lemma_pow2_pos(reserve.d() as nat);
    law_reserve_is_the_share_rounded_down(fewer, reserve);
    law_reserve_is_the_share_rounded_down(more, reserve);
    let a = fewer - insertion_limit(fewer, reserve);
    let b = more - insertion_limit(more, reserve);
    assert(b - a <= more - fewer) by (nonlinear_arith)
        requires
            b * d <= more,
            fewer < (a + 1) * d,
            fewer <= more,
            d >= 1,
    ;
}

/// Twice the slots take at most twice the insertions, and at most one less.
pub proof fn law_limit_of_twice_the_slots(slots: nat, reserve: ReserveFraction)
    ensures
        2 * insertion_limit(slots, reserve) - 1 <= insertion_limit(2 * slots, reserve) <= 2
            * insertion_limit(slots, reserve),
{
    lemma_limit_of_double(slots, reserve);
    let d = pow2(reserve.d() as nat) as int;
    lemma_pow2_pos(reserve.d() as nat);
    law_reserve_is_the_share_rounded_down(slots, reserve);
    law_reserve_is_the_share_rounded_down(2 * slots, reserve);
    let a = slots - insertion_limit(slots, reserve);
    let b = 2 * slots - insertion_limit(2 * slots, reserve);
    assert(b >= 2 * a) by (nonlinear_arith)
        requires
            a * d <= slots,
            2 * slots < (b + 1) * d,
            d >= 1,
    ;
}

/// A capacity that doubling reaches is one of the doublings, has room, and is the
/// smallest that has: no doubling below it takes as many insertions, and it takes fewer
/// than twice as many unless it is the start. Where there is none, no doubling that a
/// machine word holds has room.
pub proof fn law_doubling_stops_at_the_first_fit(start: nat, needed: nat, reserve: ReserveFraction)
    requires
        start > 0,
    ensures
        match doubled_capacity(start, needed, reserve) {
            Some(found) => {
                &&& exists|doublings: nat| found == start * #[trigger] pow2(doublings)
                &&& start <= found <= usize::MAX
                &&& insertion_limit(found, reserve) >= needed
                &&& forall|doublings: nat|
                    start * #[trigger] pow2(doublings) < found ==> insertion_limit(
                        start * pow2(doublings),
                        reserve,
                    ) < needed
                &&& found > start ==> insertion_limit(found, reserve) < 2 * needed
            },
            None => forall|doublings: nat|
                start * #[trigger] pow2(doublings) <= usize::MAX ==> insertion_limit(
                    start * pow2(doublings),
                    reserve,
                ) < needed,
        },
{
    match doubled_capacity(start, needed, reserve) {
        Some(found) => {
            let k = choose|doublings: nat| #[trigger] fits_after(start, needed, reserve, doublings);
            assert(fits_after(start, needed, reserve, k));
            assert(found == start * pow2(k));
            lemma_doubled_capacity_fits(start, needed, reserve);
            assert forall|fewer: nat|
                start * #[trigger] pow2(fewer) < found implies insertion_limit(
                start * pow2(fewer),
                reserve,
            ) < needed by {
                if fewer >= k {
                    crate::arith::lemma_pow2_monotone(k, fewer);
                    assert(start * pow2(k) <= start * pow2(fewer)) by (nonlinear_arith)
                        requires
                            pow2(k) <= pow2(fewer),
                    ;
                }
            }
            if found > start {
                lemma2_to64();
                assert(k > 0) by {
                    if k == 0 {
                        assert(start * pow2(0) == start) by (nonlinear_arith)
                            requires
                                pow2(0) == 1,
                        ;
                    }
                }
                lemma_pow2_unfold(k);
                let half = start * pow2((k - 1) as nat);
                assert(found == 2 * half) by (nonlinear_arith)
                    requires
                        found == start * pow2(k),
                        pow2(k) == 2 * pow2((k - 1) as nat),
                        half == start * pow2((k - 1) as nat),
                ;
                law_limit_of_twice_the_slots(half, reserve);
            }
        },
        None => {
            assert forall|fitting: nat|
                start * #[trigger] pow2(fitting) <= usize::MAX implies insertion_limit(
                start * pow2(fitting),
                reserve,
            ) < needed by {
                if insertion_limit(start * pow2(fitting), reserve) >= needed {
                    lemma_first_fit_exists(start, needed, reserve, fitting);
                }
            }
        },
    }
}

/// Where some doubling has room, there is a first one that has.
proof fn lemma_first_fit_exists(start: nat, needed: nat, reserve: ReserveFraction, fitting: nat)
    requires
        start * pow2(fitting) <= usize::MAX,
        insertion_limit(start * pow2(fitting), reserve) >= needed,
    ensures
        doubled_capacity(start, needed, reserve) is Some,
    decreases fitting,
{
    if misses_before(start, needed, reserve, fitting) {
        assert(fits_after(start, needed, reserve, fitting));
    } else {
        let fewer = choose|fewer: nat|
            fewer < fitting && insertion_limit(start * #[trigger] pow2(fewer), reserve) >= needed;
        crate::arith::lemma_pow2_monotone(fewer, fitting);
        assert(start * pow2(fewer) <= start * pow2(fitting)) by (nonlinear_arith)
            requires
                pow2(fewer) <= pow2(fitting),
        ;
        lemma_first_fit_exists(start, needed, reserve, fewer);
    }
}

/// A table is rebuilt only when more than half of its slots are tombstones, and at the
/// latest when more than three quarters are; from 256 slots on, when they are 64 more
/// than half.
pub proof fn law_cleanup_waits_for_half(capacity: nat, tombstones: nat)
    requires
        capacity <= usize::MAX,
    ensures
        tombstones > cleanup_threshold(capacity) ==> 2 * tombstones > capacity,
        4 * tombstones > 3 * capacity ==> tombstones > cleanup_threshold(capacity),
        256 <= capacity && capacity * 3 <= usize::MAX ==> (tombstones > cleanup_threshold(capacity)
            <==> tombstones > capacity / 2 + 64),
{
}

} // verus!
