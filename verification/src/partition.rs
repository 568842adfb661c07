//! Partitions of a bucket total into geometrically shrinking level counts.
//!
//! Adjacent counts satisfy `next = 3 * current / 4 +/- 1` over the reals. From
//! a given first count the reachable totals form an interval between a
//! smallest and a largest path, and the intervals of neighbouring first counts
//! overlap, so that every total of at least one bucket per level is reachable.

use vstd::prelude::*;

verus! {

/// `ceil(3 * value / 4)`.
pub open spec fn three_quarters(value: nat) -> nat {
    (value - value / 4) as nat
}

/// Whether `next` may follow `current`: positive, not larger, and within one
/// of three quarters of it.
pub open spec fn adjacent(current: nat, next: nat) -> bool {
    1 <= next <= current && -4 <= 4 * next - 3 * current <= 4
}

/// The smallest count that may follow `current`.
pub open spec fn min_next(current: nat) -> nat {
    let minimum = three_quarters(current) - 1;
    if minimum <= 0 {
        1
    } else {
        minimum as nat
    }
}

/// The largest count that may follow `current`.
pub open spec fn max_next(current: nat) -> nat {
    let maximum = current - crate::arith::ceil_div(current, 4) + 1;
    if maximum > current {
        current
    } else {
        maximum as nat
    }
}

/// The sum of `levels` counts that start at `current` and shrink as fast as allowed.
pub open spec fn min_path(current: nat, levels: nat) -> nat
    decreases levels,
{
    if levels == 0 {
        0
    } else {
        current + min_path(min_next(current), (levels - 1) as nat)
    }
}

/// The sum of `levels` counts that start at `current` and shrink as slowly as allowed.
pub open spec fn max_path(current: nat, levels: nat) -> nat
    decreases levels,
{
    if levels == 0 {
        0
    } else {
        current + max_path(max_next(current), (levels - 1) as nat)
    }
}

/// Whether `levels` counts starting at `current` can sum to `total`.
pub open spec fn feasible(current: nat, levels: nat, total: nat) -> bool {
    min_path(current, levels) <= total <= max_path(current, levels)
}

/// Whether `next` is the largest count after `current` that leaves the rest feasible.
pub open spec fn is_largest_feasible_next(
    current: nat,
    levels: nat,
    total: nat,
    next: nat,
) -> bool {
    &&& adjacent(current, next)
    &&& feasible(next, levels, total)
    &&& forall|larger: nat|
        next < larger && #[trigger] adjacent(current, larger) ==> !feasible(larger, levels, total)
}

/// The largest count after `current` that leaves `total` feasible over `levels`.
pub open spec fn largest_feasible_next(current: nat, levels: nat, total: nat) -> nat {
    choose|next: nat| is_largest_feasible_next(current, levels, total, next)
}

/// The lexicographically largest counts that start at `first`.
pub open spec fn bucket_counts(first: nat, levels: nat, total: nat) -> Seq<nat>
    decreases levels,
{
    if levels == 0 {
        Seq::empty()
    } else if levels == 1 {
        seq![first]
    } else {
        let rest = (levels - 1) as nat;
        let left = (total - first) as nat;
        seq![first] + bucket_counts(largest_feasible_next(first, rest, left), rest, left)
    }
}

/// The sum of a sequence.
pub open spec fn sum(counts: Seq<nat>) -> nat
    decreases counts.len(),
{
    if counts.len() == 0 {
        0
    } else {
        counts[0] + sum(counts.drop_first())
    }
}

/// One more part adds itself to the sum.
pub proof fn lemma_sum_push(counts: Seq<nat>, last: nat)
    ensures
        sum(counts.push(last)) == sum(counts) + last,
    decreases counts.len(),
{
    if counts.len() == 0 {
        reveal_with_fuel(sum, 2);
        assert(counts.push(last).drop_first() =~= Seq::<nat>::empty());
    } else {
        lemma_sum_push(counts.drop_first(), last);
        assert(counts.push(last).drop_first() =~= counts.drop_first().push(last));
    }
}

/// A longer prefix adds its last part.
pub proof fn lemma_sum_take_next(counts: Seq<nat>, i: int)
    requires
        0 <= i < counts.len(),
    ensures
        sum(counts.take(i + 1)) == sum(counts.take(i)) + counts[i],
{
    lemma_sum_push(counts.take(i), counts[i]);
    assert(counts.take(i + 1) =~= counts.take(i).push(counts[i]));
}

/// No prefix sums to more than the whole.
pub proof fn lemma_prefix_sum_within(counts: Seq<nat>, i: int)
    requires
        0 <= i <= counts.len(),
    ensures
        sum(counts.take(i)) <= sum(counts),
    decreases counts.len() - i,
{
    if i < counts.len() {
        lemma_sum_take_next(counts, i);
        lemma_prefix_sum_within(counts, i + 1);
    } else {
        assert(counts.take(i) =~= counts);
    }
}

/// No part exceeds the sum.
pub proof fn lemma_parts_within_sum(counts: Seq<nat>)
    ensures
        forall|i: int| 0 <= i < counts.len() ==> #[trigger] counts[i] <= sum(counts),
    decreases counts.len(),
{
    if counts.len() > 0 {
        lemma_parts_within_sum(counts.drop_first());
        assert forall|i: int| 0 <= i < counts.len() implies #[trigger] counts[i] <= sum(
            counts,
        ) by {
            if i > 0 {
                assert(counts[i] == counts.drop_first()[i - 1]);
            }
        }
    }
}

/// Whether the counts are positive, shrink as adjacent levels must, and sum to `total`.
pub open spec fn is_partition(counts: Seq<nat>, total: nat) -> bool {
    &&& forall|i: int| 0 <= i < counts.len() ==> #[trigger] counts[i] >= 1
    &&& forall|i: int|
        0 <= i < counts.len() - 1 ==> adjacent(#[trigger] counts[i], counts[i + 1])
    &&& sum(counts) == total
}

/// Whether `first` is nearer to a quarter of the total than `other`, or as near
/// and not larger.
pub open spec fn is_nearer(first: nat, other: nat, total: nat) -> bool {
    let near = if 4 * first >= total {
        4 * first - total
    } else {
        total - 4 * first
    };
    let far = if 4 * other >= total {
        4 * other - total
    } else {
        total - 4 * other
    };
    near < far || (near == far && first <= other)
}

/// Whether `first` is feasible and no feasible count is nearer to a quarter of
/// the total; of two equally near ones it is the smaller.
pub open spec fn is_nearest_first(first: nat, levels: nat, total: nat) -> bool {
    &&& first >= 1
    &&& feasible(first, levels, total)
    &&& forall|other: nat|
        other >= 1 && #[trigger] feasible(other, levels, total) ==> is_nearer(first, other, total)
}

/// The successors of a count are exactly those between the smallest and the largest.
pub proof fn lemma_adjacent_range(current: nat, next: nat)
    requires
        current >= 1,
    ensures
        adjacent(current, next) <==> min_next(current) <= next <= max_next(current),
        1 <= min_next(current) <= max_next(current) <= current,
{
}

proof fn lemma_next_monotone(low: nat, high: nat)
    requires
        1 <= low <= high,
    ensures
        min_next(low) <= min_next(high),
        max_next(low) <= max_next(high),
{
}

/// Larger first counts have larger smallest and largest sums.
pub proof fn lemma_paths_monotone(low: nat, high: nat, levels: nat)
    requires
        1 <= low <= high,
    ensures
        min_path(low, levels) <= min_path(high, levels),
        max_path(low, levels) <= max_path(high, levels),
    decreases levels,
{
    if levels > 0 {
        let rest = (levels - 1) as nat;
        lemma_next_monotone(low, high);
        lemma_adjacent_range(low, low);
        lemma_adjacent_range(high, high);
        lemma_paths_monotone(min_next(low), min_next(high), rest);
        lemma_paths_monotone(max_next(low), max_next(high), rest);
    }
}

/// The smallest sum of a first count is at most its largest sum.
pub proof fn lemma_paths_ordered(current: nat, levels: nat)
    requires
        current >= 1,
    ensures
        min_path(current, levels) <= max_path(current, levels),
    decreases levels,
{
    if levels > 0 {
        let rest = (levels - 1) as nat;
        lemma_adjacent_range(current, current);
        lemma_paths_ordered(max_next(current), rest);
        lemma_paths_monotone(min_next(current), max_next(current), rest);
    }
}

/// The intervals of reachable sums of neighbouring first counts leave no gap.
pub proof fn lemma_intervals_overlap(current: nat, levels: nat)
    requires
        current >= 1,
        levels >= 1,
    ensures
        min_path(current + 1, levels) <= max_path(current, levels) + 1,
{
    let rest = (levels - 1) as nat;
    lemma_adjacent_range(current, current);
    lemma_adjacent_range(current + 1, current);
    assert(min_next(current + 1) <= max_next(current));
    lemma_paths_ordered(max_next(current), rest);
    lemma_paths_monotone(min_next(current + 1), max_next(current), rest);
}

/// A total between the smallest sum of `low` and the largest sum of `high` is
/// feasible for some count between them.
pub proof fn lemma_feasible_between(low: nat, high: nat, levels: nat, total: nat) -> (found: nat)
    requires
        1 <= low <= high,
        levels >= 1,
        min_path(low, levels) <= total <= max_path(high, levels),
    ensures
        low <= found <= high,
        feasible(found, levels, total),
    decreases high - low,
{
    if max_path(low, levels) >= total {
        low
    } else {
        lemma_intervals_overlap(low, levels);
        lemma_feasible_between(low + 1, high, levels, total)
    }
}

/// A feasible count of more than one level has a feasible successor, and the
/// largest of them exists.
pub proof fn lemma_largest_feasible_next(current: nat, levels: nat, total: nat)
    requires
        current >= 1,
        levels >= 1,
        feasible(current, levels + 1, total),
    ensures
        current <= total,
        is_largest_feasible_next(
            current,
            levels,
            (total - current) as nat,
            largest_feasible_next(current, levels, (total - current) as nat),
        ),
{
    let left = (total - current) as nat;
    lemma_adjacent_range(current, current);
    let found = lemma_feasible_between(min_next(current), max_next(current), levels, left);
    lemma_adjacent_range(current, found);
    let largest = lemma_largest_of(current, levels, left, found);
    assert(is_largest_feasible_next(current, levels, left, largest));
}

proof fn lemma_largest_of(current: nat, levels: nat, total: nat, found: nat) -> (largest: nat)
    requires
        adjacent(current, found),
        feasible(found, levels, total),
    ensures
        is_largest_feasible_next(current, levels, total, largest),
    decreases current - found,
{
    if exists|larger: nat|
        found < larger && #[trigger] adjacent(current, larger) && feasible(larger, levels, total) {
        let larger = choose|larger: nat|
            found < larger && #[trigger] adjacent(current, larger) && feasible(
                larger,
                levels,
                total,
            );
        lemma_largest_of(current, levels, total, larger)
    } else {
        found
    }
}

/// Only one count is the largest feasible successor.
pub proof fn lemma_largest_unique(current: nat, levels: nat, total: nat, next: nat)
    requires
        is_largest_feasible_next(current, levels, total, next),
    ensures
        next == largest_feasible_next(current, levels, total),
{
    let chosen = largest_feasible_next(current, levels, total);
    assert(is_largest_feasible_next(current, levels, total, chosen));
    assert(adjacent(current, next) && adjacent(current, chosen));
}

/// The chosen counts of a feasible first count: one per level, positive,
/// non-increasing within one of three quarters, and summing to the total.
pub proof fn law_bucket_counts_are_a_partition(first: nat, levels: nat, total: nat)
    requires
        first >= 1,
        levels >= 1,
        feasible(first, levels, total),
    ensures
        bucket_counts(first, levels, total).len() == levels,
        bucket_counts(first, levels, total)[0] == first,
        is_partition(bucket_counts(first, levels, total), total),
    decreases levels,
{
    let counts = bucket_counts(first, levels, total);
    if levels == 1 {
        reveal_with_fuel(min_path, 2);
        reveal_with_fuel(max_path, 2);
        reveal_with_fuel(sum, 2);
        assert(counts.drop_first() =~= Seq::<nat>::empty());
    } else {
        let rest = (levels - 1) as nat;
        let left = (total - first) as nat;
        lemma_largest_feasible_next(first, rest, total);
        let next = largest_feasible_next(first, rest, left);
        law_bucket_counts_are_a_partition(next, rest, left);
        let tail = bucket_counts(next, rest, left);
        assert(counts.drop_first() =~= tail);
        assert forall|i: int| 0 <= i < counts.len() implies #[trigger] counts[i] >= 1 by {
            if i > 0 {
                assert(counts[i] == tail[i - 1]);
            }
        }
        assert forall|i: int| 0 <= i < counts.len() - 1 implies adjacent(
            #[trigger] counts[i],
            counts[i + 1],
        ) by {
            if i > 0 {
                assert(counts[i] == tail[i - 1]);
                assert(counts[i + 1] == tail[i]);
            } else {
                assert(counts[1] == tail[0]);
            }
        }
    }
}

/// Feasibility is exact: every partition of a total into adjacent counts has a
/// feasible first count.
pub proof fn law_partitions_are_feasible(counts: Seq<nat>, total: nat)
    requires
        counts.len() >= 1,
        is_partition(counts, total),
    ensures
        feasible(counts[0], counts.len(), total),
    decreases counts.len(),
{
    let rest = counts.drop_first();
    let levels = counts.len();
    assert(counts[0] >= 1);
    if levels == 1 {
        reveal_with_fuel(min_path, 2);
        reveal_with_fuel(max_path, 2);
        reveal_with_fuel(sum, 2);
    } else {
        assert forall|i: int| 0 <= i < rest.len() implies #[trigger] rest[i] >= 1 by {
            assert(rest[i] == counts[i + 1]);
        }
        assert forall|i: int| 0 <= i < rest.len() - 1 implies adjacent(
            #[trigger] rest[i],
            rest[i + 1],
        ) by {
            assert(rest[i] == counts[i + 1]);
            assert(rest[i + 1] == counts[i + 2]);
        }
        law_partitions_are_feasible(rest, sum(rest));
        assert(adjacent(counts[0], counts[1]));
        lemma_adjacent_range(counts[0], counts[1]);
        lemma_paths_monotone(min_next(counts[0]), counts[1], (levels - 1) as nat);
        lemma_paths_monotone(counts[1], max_next(counts[0]), (levels - 1) as nat);
    }
}

/// A path from one stays at one.
proof fn lemma_min_path_of_one(levels: nat)
    ensures
        min_path(1, levels) == levels,
    decreases levels,
{
    if levels > 0 {
        lemma_min_path_of_one((levels - 1) as nat);
    }
}

/// A path takes at least one bucket from every level after the first.
proof fn lemma_min_path_lower_bound(current: nat, levels: nat)
    requires
        current >= 1,
        levels >= 1,
    ensures
        min_path(current, levels) >= current + levels - 1,
    decreases levels,
{
    if levels > 1 {
        lemma_adjacent_range(current, current);
        lemma_min_path_lower_bound(min_next(current), (levels - 1) as nat);
    } else {
        reveal_with_fuel(min_path, 2);
    }
}

/// Every total with at least one bucket per level can be partitioned.
pub proof fn law_every_total_is_feasible(levels: nat, total: nat) -> (first: nat)
    requires
        levels >= 1,
        total >= levels,
    ensures
        1 <= first <= total,
        feasible(first, levels, total),
{
    lemma_min_path_of_one(levels);
    assert(max_path(total, levels) >= total);
    lemma_feasible_between(1, total, levels, total)
}

/// No total below one bucket per level can be partitioned.
pub proof fn law_small_totals_are_infeasible(first: nat, levels: nat, total: nat)
    requires
        first >= 1,
        levels >= 1,
        feasible(first, levels, total),
    ensures
        total >= first + levels - 1,
{
    lemma_min_path_lower_bound(first, levels);
}

/// `ceil(3 * value / 4)`.
pub fn ceil_three_quarters(value: usize) -> (result: usize)
    ensures
        result as nat == three_quarters(value as nat),
        4 * result >= 3 * value > 4 * (result - 1),
        result <= value,
{
    value - value / 4
}

/// The smallest count that may follow `current`.
pub fn minimum_next_bucket_count(current: usize) -> (result: usize)
    requires
        current >= 1,
    ensures
        result as nat == min_next(current as nat),
        1 <= result <= current,
{
    let minimum: usize = ceil_three_quarters(current) - 1;
    if minimum == 0 {
        1
    } else {
        minimum
    }
}

/// The largest count that may follow `current`.
pub fn maximum_next_bucket_count(current: usize) -> (result: usize)
    requires
        current >= 1,
    ensures
        result as nat == max_next(current as nat),
        1 <= result <= current,
{
    let remainder: usize = if current % 4 == 0 {
        0
    } else {
        1
    };
    let ceil_quarter: usize = current / 4 + remainder;
    let maximum: usize = current - ceil_quarter + 1;
    if maximum > current {
        current
    } else {
        maximum
    }
}

/// Whether the smallest sum over the levels is at most `target`.
pub fn minimum_path_sum_at_most(current: usize, level_count: usize, target: usize) -> (result: bool)
    requires
        current >= 1,
    ensures
        result == (min_path(current as nat, level_count as nat) <= target),
{
    let mut count: usize = current;
    let mut left: usize = level_count;
    let mut sum: usize = 0;
    while left > 0
        invariant
            count >= 1,
            sum <= target,
            min_path(current as nat, level_count as nat) == sum + min_path(
                count as nat,
                left as nat,
            ),
        decreases left,
    {
        match sum.checked_add(count) {
            None => {
                return false;
            },
            Some(next_sum) => {
                if next_sum > target {
                    return false;
                }
                sum = next_sum;
            },
        }
        count = minimum_next_bucket_count(count);
        left = left - 1;
    }
    true
}

/// Whether the largest sum over a positive number of levels is at least `target`.
pub fn maximum_path_sum_at_least(
    current: usize,
    level_count: usize,
    target: usize,
) -> (result: bool)
    requires
        current >= 1,
    ensures
        result == (level_count > 0 && max_path(current as nat, level_count as nat) >= target),
{
    let mut count: usize = current;
    let mut left: usize = level_count;
    let mut sum: usize = 0;
    while left > 0
        invariant
            count >= 1,
            left <= level_count,
            left < level_count ==> sum < target,
            max_path(current as nat, level_count as nat) == sum + max_path(
                count as nat,
                left as nat,
            ),
        decreases left,
    {
        match sum.checked_add(count) {
            None => {
                return true;
            },
            Some(next_sum) => {
                sum = next_sum;
            },
        }
        if sum >= target {
            return true;
        }
        count = maximum_next_bucket_count(count);
        left = left - 1;
    }
    false
}

/// The largest count after `current` from which the remaining levels can sum to
/// `remaining_sum`.
pub fn select_largest_feasible_next(
    current: usize,
    remaining_sum: usize,
    remaining_levels: usize,
) -> (result: Option<usize>)
    requires
        current >= 1,
        remaining_levels >= 1,
    ensures
        match result {
            Some(next) => is_largest_feasible_next(
                current as nat,
                remaining_levels as nat,
                remaining_sum as nat,
                next as nat,
            ),
            None => forall|next: nat| #[trigger]
                adjacent(current as nat, next) ==> !feasible(
                    next,
                    remaining_levels as nat,
                    remaining_sum as nat,
                ),
        },
{
    let minimum: usize = minimum_next_bucket_count(current);
    let mut candidate: usize = maximum_next_bucket_count(current);
    proof {
        assert forall|next: nat| #[trigger] adjacent(current as nat, next) implies minimum <= next
            <= candidate by {
            lemma_adjacent_range(current as nat, next);
        }
    }
    while candidate >= minimum
        invariant
            current >= 1,
            remaining_levels >= 1,
            minimum >= 1,
            minimum as nat == min_next(current as nat),
            candidate <= max_next(current as nat),
            forall|next: nat| #[trigger]
                adjacent(current as nat, next) ==> minimum <= next && (next <= candidate
                    || !feasible(next, remaining_levels as nat, remaining_sum as nat)),
        decreases candidate,
    {
        if minimum_path_sum_at_most(candidate, remaining_levels, remaining_sum)
            && maximum_path_sum_at_least(candidate, remaining_levels, remaining_sum) {
            proof {
                lemma_adjacent_range(current as nat, candidate as nat);
            }
            return Some(candidate);
        }
        candidate = candidate - 1;
    }
    None
}

/// A feasible count lies between the two searched bounds.
proof fn lemma_feasible_interval(other: nat, lower: nat, upper: nat, levels: nat, total: nat)
    requires
        1 <= lower,
        1 <= upper,
        1 <= other,
        levels >= 1,
        feasible(other, levels, total),
        lower > 1 ==> max_path((lower - 1) as nat, levels) < total,
        other <= upper || min_path(upper + 1, levels) > total,
    ensures
        lower <= other <= upper,
{
    if other < lower {
        lemma_paths_monotone(other, (lower - 1) as nat, levels);
    }
    if other > upper {
        lemma_paths_monotone(upper + 1, other, levels);
    }
}

/// Clamping the rounded quarter of the total to an interval gives its nearest count.
proof fn lemma_clamped_quarter_is_nearest(
    total: nat,
    lower: nat,
    upper: nat,
    first: nat,
    other: nat,
)
    requires
        lower <= other <= upper,
        ({
            let estimate = if total % 4 <= 2 {
                total / 4
            } else {
                total / 4 + 1
            };
            first == if estimate < lower {
                lower
            } else if estimate > upper {
                upper
            } else {
                estimate
            }
        }),
    ensures
        is_nearer(first, other, total),
{
}

/// The smallest first count whose largest sum reaches the total.
fn least_reaching_first_count(maximum_first: usize, level_count: usize, total: usize) -> (result:
    usize)
    requires
        maximum_first >= 1,
        level_count >= 1,
        max_path(maximum_first as nat, level_count as nat) >= total,
    ensures
        1 <= result <= maximum_first,
        max_path(result as nat, level_count as nat) >= total,
        result > 1 ==> max_path((result - 1) as nat, level_count as nat) < total,
{
    let mut left: usize = 1;
    let mut right: usize = maximum_first;
    while left < right
        invariant
            1 <= left <= right <= maximum_first,
            level_count >= 1,
            max_path(right as nat, level_count as nat) >= total,
            left > 1 ==> max_path((left - 1) as nat, level_count as nat) < total,
        decreases right - left,
    {
        let middle: usize = left + (right - left) / 2;
        if maximum_path_sum_at_least(middle, level_count, total) {
            right = middle;
        } else {
            left = middle + 1;
        }
    }
    left
}

/// The largest first count, up to a limit, whose smallest sum stays within the total.
fn greatest_fitting_first_count(maximum_first: usize, level_count: usize, total: usize) -> (result:
    usize)
    requires
        maximum_first >= 1,
        min_path(1, level_count as nat) <= total,
    ensures
        1 <= result <= maximum_first,
        min_path(result as nat, level_count as nat) <= total,
        result < maximum_first ==> min_path((result + 1) as nat, level_count as nat) > total,
{
    let mut left: usize = 1;
    let mut right: usize = maximum_first;
    while left < right
        invariant
            1 <= left <= right <= maximum_first,
            min_path(left as nat, level_count as nat) <= total,
            right < maximum_first ==> min_path((right + 1) as nat, level_count as nat) > total,
        decreases right - left,
    {
        let middle: usize = left + (right - left) / 2 + (right - left) % 2;
        if minimum_path_sum_at_most(middle, level_count, total) {
            left = middle;
        } else {
            right = middle - 1;
        }
    }
    left
}

/// The feasible first count nearest a quarter of the total, or `None` when
/// there are fewer buckets than levels.
pub fn nearest_feasible_first_count(total_buckets: usize, level_count: usize) -> (result: Option<
    usize,
>)
    ensures
        match result {
            Some(first) => level_count >= 1 && is_nearest_first(
                first as nat,
                level_count as nat,
                total_buckets as nat,
            ),
            None => level_count == 0 || total_buckets < level_count,
        },
{
    if level_count == 0 || total_buckets < level_count {
        return None;
    }
    let ghost levels = level_count as nat;
    let ghost total = total_buckets as nat;
    let maximum_first: usize = total_buckets - (level_count - 1);
    let ghost witness = law_every_total_is_feasible(levels, total);
    proof {
        law_small_totals_are_infeasible(witness, levels, total);
        lemma_paths_monotone(witness, maximum_first as nat, levels);
        lemma_min_path_of_one(levels);
    }
    let first_lower: usize = least_reaching_first_count(maximum_first, level_count, total_buckets);
    let first_upper: usize = greatest_fitting_first_count(
        maximum_first,
        level_count,
        total_buckets,
    );
    let quotient: usize = total_buckets / 4;
    let nearest_estimate: usize = if total_buckets % 4 <= 2 {
        quotient
    } else {
        quotient + 1
    };
    let first: usize = if nearest_estimate < first_lower {
        first_lower
    } else if nearest_estimate > first_upper {
        first_upper
    } else {
        nearest_estimate
    };
    proof {
        lemma_feasible_interval(witness, first_lower as nat, first_upper as nat, levels, total);
        lemma_paths_monotone(first_lower as nat, first as nat, levels);
        lemma_paths_monotone(first as nat, first_upper as nat, levels);
        assert forall|other: nat| other >= 1 && #[trigger] feasible(
            other,
            levels,
            total,
        ) implies is_nearer(first as nat, other, total) by {
            law_small_totals_are_infeasible(other, levels, total);
            lemma_feasible_interval(other, first_lower as nat, first_upper as nat, levels, total);
            lemma_clamped_quarter_is_nearest(
                total,
                first_lower as nat,
                first_upper as nat,
                first as nat,
                other,
            );
        }
    }
    Some(first)
}

/// The chosen counts are the largest that start at the first count: where another such
/// partition first differs from them, it has the smaller count.
pub proof fn law_bucket_counts_are_the_largest(
    first: nat,
    levels: nat,
    total: nat,
    other: Seq<nat>,
    at: int,
)
    requires
        first >= 1,
        levels >= 1,
        feasible(first, levels, total),
        other.len() == levels,
        other[0] == first,
        is_partition(other, total),
        0 <= at < levels,
        forall|i: int|
            0 <= i < at ==> #[trigger] other[i] == bucket_counts(first, levels, total)[i],
    ensures
        other[at] <= bucket_counts(first, levels, total)[at],
    decreases levels,
{
    let counts = bucket_counts(first, levels, total);
    law_bucket_counts_are_a_partition(first, levels, total);
    if at > 0 {
        let rest = (levels - 1) as nat;
        let left = (total - first) as nat;
        lemma_largest_feasible_next(first, rest, total);
        let next = largest_feasible_next(first, rest, left);
        assert(is_largest_feasible_next(first, rest, left, next));
        let tail = bucket_counts(next, rest, left);
        assert(counts =~= seq![first] + tail);
        let other_tail = other.drop_first();
        assert(sum(other) == other[0] + sum(other_tail));
        assert forall|i: int| 0 <= i < other_tail.len() implies #[trigger] other_tail[i] >= 1 by {
            assert(other_tail[i] == other[i + 1]);
        }
        assert forall|i: int| 0 <= i < other_tail.len() - 1 implies adjacent(
            #[trigger] other_tail[i],
            other_tail[i + 1],
        ) by {
            assert(adjacent(other[i + 1], other[i + 2]));
        }
        assert(is_partition(other_tail, left));
        law_partitions_are_feasible(other_tail, left);
        assert(adjacent(other[0], other[1]));
        law_bucket_counts_are_a_partition(next, rest, left);
        if other_tail[0] > next {
            assert(!feasible(other_tail[0], rest, left));
        }
        if at == 1 {
            assert(counts[1] == tail[0]);
        } else {
            assert(other[1] == counts[1]);
            assert(other_tail[0] == next);
            assert forall|i: int| 0 <= i < at - 1 implies #[trigger] other_tail[i] == tail[i] by {
                assert(other[i + 1] == counts[i + 1]);
            }
            law_bucket_counts_are_the_largest(next, rest, left, other_tail, at - 1);
            assert(counts[at] == tail[at - 1]);
        }
    }
}

} // verus!
