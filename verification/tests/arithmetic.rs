//! Exact integer computations: the position encoding, probe budgets, epochs.

use opthash::arith::{
    bit_length, ceil_div_pow2, ceil_log2, exact_log2, floor_div_pow2, floor_three_div_pow2,
    greatest_common_divisor,
};
use opthash::epoch::EpochState;
use opthash::partition::{
    ceil_three_quarters, maximum_next_bucket_count, maximum_path_sum_at_least,
    minimum_next_bucket_count, minimum_path_sum_at_most, nearest_feasible_first_count,
    select_largest_feasible_next,
};
use opthash::phi::{
    digit_count, elastic_dyadic_probe_budget, elastic_phi, elastic_phi_inverse,
    ElasticProbeBudgetError, PhiCoordinate, PhiError,
};
use opthash::reduction::{threshold_of, top_bits_index, RangeReductionError};
use opthash::probe::PreparedProbeRange;
use opthash::EpochTransition;

#[test]
fn positions_decode_to_their_coordinates() {
    assert_eq!(elastic_phi(1, 1), Ok(13));
    assert_eq!(elastic_phi(1, 2), Ok(57));
    assert_eq!(elastic_phi(3, 1), Ok(27));
    let mut encoded = std::collections::BTreeSet::new();
    for i in 1..40 {
        for j in 1..40 {
            let phi = elastic_phi(i, j).unwrap();
            assert_eq!(elastic_phi_inverse(phi), Some((i, j)));
            assert!(encoded.insert(phi));
        }
    }
    for position in 1..2_000 {
        if let Some((i, j)) = elastic_phi_inverse(position) {
            assert_eq!(elastic_phi(i, j), Ok(position));
        }
    }
    assert_eq!(elastic_phi_inverse(0), None);
    assert_eq!(digit_count(1), 1);
    assert_eq!(digit_count(255), 8);
}

#[test]
fn positions_refuse_zero_and_overflow() {
    assert_eq!(
        elastic_phi(0, 1),
        Err(PhiError::ZeroCoordinate { coordinate: PhiCoordinate::I })
    );
    assert_eq!(
        elastic_phi(1, 0),
        Err(PhiError::ZeroCoordinate { coordinate: PhiCoordinate::J })
    );
    assert!(matches!(elastic_phi(u128::MAX, u128::MAX), Err(PhiError::Overflow)));
}

#[test]
fn probe_budgets_grow_with_the_fill() {
    assert_eq!(elastic_dyadic_probe_budget(1, 4, 3, 1), Ok(3));
    assert!(elastic_dyadic_probe_budget(100, 100, 3, 8).is_ok());
    assert_eq!(
        elastic_dyadic_probe_budget(0, 4, 3, 1),
        Err(ElasticProbeBudgetError::InvalidFreeSlots { free_slots: 0, level_slots: 4 })
    );
    assert_eq!(
        elastic_dyadic_probe_budget(5, 4, 3, 1),
        Err(ElasticProbeBudgetError::InvalidFreeSlots { free_slots: 5, level_slots: 4 })
    );
    assert_eq!(
        elastic_dyadic_probe_budget(1, 4, 3, 0),
        Err(ElasticProbeBudgetError::ZeroConstant)
    );
    assert_eq!(
        elastic_dyadic_probe_budget(1, usize::MAX, u32::MAX, usize::MAX),
        Err(ElasticProbeBudgetError::Overflow)
    );
}

#[test]
fn powers_of_two_divide_and_measure_exactly() {
    assert_eq!(floor_div_pow2(1_000, 3), 125);
    assert_eq!(floor_div_pow2(usize::MAX, 64), 0);
    assert_eq!(ceil_div_pow2(1_001, 3), 126);
    assert_eq!(ceil_div_pow2(1, 200), 1);
    assert_eq!(floor_three_div_pow2(1_001, 4), 187);
    assert_eq!(floor_three_div_pow2(usize::MAX, 2), usize::MAX / 4 * 3 + 2);
    assert_eq!(ceil_log2(1), 0);
    assert_eq!(ceil_log2(1_025), 11);
    assert_eq!(bit_length(0), 0);
    assert_eq!(bit_length(255), 8);
    assert_eq!(exact_log2(1 << 40), Some(40));
    assert_eq!(exact_log2(12), None);
    assert_eq!(greatest_common_divisor(84, 36), 12);
    assert_eq!(greatest_common_divisor(7, 0), 7);
    assert_eq!(ceil_three_quarters(10), 8);
}

#[test]
fn bucket_counts_shrink_by_three_quarters() {
    for current in 1..200_usize {
        let low = minimum_next_bucket_count(current);
        let high = maximum_next_bucket_count(current);
        for next in 1..=current {
            let close = (4 * next).abs_diff(3 * current) <= 4;
            assert_eq!((low..=high).contains(&next), close, "current={current} next={next}");
        }
    }
    assert_eq!(nearest_feasible_first_count(4_952, 22), Some(1_238));
    assert_eq!(nearest_feasible_first_count(21, 22), None);
    assert!(minimum_path_sum_at_most(1_238, 22, 4_952));
    assert!(maximum_path_sum_at_least(1_238, 22, 4_952));
    assert_eq!(select_largest_feasible_next(1_238, 4_952 - 1_238, 21), Some(929));
}

#[test]
fn ranges_reject_what_would_bias_them() {
    assert_eq!(threshold_of(1), 0);
    assert_eq!(threshold_of(3), 1);
    assert_eq!(threshold_of(1 << 20), 0);
    assert_eq!(top_bits_index(0xffff_0000_0000_0000, 16), 0xffff);
    assert_eq!(top_bits_index(u64::MAX, 0), 0);
    assert_eq!(PreparedProbeRange::new(0), Err(RangeReductionError::ZeroUpperBound));
    assert_eq!(PreparedProbeRange::new(191).unwrap().upper(), 191);
}

#[test]
fn epochs_count_starts_recoveries_and_deletes() {
    let mut epoch = EpochState::initial();
    assert_eq!(epoch.snapshot(3).distinct_insertions, 3);
    epoch.note_delete();
    epoch.note_delete();
    let snapshot = epoch.snapshot(3);
    assert_eq!((snapshot.distinct_insertions, snapshot.had_delete), (5, true));
    assert_eq!((snapshot.generation, snapshot.transition), (0, EpochTransition::Initial));
    epoch.start(EpochTransition::Growth);
    let snapshot = epoch.snapshot(3);
    assert_eq!((snapshot.distinct_insertions, snapshot.had_delete), (3, false));
    assert_eq!((snapshot.generation, snapshot.transition), (1, EpochTransition::Growth));
    epoch.start_placement_recovery();
    assert_eq!(epoch.snapshot(0).transition, EpochTransition::PlacementRecovery);
    epoch.start_with_placement_recovery(EpochTransition::TombstoneCleanup);
    let snapshot = epoch.snapshot(0);
    assert_eq!((snapshot.generation, snapshot.placement_recoveries), (3, 2));
    assert_eq!(snapshot.transition, EpochTransition::TombstoneCleanup);
    assert_eq!((epoch.generation(), epoch.placement_recoveries()), (3, 2));
}
