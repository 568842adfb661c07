//! Probe words and their reduction to ranges.

use opthash::probe::{
    try_pack_funnel_counter, unbiased_prepared_elastic_probe_index,
    unbiased_prepared_funnel_probe_index_in_range, unbiased_probe_index, CounterPrf, FunnelPrf,
    PreparedElasticProbe, PreparedProbeRange, ProbeDomain, ProbeOracle,
};
use opthash::reduction::RangeReductionError;

#[test]
fn prepared_elastic_probe_is_bit_identical_to_the_full_counter_prf() {
    let oracle = CounterPrf::new(0x1234_5678_9abc_def0);
    for key in [0, 1, u64::MAX, 0xd1b5_4a32_d192_ed03] {
        let prepared = oracle.prepare_elastic(key);
        for level in [0, 1, 17, u64::from(u32::MAX)] {
            let domain = ProbeDomain::ElasticOrdinary { level };
            for logical_probe in [0, 1, 383, u64::MAX] {
                for rejection in [0, 1, 7, u32::MAX] {
                    assert_eq!(
                        prepared.word(0, domain, logical_probe, rejection),
                        oracle.word(key, domain, logical_probe, rejection)
                    );
                }
            }
        }
    }
}

#[test]
fn prepared_power_of_two_reduction_is_bit_identical_to_generic_reduction() {
    let oracle = CounterPrf::new(0x1234_5678_9abc_def0);
    for key in [0, 1, u64::MAX, 0xd1b5_4a32_d192_ed03] {
        let prepared = oracle.prepare_elastic(key);
        for level in [0, 1, 17, 63] {
            let domain = ProbeDomain::ElasticOrdinary { level };
            let level_lane = PreparedElasticProbe::level_lane(level);
            let prepared_level = prepared.prepare_level_lane(level_lane);
            for logical_probe in [0, 1, 383, 4_095] {
                let probe_lane = PreparedElasticProbe::logical_probe_lane(logical_probe);
                for upper in [1, 2, 4, 16, 1 << 20] {
                    assert_eq!(
                        unbiased_prepared_elastic_probe_index(
                            &prepared_level,
                            probe_lane,
                            upper,
                            8,
                        ),
                        unbiased_probe_index(&oracle, key, domain, logical_probe, upper, 8,)
                    );
                }
            }
        }
    }
}

#[test]
fn fast_funnel_counter_pack_is_injective_and_checked() {
    let mut counters = std::collections::BTreeSet::new();
    for domain in [
        ProbeDomain::FunnelOrdinary { level: 0 },
        ProbeDomain::FunnelOrdinary { level: 262 },
        ProbeDomain::FunnelSpecialPrimary,
        ProbeDomain::FunnelSpecialFallbackChoiceA,
        ProbeDomain::FunnelSpecialFallbackChoiceB,
    ] {
        for logical in 0..8 {
            for retry in 0..8 {
                let counter = try_pack_funnel_counter(domain, logical, retry).unwrap();
                assert!(counters.insert(counter));
            }
        }
    }
    assert!(
        try_pack_funnel_counter(ProbeDomain::FunnelOrdinary { level: 1 << 46 }, 0, 0,)
            .is_none()
    );
    assert!(try_pack_funnel_counter(ProbeDomain::FunnelSpecialPrimary, 256, 0).is_none());
    assert!(try_pack_funnel_counter(ProbeDomain::FunnelSpecialPrimary, 0, 256).is_none());
    assert!(try_pack_funnel_counter(ProbeDomain::ElasticOrdinary { level: 0 }, 0, 0).is_none());
}

#[test]
fn fast_funnel_prepared_words_and_reductions_match_the_generic_oracle() {
    let oracle = FunnelPrf::new(0x1234_5678_9abc_def0);
    for key in [0, 1, u64::MAX, 0xd1b5_4a32_d192_ed03] {
        let prepared = oracle.prepare(key);
        for domain in [
            ProbeDomain::FunnelOrdinary { level: 0 },
            ProbeDomain::FunnelOrdinary { level: 17 },
            ProbeDomain::FunnelSpecialPrimary,
            ProbeDomain::FunnelSpecialFallbackChoiceA,
            ProbeDomain::FunnelSpecialFallbackChoiceB,
        ] {
            let prepared_domain = prepared.prepare_domain(domain).unwrap();
            for logical in [0, 1, 7, 255] {
                for retry in [0, 1, 7, 255] {
                    assert_eq!(
                        prepared_domain.word(logical, retry),
                        oracle.word(key, domain, logical, retry)
                    );
                }
                for upper in [1, 2, 3, 16, 191, 1_237, 1 << 20] {
                    let range = PreparedProbeRange::new(upper).unwrap();
                    assert_eq!(
                        unbiased_prepared_funnel_probe_index_in_range(
                            &prepared_domain,
                            logical,
                            range,
                            8,
                        ),
                        unbiased_probe_index(&oracle, key, domain, logical, upper, 8)
                    );
                }
            }
        }
    }
}

#[test]
fn fast_funnel_counter_permutation_has_fixed_golden_vectors() {
    let oracle = FunnelPrf::new(0x1234_5678_9abc_def0);
    let cases = [
        (
            0,
            ProbeDomain::FunnelOrdinary { level: 0 },
            0,
            0,
            0x0000_0000_0000_0000,
            0x584f_bd8c_cfbf_e67c,
        ),
        (
            1,
            ProbeDomain::FunnelOrdinary {
                level: (1 << 46) - 1,
            },
            255,
            255,
            0x3fff_ffff_ffff_ffff,
            0x25aa_bb0a_07b2_074f,
        ),
        (
            u64::MAX,
            ProbeDomain::FunnelSpecialPrimary,
            255,
            255,
            0x4000_0000_0000_ffff,
            0x6b27_15b8_99c2_d843,
        ),
        (
            0xd1b5_4a32_d192_ed03,
            ProbeDomain::FunnelSpecialFallbackChoiceA,
            7,
            1,
            0x8000_0000_0000_0701,
            0xcbcd_0c5b_e9c2_0453,
        ),
        (
            0x0123_4567_89ab_cdef,
            ProbeDomain::FunnelSpecialFallbackChoiceB,
            0,
            0,
            0xc000_0000_0000_0000,
            0xf0ef_9ef3_0ac2_58f3,
        ),
    ];
    for (key, domain, logical, retry, counter, word) in cases {
        assert_eq!(
            try_pack_funnel_counter(domain, logical, retry),
            Some(counter)
        );
        assert_eq!(oracle.word(key, domain, logical, retry), word);
        assert_eq!(
            oracle
                .prepare(key)
                .prepare_domain(domain)
                .unwrap()
                .word(logical, retry),
            word
        );
    }
}

#[test]
fn fast_funnel_retries_and_exhaustion_use_distinct_checked_counters() {
    let oracle = FunnelPrf::new(0x1234_5678_9abc_def0);
    let range = PreparedProbeRange::new((1_usize << 63) + 1).unwrap();
    let accepts = |word: u64| {
        let product = u128::from(word) * u128::from(range.upper as u64);
        product as u64 >= range.rejection_threshold
    };
    let mut reject_then_accept = None;
    let mut three_rejections = None;
    for key in 0..1_024 {
        let prepared = oracle
            .prepare(key)
            .prepare_domain(ProbeDomain::FunnelSpecialPrimary)
            .unwrap();
        let accepted = [0, 1, 2].map(|retry| accepts(prepared.word(9, retry)));
        if !accepted[0] && accepted[1] && reject_then_accept.is_none() {
            reject_then_accept = Some(prepared);
        }
        if accepted == [false; 3] && three_rejections.is_none() {
            three_rejections = Some(prepared);
        }
    }

    let retry = reject_then_accept.expect("fixed seed must exercise one exact retry");
    assert_eq!(
        unbiased_prepared_funnel_probe_index_in_range(&retry, 9, range, 1),
        Err(RangeReductionError::RejectionLimitExceeded {
            random_word_count: 1
        })
    );
    assert_eq!(
        unbiased_prepared_funnel_probe_index_in_range(&retry, 9, range, 2)
            .unwrap()
            .random_word_count,
        2
    );

    let exhausted = three_rejections.expect("fixed seed must exercise bounded exhaustion");
    assert_eq!(
        unbiased_prepared_funnel_probe_index_in_range(&exhausted, 9, range, 3),
        Err(RangeReductionError::RejectionLimitExceeded {
            random_word_count: 3
        })
    );
}

#[test]
fn fast_funnel_fixed_seed_distribution_smoke() {
    const SAMPLES: u64 = 1 << 18;
    let oracle = FunnelPrf::new(0x1234_5678_9abc_def0);
    let mut one_counts = [0_u64; u64::BITS as usize];
    let mut avalanche_bits = 0_u64;
    let mut cross_level_equal_bits = 0_u64;
    let mut fallback_same_bucket = 0_u64;
    let fallback_range = PreparedProbeRange::new(257).unwrap();
    let mut fallback_a_counts = vec![0_u32; fallback_range.upper()];
    let mut fallback_b_counts = vec![0_u32; fallback_range.upper()];

    for key in 0..SAMPLES {
        let ordinary = oracle.word(key, ProbeDomain::FunnelOrdinary { level: 7 }, 0, 0);
        for bit in 0..u64::BITS {
            one_counts[bit as usize] += (ordinary >> bit) & 1;
        }
        let flipped_key = key ^ (1_u64 << (key % u64::from(u64::BITS)));
        avalanche_bits += u64::from(
            (ordinary
                ^ oracle.word(flipped_key, ProbeDomain::FunnelOrdinary { level: 7 }, 0, 0))
            .count_ones(),
        );
        cross_level_equal_bits += u64::from(
            (!(ordinary ^ oracle.word(key, ProbeDomain::FunnelOrdinary { level: 8 }, 0, 0)))
                .count_ones(),
        );

        let prepared = oracle.prepare(key);
        let a = unbiased_prepared_funnel_probe_index_in_range(
            &prepared
                .prepare_domain(ProbeDomain::FunnelSpecialFallbackChoiceA)
                .unwrap(),
            0,
            fallback_range,
            8,
        )
        .unwrap()
        .index;
        let b = unbiased_prepared_funnel_probe_index_in_range(
            &prepared
                .prepare_domain(ProbeDomain::FunnelSpecialFallbackChoiceB)
                .unwrap(),
            0,
            fallback_range,
            8,
        )
        .unwrap()
        .index;
        fallback_a_counts[a] += 1;
        fallback_b_counts[b] += 1;
        fallback_same_bucket += u64::from(a == b);
    }

    for count in one_counts {
        assert!((SAMPLES * 48 / 100..=SAMPLES * 52 / 100).contains(&count));
    }
    assert!((SAMPLES * 30..=SAMPLES * 34).contains(&avalanche_bits));
    assert!((SAMPLES * 30..=SAMPLES * 34).contains(&cross_level_equal_bits));

    let expected_bucket_count = SAMPLES / fallback_range.upper() as u64;
    let bucket_min = expected_bucket_count * 3 / 4;
    let bucket_max = expected_bucket_count * 5 / 4;
    assert!((bucket_min..=bucket_max).contains(&fallback_same_bucket));
    for count in fallback_a_counts.into_iter().chain(fallback_b_counts) {
        assert!((bucket_min..=bucket_max).contains(&u64::from(count)));
    }
}

#[test]
fn fast_funnel_awkward_ranges_have_no_large_fixed_seed_skew() {
    const EXPECTED_PER_BUCKET: usize = 512;
    let oracle = FunnelPrf::new(0x1234_5678_9abc_def0);
    for upper in [3, 191, 1_237] {
        let range = PreparedProbeRange::new(upper).unwrap();
        let mut counts = vec![0_u32; upper];
        for key in 0..(upper * EXPECTED_PER_BUCKET) as u64 {
            let prepared = oracle
                .prepare(key)
                .prepare_domain(ProbeDomain::FunnelSpecialPrimary)
                .unwrap();
            let sample =
                unbiased_prepared_funnel_probe_index_in_range(&prepared, 3, range, 8).unwrap();
            counts[sample.index] += 1;
        }
        for count in counts {
            assert!(
                (EXPECTED_PER_BUCKET - 128..=EXPECTED_PER_BUCKET + 128)
                    .contains(&(count as usize)),
                "upper={upper} count={count}"
            );
        }
    }
}

#[test]
fn a_probe_that_is_accepted_early_needs_no_later_word() {
    let oracle = FunnelPrf::new(0x1234_5678_9abc_def0);
    let domain = ProbeDomain::FunnelSpecialPrimary;
    for key in 0..64_u64 {
        let few = unbiased_probe_index(&oracle, key, domain, 0, 1000, 8);
        assert!(few.is_ok());
        assert_eq!(unbiased_probe_index(&oracle, key, domain, 0, 1000, 100_000), few);
    }
    assert_eq!(
        unbiased_probe_index(&oracle, 1, domain, 0, 0, 100_000),
        Err(RangeReductionError::ZeroUpperBound)
    );
}
