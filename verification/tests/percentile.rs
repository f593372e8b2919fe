use percentile_p95::{p95, p95_with_policy, Policy};

#[test]
fn empty_batch_is_absent() {
    assert_eq!(p95(Vec::new()), None);
    assert_eq!(p95_with_policy(Vec::new(), Policy::LinearInterpolation), None);
    assert_eq!(p95_with_policy(Vec::new(), Policy::NearestRankCeiling), None);
}

#[test]
fn all_null_batch_is_absent() {
    assert_eq!(p95(vec![None, None]), None);
    assert_eq!(p95_with_policy(vec![None, None], Policy::LinearInterpolation), None);
    assert_eq!(p95_with_policy(vec![None, None], Policy::NearestRankCeiling), None);
}

#[test]
fn singleton_is_the_value_itself() {
    assert_eq!(p95(vec![Some(10)]), Some(10));
    assert_eq!(p95_with_policy(vec![Some(10)], Policy::LinearInterpolation), Some(10));
    assert_eq!(p95_with_policy(vec![Some(10)], Policy::NearestRankCeiling), Some(10));
    assert_eq!(p95_with_policy(vec![Some(-7)], Policy::LinearInterpolation), Some(-7));
    assert_eq!(p95_with_policy(vec![Some(-7)], Policy::NearestRankCeiling), Some(-7));
}

#[test]
fn policies_diverge_on_ten_values() {
    // 1..=10: linear interpolation ranks at 0.95 * 9 = 8.55, so the result
    // interpolates 9 and 10 as 9.55 and truncates to 9; the nearest-rank
    // policy picks the order statistic at index 9, which is 10.
    let batch: Vec<Option<i64>> = (1..=10).map(Some).collect();
    assert_eq!(p95_with_policy(batch.clone(), Policy::LinearInterpolation), Some(9));
    assert_eq!(p95_with_policy(batch, Policy::NearestRankCeiling), Some(10));
}

#[test]
fn default_policy_is_linear_interpolation() {
    assert_eq!(Policy::default(), Policy::LinearInterpolation);
    let batch: Vec<Option<i64>> = (1..=10).map(Some).collect();
    assert_eq!(p95(batch.clone()), p95_with_policy(batch, Policy::default()));
}

#[test]
fn interpolation_truncates_toward_zero() {
    // Sorted sample -10..=-1: the interpolated value is -1.45, which
    // truncates toward zero to -1 (a round-to-nearest or a floor would give
    // -2 instead).
    let batch: Vec<Option<i64>> = (-10..=-1).map(Some).collect();
    assert_eq!(p95(batch), Some(-1));
}

#[test]
fn nulls_are_discarded() {
    // Working sample {3, 5, 7}: rank 0.95 * 2 = 1.9 interpolates 5 and 7 as
    // 6.8 and truncates to 6.
    let batch = vec![Some(5), None, Some(3), None, None, Some(7)];
    assert_eq!(p95(batch), Some(6));
    let batch = vec![None, Some(1), None, Some(2)];
    // Working sample {1, 2}: rank 0.95 interpolates 1 and 2 as 1.95.
    assert_eq!(p95(batch), Some(1));
}

#[test]
fn input_order_is_irrelevant() {
    let forward: Vec<Option<i64>> = (1..=10).map(Some).collect();
    let mut backward = forward.clone();
    backward.reverse();
    let mut interleaved = Vec::new();
    for v in &forward {
        interleaved.push(None);
        interleaved.push(*v);
    }
    assert_eq!(p95(forward.clone()), p95(backward));
    assert_eq!(p95(forward), p95(interleaved));
}

#[test]
fn result_stays_within_sample_range() {
    let batches: Vec<Vec<Option<i64>>> = vec![
        vec![Some(4), Some(4), Some(4)],
        vec![Some(-3), Some(12), Some(0), None],
        (1..=19).map(Some).collect(),
        (1..=20).map(Some).collect(),
        (1..=21).map(Some).collect(),
    ];
    for batch in batches {
        let sample: Vec<i64> = batch.iter().copied().flatten().collect();
        let min = *sample.iter().min().unwrap();
        let max = *sample.iter().max().unwrap();
        for policy in [Policy::LinearInterpolation, Policy::NearestRankCeiling] {
            let r = p95_with_policy(batch.clone(), policy).unwrap();
            assert!(min <= r && r <= max);
        }
    }
}

#[test]
fn exact_rank_needs_no_interpolation() {
    // n = 21 gives the exact rank 0.95 * 20 = 19: the order statistic at
    // index 19 is returned as is under linear interpolation.
    let batch: Vec<Option<i64>> = (1..=21).map(Some).collect();
    assert_eq!(p95_with_policy(batch, Policy::LinearInterpolation), Some(20));
}

#[test]
fn twenty_values_agree_across_policies() {
    // n = 20: linear interpolation ranks at 0.95 * 19 = 18.05 and truncates
    // 19.05 to 19; nearest rank picks index ceil(0.95 * 20) - 1 = 18.
    let batch: Vec<Option<i64>> = (1..=20).map(Some).collect();
    assert_eq!(p95_with_policy(batch.clone(), Policy::LinearInterpolation), Some(19));
    assert_eq!(p95_with_policy(batch, Policy::NearestRankCeiling), Some(19));
}

#[test]
fn larger_batches_interpolate_near_the_top() {
    // n = 22: rank 0.95 * 21 = 19.95 interpolates 20 and 21 as 20.95 and
    // truncates to 20; nearest rank picks index ceil(0.95 * 22) - 1 = 20.
    let batch: Vec<Option<i64>> = (1..=22).map(Some).collect();
    assert_eq!(p95_with_policy(batch.clone(), Policy::LinearInterpolation), Some(20));
    assert_eq!(p95_with_policy(batch, Policy::NearestRankCeiling), Some(21));
    // n = 100: rank 0.95 * 99 = 94.05 interpolates 95 and 96 as 95.05;
    // nearest rank picks index ceil(95) - 1 = 94.
    let batch: Vec<Option<i64>> = (1..=100).map(Some).collect();
    assert_eq!(p95_with_policy(batch.clone(), Policy::LinearInterpolation), Some(95));
    assert_eq!(p95_with_policy(batch, Policy::NearestRankCeiling), Some(95));
}

#[test]
fn raising_a_value_never_lowers_the_result() {
    let batch = vec![Some(5), None, Some(3), Some(7)];
    let raised = vec![Some(5), None, Some(100), Some(7)];
    for policy in [Policy::LinearInterpolation, Policy::NearestRankCeiling] {
        let before = p95_with_policy(batch.clone(), policy).unwrap();
        let after = p95_with_policy(raised.clone(), policy).unwrap();
        assert!(before <= after);
    }
    assert_eq!(p95(batch), Some(6));
    assert_eq!(p95(raised), Some(90));
}

#[test]
fn extreme_values_do_not_overflow() {
    assert_eq!(p95(vec![Some(i64::MAX), Some(i64::MAX)]), Some(i64::MAX));
    assert_eq!(p95(vec![Some(i64::MIN), Some(i64::MIN)]), Some(i64::MIN));
    // 0.05 * MIN + 0.95 * MAX, computed exactly and truncated toward zero.
    assert_eq!(p95(vec![Some(i64::MIN), Some(i64::MAX)]), Some(8301034833169298226));
    assert_eq!(
        p95_with_policy(vec![Some(i64::MIN), Some(i64::MAX)], Policy::NearestRankCeiling),
        Some(i64::MAX)
    );
}

#[test]
fn duplicates_are_retained() {
    // Sorted sample [2, 2, 2, 9]: rank 0.95 * 3 = 2.85 interpolates 2 and 9
    // as 2 * 0.15 + 9 * 0.85 = 7.95, truncated to 7.
    let batch = vec![Some(2), Some(9), Some(2), Some(2)];
    assert_eq!(p95(batch), Some(7));
}

#[test]
fn independent_calls_each_match_their_own_ground_truth() {
    // Many invocations on disjoint inputs, each checked independently
    // against the closed form for a two-value sample: 0.05 * a + 0.95 * b,
    // truncated toward zero.
    for k in 0..200i64 {
        let a = k * 7 - 300;
        let b = a + 20;
        let expected = {
            let exact_num = a + 19 * b; // 20 * (0.05 * a + 0.95 * b)
            if exact_num >= 0 { exact_num / 20 } else { -((-exact_num) / 20) }
        };
        assert_eq!(p95(vec![Some(a), None, Some(b)]), Some(expected));
    }
}
