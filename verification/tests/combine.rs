use gridstats::grid::SCALE;
use gridstats::steb::steb0;
use gridstats::steb::steb1;
use gridstats::steb::steb2;
use gridstats::steb::PreconditionError;

fn units(values: &[f64]) -> Vec<i64> {
    values.iter().map(|v| (v * 1e9).round() as i64).collect()
}

#[test]
fn plain_mean_and_error_of_the_literal_sample() {
    let data = units(&[2.0, 4.0, 4.0, 4.0, 5.0, 5.0, 7.0, 9.0]);
    assert_eq!(steb0(&data), Ok((5_000_000_000, 755_928_946)));
}

#[test]
fn plain_error_matches_the_variance_formula() {
    let data = units(&[2.0, 4.0, 4.0, 4.0, 5.0, 5.0, 7.0, 9.0]);
    let (mean, error) = steb0(&data).unwrap();
    let variance = 32.0 / 7.0;
    assert!((mean as f64 / 1e9 - 5.0).abs() < 1e-9);
    assert!((error as f64 / 1e9 - (variance / 8.0f64).sqrt()).abs() < 1e-8);
    assert!((error as f64 / 1e9 - 0.755929).abs() < 1e-6);
}

#[test]
fn plain_mean_rounds_to_the_nearest_step() {
    assert_eq!(steb0(&[-3, -2, 0]), Ok((-2, 0)));
    assert_eq!(steb0(&[1, 2]), Ok((2, 0)));
    assert_eq!(steb0(&[-2, -1]), Ok((-2, 0)));
    assert_eq!(steb0(&[1, 2, 3]), Ok((2, 0)));
}

#[test]
fn plain_needs_two_samples() {
    assert_eq!(steb0(&[]), Err(PreconditionError::TooFewSamples));
    assert_eq!(steb0(&[5 * SCALE]), Err(PreconditionError::TooFewSamples));
}

#[test]
fn plain_takes_the_extremes_of_the_grid() {
    let (mean, error) = steb0(&[i64::MIN, i64::MAX]).unwrap();
    assert_eq!(mean, -1);
    assert_eq!(error, 9_223_372_036_854_775_807);
}

#[test]
fn weighted_mean_error_and_normalized_weights() {
    let data = units(&[1.0, 2.0, 4.0]);
    let mut w = units(&[1.0, 1.0, 2.0]);
    assert_eq!(steb1(&data, &mut w), Ok((2_750_000_000, 918_558_653)));
    assert_eq!(w, vec![250_000_000, 250_000_000, 500_000_000]);
}

#[test]
fn weighted_with_weights_that_do_not_divide_evenly() {
    let data = units(&[10.5, -3.25, 7.0]);
    let mut w = vec![3, 1, 3];
    assert_eq!(steb1(&data, &mut w), Ok((7_035_714_286, 3_182_581_739)));
    assert_eq!(w, vec![428_571_429, 142_857_143, 428_571_428]);
}

#[test]
fn weights_sum_to_one_after_normalizing() {
    let data = units(&[1.0, 2.0, 3.0]);
    let mut w = vec![1, 1, 1];
    assert_eq!(steb1(&data, &mut w), Ok((2_000_000_000, 577_350_269)));
    assert_eq!(w, vec![333_333_334, 333_333_333, 333_333_333]);
    let total: i64 = w.iter().sum();
    assert_eq!(total, SCALE);
}

#[test]
fn weights_sum_to_one_for_many_weights() {
    let n = 1000;
    let data: Vec<i64> = (0..n).map(|i| i * SCALE).collect();
    let mut w: Vec<i64> = (0..n).map(|i| 1 + (i * 7919) % 1013).collect();
    let handed_in = w.clone();
    assert!(steb1(&data, &mut w).is_ok());
    let total: i64 = w.iter().sum();
    assert_eq!(total, SCALE);
    let sum: i128 = handed_in.iter().map(|v| *v as i128).sum();
    for (v, raw) in w.iter().zip(handed_in.iter()) {
        // within one step of the share
        let share = *raw as i128 * SCALE as i128;
        assert!((*v as i128 - 1) * sum < share && share < (*v as i128 + 1) * sum);
    }
}

#[test]
fn weighted_refuses_buffers_of_different_length() {
    let mut w = vec![1, 2];
    assert_eq!(
        steb1(&[1, 2, 3], &mut w),
        Err(PreconditionError::LengthMismatch)
    );
    assert_eq!(w, vec![1, 2]);
}

#[test]
fn weighted_needs_two_samples() {
    let mut w = vec![1];
    assert_eq!(steb1(&[7], &mut w), Err(PreconditionError::TooFewSamples));
    assert_eq!(w, vec![1]);
    let mut none: Vec<i64> = vec![];
    assert_eq!(steb1(&[], &mut none), Err(PreconditionError::TooFewSamples));
}

#[test]
fn weighted_refuses_a_negative_weight() {
    let mut w = vec![3, -1, 2];
    assert_eq!(
        steb1(&[1, 2, 3], &mut w),
        Err(PreconditionError::InvalidWeights)
    );
    assert_eq!(w, vec![3, -1, 2]);
}

#[test]
fn weighted_refuses_weights_that_sum_to_zero() {
    let mut w = vec![0, 0, 0];
    assert_eq!(
        steb1(&[1, 2, 3], &mut w),
        Err(PreconditionError::InvalidWeights)
    );
    assert_eq!(w, vec![0, 0, 0]);
}

#[test]
fn weighted_takes_samples_far_apart() {
    let data = vec![i64::MIN, i64::MAX, 0];
    let mut w = vec![1, 1, 2];
    let (mean, error) = steb1(&data, &mut w).unwrap();
    assert_eq!(w, vec![250_000_000, 250_000_000, 500_000_000]);
    assert_eq!(mean, 0);
    assert_eq!(error, 4_611_686_018_427_387_903);
}

#[test]
fn weights_are_derived_from_error_bars_on_a_negative_first_weight() {
    let data = units(&[10.0, 20.0]);
    let eb = vec![1_000_000_000u64, 2_000_000_000u64];
    let mut w = vec![-1, 0];
    assert_eq!(steb2(&data, &eb, &mut w), Ok((12_000_000_000, 894_427_190)));
    assert_eq!(w, vec![800_000_000, 200_000_000]);
}

#[test]
fn derived_weights_of_three_error_bars() {
    let data = units(&[1.5, 2.5, 2.0]);
    let eb = vec![100_000_000u64, 200_000_000u64, 400_000_000u64];
    let mut w = vec![-5, 7, 7];
    assert_eq!(steb2(&data, &eb, &mut w), Ok((1_714_285_714, 87_287_156)));
    assert_eq!(w, vec![761_904_762, 190_476_191, 47_619_047]);
}

#[test]
fn supplied_weights_are_kept_and_normalized() {
    let data = units(&[10.0, 20.0, 30.0]);
    let eb = vec![1_000_000_000u64, 2_000_000_000u64, 500_000_000u64];
    let mut w = units(&[1.0, 2.0, 1.0]);
    assert_eq!(
        steb2(&data, &eb, &mut w),
        Ok((20_000_000_000, 1_038_327_982))
    );
    assert_eq!(w, vec![250_000_000, 500_000_000, 250_000_000]);
}

#[test]
fn supplied_weights_admit_an_error_bar_of_zero() {
    let data = units(&[10.0, 20.0]);
    let eb = vec![0u64, 2_000_000_000u64];
    let mut w = vec![1, 1];
    assert_eq!(steb2(&data, &eb, &mut w), Ok((15_000_000_000, 1_000_000_000)));
}

#[test]
fn single_sample_with_error_bar_is_combined() {
    let mut w = vec![-1];
    assert_eq!(
        steb2(&[3 * SCALE], &[500_000_000u64], &mut w),
        Ok((3_000_000_000, 500_000_000))
    );
    assert_eq!(w, vec![SCALE]);
}

#[test]
fn derived_weights_need_error_bars_above_zero() {
    let mut w = vec![-1, 5];
    assert_eq!(
        steb2(&[1, 2], &[SCALE as u64, 0], &mut w),
        Err(PreconditionError::InvalidErrorBars)
    );
    assert_eq!(w, vec![-1, 5]);
}

#[test]
fn large_error_bars_are_combined() {
    let data = units(&[10.0, 20.0]);
    let eb = vec![50_000 * SCALE as u64, 60_000 * SCALE as u64];
    let mut w = vec![-1, 0];
    assert_eq!(
        steb2(&data, &eb, &mut w),
        Ok((14_098_360_656, 38_411_063_979_868))
    );
    assert_eq!(w, vec![590_163_935, 409_836_065]);
}

#[test]
fn small_error_bars_are_combined() {
    let data = units(&[10.0, 20.0]);
    let mut w = vec![-1, 0];
    assert_eq!(steb2(&data, &[3, 1], &mut w), Ok((19_000_000_000, 0)));
    assert_eq!(w, vec![100_000_000, 900_000_000]);
    // error bars of 3 and 4 steps: 1 / sqrt(1/9 + 1/16) is 2.4 steps
    let mut w = vec![-1, 0];
    assert_eq!(steb2(&data, &[3, 4], &mut w), Ok((13_600_000_000, 2)));
    assert_eq!(w, vec![640_000_000, 360_000_000]);
}

#[test]
fn error_bars_of_any_size_give_weights() {
    let mut w = vec![-1, 0];
    let wide = 40_000 * SCALE as u64;
    assert_eq!(
        steb2(&[1, 2], &[wide, wide], &mut w),
        Ok((2, 28_284_271_247_461))
    );
    assert_eq!(w, vec![500_000_000, 500_000_000]);
    let mut w = vec![-1, 0];
    let data = units(&[1.0, 2.0]);
    assert_eq!(steb2(&data, &[1, u64::MAX], &mut w), Ok((1_000_000_000, 1)));
    assert_eq!(w, vec![SCALE, 0]);
}

#[test]
fn combined_error_is_at_most_the_smallest_error_bar() {
    let data = units(&[1.0, 2.0]);
    let eb = vec![50_000 * SCALE as u64, SCALE as u64];
    let mut w = vec![-1, 0];
    assert_eq!(
        steb2(&data, &eb, &mut w),
        Ok((2_000_000_000, 999_999_999))
    );
    assert_eq!(w, vec![1, 999_999_999]);
    for bars in [vec![7u64, 7, 7], vec![1_000, 2_000, 3_000], vec![5, 1 << 40, 9]] {
        let mut w = vec![-1; 3];
        let (_, error) = steb2(&[1, 2, 3], &bars, &mut w).unwrap();
        assert!(error <= *bars.iter().min().unwrap());
        assert_eq!(w.iter().sum::<i64>(), SCALE);
    }
}

#[test]
fn equal_weights_give_the_plain_mean_and_error() {
    let samples = [
        vec![1, 2, 3],
        vec![0, 1],
        vec![-7, 3, 11, 12],
        units(&[1.0, 2.0, 3.0]),
        vec![7_000_000_000_000_000_000, 0, 0, 0, 0, 0, 0],
        vec![i64::MIN, i64::MAX, -5],
    ];
    for data in samples {
        for c in [1i64, 3, 1_000_000_007, i64::MAX] {
            let mut w = vec![c; data.len()];
            assert_eq!(steb1(&data, &mut w), steb0(&data));
            assert_eq!(w.iter().sum::<i64>(), SCALE);
        }
    }
}

#[test]
fn shifting_the_sample_shifts_the_mean_and_keeps_the_error() {
    let data = units(&[2.0, 4.0, 4.0, 4.0, 5.0, 5.0, 7.0, 9.0]);
    let (m, e) = steb0(&data).unwrap();
    for c in [1i64, -1, 123_456_789_012, -5 * SCALE] {
        let shifted: Vec<i64> = data.iter().map(|v| v + c).collect();
        assert_eq!(steb0(&shifted), Ok((m + c, e)));
    }
}

#[test]
fn scaling_the_sample_scales_mean_and_error_up_to_rounding() {
    let data = vec![3, 10, -4, 7, 7, 1];
    let (m, e) = steb0(&data).unwrap();
    for s in [2i64, 3, 10, 1_000_000] {
        let scaled: Vec<i64> = data.iter().map(|v| v * s).collect();
        let (m2, e2) = steb0(&scaled).unwrap();
        assert!((m2 - s * m).abs() <= s);
        assert!((e2 as i64 - s * e as i64).abs() <= s);
    }
}

#[test]
fn combined_refuses_buffers_of_different_length() {
    let mut w = vec![1, 1];
    assert_eq!(
        steb2(&[1, 2], &[1], &mut w),
        Err(PreconditionError::LengthMismatch)
    );
    let mut short = vec![1];
    assert_eq!(
        steb2(&[1, 2], &[1, 1], &mut short),
        Err(PreconditionError::LengthMismatch)
    );
    assert_eq!(short, vec![1]);
}

#[test]
fn combined_refuses_an_empty_sample() {
    let mut w: Vec<i64> = vec![];
    assert_eq!(
        steb2(&[], &[], &mut w),
        Err(PreconditionError::TooFewSamples)
    );
}

#[test]
fn combined_refuses_invalid_supplied_weights() {
    let mut w = vec![1, -1];
    assert_eq!(
        steb2(&[1, 2], &[1, 1], &mut w),
        Err(PreconditionError::InvalidWeights)
    );
    assert_eq!(w, vec![1, -1]);
    let mut zero = vec![0, 0];
    assert_eq!(
        steb2(&[1, 2], &[1, 1], &mut zero),
        Err(PreconditionError::InvalidWeights)
    );
}

#[test]
fn negating_the_sample_negates_the_mean_and_keeps_the_error() {
    for data in [vec![3, 10, -4, 7, 7, 1], vec![0, 1], vec![-1, 0], vec![5, 5, 6]] {
        let negated: Vec<i64> = data.iter().map(|v| -v).collect();
        let (m, e) = steb0(&data).unwrap();
        assert_eq!(steb0(&negated), Ok((-m, e)));
    }
}

#[test]
fn error_is_taken_from_the_exact_mean() {
    // mean 0.5 steps, distances of half a step: the error is half a step
    assert_eq!(steb0(&[0, 1]), Ok((1, 0)));
    assert_eq!(steb0(&[0, 2]), Ok((1, 1)));
    assert_eq!(steb0(&[0, 3]), Ok((2, 1)));
    assert_eq!(steb0(&[0, 4]), Ok((2, 2)));
    // shifting by a step changes neither
    assert_eq!(steb0(&[7, 10]), Ok((9, 1)));
    assert_eq!(steb0(&[8, 11]), Ok((10, 1)));
}

#[test]
fn weighted_mean_lies_between_the_samples() {
    let data = vec![-5, 7, 3, 100];
    for weights in [vec![1, 0, 0, 0], vec![0, 0, 0, 9], vec![3, 1, 4, 1], vec![i64::MAX; 4]] {
        let mut w = weights.clone();
        let (m, _) = steb1(&data, &mut w).unwrap();
        assert!(-5 <= m && m <= 100);
    }
}

#[test]
fn small_weight_on_a_far_sample_counts_for_its_share() {
    // one part in 10^12 on a sample 1000 units off
    let data = units(&[1000.0, 0.0]);
    let mut w = vec![1, 1_000_000_000_000];
    assert_eq!(steb1(&data, &mut w), Ok((1, 999_999)));
    assert_eq!(w, vec![1, 999_999_999]);
}

#[test]
fn combined_error_of_the_largest_error_bars() {
    let mut w = vec![i64::MAX, i64::MAX];
    assert_eq!(
        steb2(&[1, 2], &[u64::MAX, u64::MAX], &mut w),
        Ok((2, 13_043_817_825_332_782_211))
    );
}
