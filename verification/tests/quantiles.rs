use gridstats::grid::SCALE;
use gridstats::qtiles;
use gridstats::MAX_SAMPLE;

fn one_to_ten() -> Vec<i64> {
    (1..=10).map(|i| i * SCALE).collect()
}

#[test]
fn level_below_the_first_sample_has_no_estimate() {
    assert_eq!(qtiles(&one_to_ten(), 50_000_000), None);
}

#[test]
fn median_of_one_to_ten() {
    assert_eq!(
        qtiles(&one_to_ten(), 500_000_000),
        Some((5_500_000_000, 5_500_000_000))
    );
}

#[test]
fn estimates_at_several_levels() {
    let x = one_to_ten();
    assert_eq!(
        qtiles(&x, 100_000_000),
        Some((1_100_000_000, 9_900_000_000))
    );
    assert_eq!(
        qtiles(&x, 250_000_000),
        Some((2_750_000_000, 8_250_000_000))
    );
    assert_eq!(
        qtiles(&x, 900_000_000),
        Some((9_900_000_000, 1_100_000_000))
    );
}

#[test]
fn estimates_may_lie_beyond_the_pair() {
    let x = one_to_ten();
    assert_eq!(
        qtiles(&x, 590_000_000),
        Some((6_490_000_000, 4_510_000_000))
    );
    assert_eq!(
        qtiles(&x, 950_000_000),
        Some((10_450_000_000, 550_000_000))
    );
    assert_eq!(qtiles(&x, 999_999_999), Some((10_999_999_989, 11)));
}

#[test]
fn level_of_one_or_more_has_no_estimate() {
    let x = one_to_ten();
    assert_eq!(qtiles(&x, SCALE), None);
    assert_eq!(qtiles(&x, 3 * SCALE), None);
    assert_eq!(qtiles(&x, i64::MAX), None);
}

#[test]
fn negative_level_has_no_estimate() {
    let x = one_to_ten();
    assert_eq!(qtiles(&x, -1), None);
    assert_eq!(qtiles(&x, i64::MIN), None);
}

#[test]
fn short_samples_have_no_estimate() {
    assert_eq!(qtiles(&[], 500_000_000), None);
    assert_eq!(qtiles(&[SCALE], 500_000_000), None);
}

#[test]
fn two_samples_at_the_median() {
    assert_eq!(qtiles(&[10, 20], 500_000_000), Some((15, 15)));
}

#[test]
fn estimates_use_the_places_whatever_they_hold() {
    let x = [5 * SCALE, SCALE, 9 * SCALE, 3 * SCALE];
    assert_eq!(
        qtiles(&x, 500_000_000),
        Some((5_000_000_000, 5_000_000_000))
    );
}

#[test]
fn largest_samples_are_taken() {
    assert_eq!(MAX_SAMPLE, i64::MAX / 3);
    let x = [-MAX_SAMPLE, MAX_SAMPLE];
    assert_eq!(
        qtiles(&x, 999_999_999),
        Some((9_223_372_018_408_031_732, -9_223_372_018_408_031_732))
    );
}

#[test]
fn estimates_of_the_mirrored_sample_are_mirrored() {
    let x: Vec<i64> = vec![1_000_000_000, 2_500_000_000, 3_250_000_000, 7_000_000_000, 8_125_000_000];
    let y: Vec<i64> = x.iter().rev().map(|v| -v).collect();
    assert_eq!(qtiles(&x, 370_000_001), Some((2_830_000_009, 6_752_499_993)));
    assert_eq!(qtiles(&y, 370_000_001), Some((-6_752_499_993, -2_830_000_009)));
    assert_eq!(qtiles(&[0, 1], 500_000_000), Some((1, 1)));
    assert_eq!(qtiles(&[-1, 0], 500_000_000), Some((-1, -1)));
    let mut q = 1;
    while q < SCALE {
        let (a, b) = qtiles(&x, q).map_or((0, 0), |p| p);
        let (c, d) = qtiles(&y, q).map_or((0, 0), |p| p);
        assert_eq!((c, d), (-b, -a));
        q += 7_654_321;
    }
}
