use gridstats::cauchy_pdf;
use gridstats::grid::SCALE;
use gridstats::uniform_cdf;
use gridstats::uniform_pdf;
use gridstats::PI;

#[test]
fn uniform_cdf_halfway_is_one_half() {
    assert_eq!(uniform_cdf(5 * SCALE, 0, 10 * SCALE), 500_000_000);
}

#[test]
fn uniform_cdf_outside_the_interval() {
    assert_eq!(uniform_cdf(-1, 0, 10 * SCALE), 0);
    assert_eq!(uniform_cdf(0, 0, 10 * SCALE), 0);
    assert_eq!(uniform_cdf(10 * SCALE, 0, 10 * SCALE), SCALE);
    assert_eq!(uniform_cdf(11 * SCALE, 0, 10 * SCALE), SCALE);
    assert_eq!(uniform_cdf(i64::MAX, i64::MIN, i64::MAX), SCALE);
    assert_eq!(uniform_cdf(i64::MIN, i64::MIN, i64::MAX), 0);
}

#[test]
fn uniform_cdf_rounds_down() {
    assert_eq!(uniform_cdf(1, 0, 3), 333_333_333);
    assert_eq!(uniform_cdf(2, 0, 3), 666_666_666);
    assert_eq!(uniform_cdf(-1, -2, 1), 333_333_333);
}

#[test]
fn uniform_cdf_of_an_empty_or_reversed_interval() {
    assert_eq!(uniform_cdf(4, 5, 5), 0);
    assert_eq!(uniform_cdf(5, 5, 5), SCALE);
    assert_eq!(uniform_cdf(4, 5, 3), 0);
    assert_eq!(uniform_cdf(6, 5, 3), SCALE);
}

#[test]
fn uniform_cdf_over_the_whole_grid() {
    assert_eq!(uniform_cdf(-1, i64::MIN, i64::MAX), 499_999_999);
    assert_eq!(uniform_cdf(0, i64::MIN, i64::MAX), 500_000_000);
}

#[test]
fn uniform_pdf_is_one_over_the_width_inside() {
    assert_eq!(uniform_pdf(5 * SCALE, 0, 10 * SCALE), 100_000_000);
    assert_eq!(uniform_pdf(0, 0, 10 * SCALE), 100_000_000);
    assert_eq!(uniform_pdf(10 * SCALE, 0, 10 * SCALE), 100_000_000);
    assert_eq!(uniform_pdf(1, 0, 3 * SCALE), 333_333_333);
}

#[test]
fn uniform_pdf_is_zero_outside() {
    assert_eq!(uniform_pdf(-1, 0, 10 * SCALE), 0);
    assert_eq!(uniform_pdf(10 * SCALE + 1, 0, 10 * SCALE), 0);
}

#[test]
fn uniform_pdf_of_an_empty_or_reversed_interval() {
    assert_eq!(uniform_pdf(4, 5, 5), 0);
    assert_eq!(uniform_pdf(6, 5, 5), 0);
    assert_eq!(uniform_pdf(4, 5, 3), 0);
    assert_eq!(uniform_pdf(5, 5, 3), 0);
    assert_eq!(uniform_pdf(2, 5, 3), 0);
}

#[test]
fn uniform_pdf_of_the_narrowest_and_the_widest_interval() {
    assert_eq!(uniform_pdf(0, 0, 1), 1_000_000_000_000_000_000);
    assert_eq!(uniform_pdf(0, i64::MIN, i64::MAX), 0);
}

#[test]
fn cauchy_pdf_at_the_centre_is_one_over_pi_times_the_width() {
    assert_eq!(PI, 3_141_592_654);
    assert_eq!(cauchy_pdf(0, 0, SCALE), Some(318_309_886));
    assert_eq!(cauchy_pdf(7 * SCALE, 7 * SCALE, 2 * SCALE), Some(159_154_943));
    assert_eq!(cauchy_pdf(-SCALE, -SCALE, 3 * SCALE), Some(106_103_295));
    let third = (1.0 / (std::f64::consts::PI * 3.0) * 1e9) as i64;
    assert!((cauchy_pdf(0, 0, 3 * SCALE).unwrap() - third).abs() <= 1);
}

#[test]
fn cauchy_pdf_away_from_the_centre() {
    assert_eq!(cauchy_pdf(SCALE, 0, SCALE), Some(159_154_943));
    assert_eq!(cauchy_pdf(2 * SCALE, 0, SCALE), Some(63_661_977));
    assert_eq!(cauchy_pdf(-2 * SCALE, 0, SCALE), Some(63_661_977));
    assert_eq!(cauchy_pdf(5 * SCALE, -3 * SCALE, 2 * SCALE), Some(9_362_055));
}

#[test]
fn cauchy_pdf_of_the_narrowest_width() {
    assert_eq!(cauchy_pdf(0, 0, 1), Some(318_309_886_142_228_036));
    assert_eq!(cauchy_pdf(1, 0, 1), Some(159_154_943_071_114_018));
    assert_eq!(cauchy_pdf(3, 0, 2), Some(48_970_751_714_188_928));
}

#[test]
fn cauchy_pdf_needs_a_width_above_zero() {
    assert_eq!(cauchy_pdf(0, 0, 0), None);
    assert_eq!(cauchy_pdf(0, 0, -SCALE), None);
}

#[test]
fn cauchy_pdf_far_out_is_below_one_step() {
    assert_eq!(cauchy_pdf(1_000_000 * SCALE, 0, 1), Some(0));
    assert_eq!(cauchy_pdf(i64::MAX, i64::MIN, 1), Some(0));
    assert_eq!(cauchy_pdf(100_000 * SCALE, 0, SCALE), Some(0));
}

#[test]
fn cauchy_pdf_in_the_tail_of_a_narrow_peak() {
    // 96 100 widths out, where the density is still some 0.03 of a unit
    assert_eq!(cauchy_pdf(96_100, 0, 1), Some(34_466_989));
    assert_eq!(cauchy_pdf(-96_100, 0, 1), Some(34_466_989));
}

#[test]
fn cauchy_pdf_of_a_large_width() {
    assert_eq!(cauchy_pdf(0, 0, 3_000_000_000 * SCALE), Some(0));
    assert_eq!(cauchy_pdf(0, 0, i64::MAX), Some(0));
    assert_eq!(cauchy_pdf(0, 0, 318_309_886), Some(1_000_000_000));
    assert_eq!(cauchy_pdf(0, 0, 318_309_887), Some(999_999_997));
}

#[test]
fn cauchy_pdf_is_the_same_on_both_sides_and_largest_at_the_centre() {
    for gamma in [1, 2, SCALE, 7 * SCALE] {
        let peak = cauchy_pdf(5, 5, gamma).unwrap();
        for t in [1, 3, SCALE + 1, 3 * SCALE + 1, 1_000 * SCALE] {
            let right = cauchy_pdf(5 + t, 5, gamma).unwrap();
            assert_eq!(cauchy_pdf(5 - t, 5, gamma), Some(right));
            assert!(right <= peak);
        }
    }
}
