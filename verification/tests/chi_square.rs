use gridstats::chi2::chi2_df;
use gridstats::chi2::chi2_xq;
use gridstats::chi2::chi2pdf_df;
use gridstats::chi2::chi2pdf_xq;
use gridstats::chi2::QuantileError;
use gridstats::chi2::MAX_GROWTH;
use gridstats::grid::SCALE;
use gridstats::invert::InversionError;

/// A stand-in that shows which arguments it was called with.
fn echo(a: i64, x: i64) -> i64 {
    a * 1000 + x
}

/// A primitive that rises with its argument up to one unit.
fn ramp(_a: i64, x: i64) -> i64 {
    if x < 0 {
        0
    } else if x > SCALE {
        SCALE
    } else {
        x
    }
}

fn ln_gamma(x: f64) -> f64 {
    let cof = [
        76.18009172947146,
        -86.50532032941677,
        24.01409824083091,
        -1.231739572450155,
        0.1208650973866179e-2,
        -0.5395239384953e-5,
    ];
    let mut y = x;
    let tmp = x + 5.5 - (x + 0.5) * (x + 5.5).ln();
    let mut ser = 1.000000000190015;
    for c in cof {
        y += 1.0;
        ser += c / y;
    }
    -tmp + (2.5066282746310005 * ser / x).ln()
}

/// The regularized lower incomplete gamma function, by its series below
/// `a + 1` and by its continued fraction above.
fn gamma_p(a: f64, x: f64) -> f64 {
    if x <= 0.0 {
        return 0.0;
    }
    if x < a + 1.0 {
        let mut ap = a;
        let mut del = 1.0 / a;
        let mut sum = del;
        for _ in 0..1000 {
            ap += 1.0;
            del *= x / ap;
            sum += del;
            if del.abs() < sum.abs() * 1e-16 {
                break;
            }
        }
        sum * (-x + a * x.ln() - ln_gamma(a)).exp()
    } else {
        let tiny = 1e-300;
        let mut b = x + 1.0 - a;
        let mut c = 1.0 / tiny;
        let mut d = 1.0 / b;
        let mut h = d;
        for i in 1..1000 {
            let an = -(i as f64) * (i as f64 - a);
            b += 2.0;
            d = an * d + b;
            if d.abs() < tiny {
                d = tiny;
            }
            c = b + an / c;
            if c.abs() < tiny {
                c = tiny;
            }
            d = 1.0 / d;
            let del = d * c;
            h *= del;
            if (del - 1.0).abs() < 1e-16 {
                break;
            }
        }
        1.0 - (-x + a * x.ln() - ln_gamma(a)).exp() * h
    }
}

fn gamma_on_grid(a: i64, x: i64) -> i64 {
    (gamma_p(a as f64 / 1e9, x as f64 / 1e9) * 1e9).round() as i64
}

#[test]
fn limits_are_the_documented_ones() {
    assert_eq!(MAX_GROWTH, 1000);
}

#[test]
fn distribution_function_halves_both_arguments() {
    assert_eq!(chi2_df(&echo, 7, 4), 2_000_000_000_000 + 3);
    assert_eq!(chi2_df(&echo, 8, 1), 500_000_000_000 + 4);
    assert_eq!(chi2_df(&echo, -7, 3), 1_500_000_000_000 - 4);
}

#[test]
fn distribution_function_at_the_largest_degrees_of_freedom() {
    let seen = |a: i64, _x: i64| a;
    assert_eq!(chi2_df(&seen, 0, u32::MAX), 2_147_483_647_500_000_000);
}

#[test]
fn derived_value_scales_the_argument_by_the_shape() {
    // shape 2.0, argument 2.0 * 3.5
    assert_eq!(
        chi2pdf_df(&echo, 3_500_000_000, 4),
        2_000_000_000_000 + 7_000_000_000
    );
    // shape 0.5, argument 0.5 * 7 steps, rounded down
    assert_eq!(chi2pdf_df(&echo, 7, 1), 500_000_000_000 + 3);
    assert_eq!(chi2pdf_df(&echo, -7, 1), 500_000_000_000 - 4);
}

#[test]
fn distribution_function_is_zero_at_zero() {
    for k in [1u32, 2, 5, 10, 100] {
        assert_eq!(chi2_df(&gamma_on_grid, 0, k), 0);
    }
}

#[test]
fn distribution_function_never_falls() {
    for k in [1u32, 3, 5, 20] {
        let mut last = 0;
        let mut x = 0;
        while x <= 80 * SCALE {
            let v = chi2_df(&gamma_on_grid, x, k);
            assert!(v >= last, "k = {k}, x = {x}");
            assert!(0 <= v && v <= SCALE);
            last = v;
            x += SCALE / 4;
        }
    }
}

#[test]
fn distribution_function_tends_to_one() {
    for k in [1u32, 5, 20] {
        assert_eq!(chi2_df(&gamma_on_grid, 1000 * SCALE, k), SCALE);
    }
}

#[test]
fn distribution_function_at_ten_with_five_degrees() {
    let v = chi2_df(&gamma_on_grid, 10 * SCALE, 5);
    assert!((v - 924_764_754).abs() <= 2, "{v}");
}

#[test]
fn quantile_round_trip_at_ten_with_five_degrees() {
    let q = chi2_df(&gamma_on_grid, 10 * SCALE, 5);
    let x = chi2_xq(&gamma_on_grid, q, 5).unwrap();
    assert!((x - 10 * SCALE).abs() <= 100_000, "{x}");
}

#[test]
fn median_with_two_degrees_is_twice_the_logarithm_of_two() {
    let x = chi2_xq(&gamma_on_grid, SCALE / 2, 2).unwrap();
    assert!((x - 1_386_294_361).abs() <= 100, "{x}");
}

#[test]
fn quantile_of_a_ramp() {
    assert_eq!(chi2_xq(&ramp, SCALE / 4, 2), Ok(500_000_003));
    assert_eq!(chi2_xq(&ramp, SCALE / 4, 1), Ok(500_000_003));
}

#[test]
fn quantile_at_level_one_ends_at_the_upper_end_of_the_bracket() {
    assert_eq!(chi2_xq(&ramp, SCALE, 3), Ok(2_999_999_997));
}

#[test]
fn level_above_one_fails_the_bracket_search() {
    assert_eq!(
        chi2_xq(&ramp, SCALE + 1, 2),
        Err(QuantileError::BracketSearchFailed)
    );
}

#[test]
fn level_never_reached_fails_the_bracket_search() {
    let flat = |_a: i64, _x: i64| 0;
    assert_eq!(
        chi2_xq(&flat, 1, 5),
        Err(QuantileError::BracketSearchFailed)
    );
}

#[test]
fn bracket_search_stops_at_the_largest_grid_number() {
    let flat = |_a: i64, _x: i64| 0;
    assert_eq!(
        chi2_xq(&flat, 1, u32::MAX),
        Err(QuantileError::BracketSearchFailed)
    );
}

#[test]
fn most_degrees_of_freedom_have_a_bracket() {
    // the first upper end, 4 294 967 295 units, is a grid number
    assert_eq!(chi2_xq(&ramp, 0, u32::MAX), Ok(3));
    assert_eq!(chi2pdf_xq(&ramp, 0, u32::MAX), Ok(0));
}

#[test]
fn bracket_grows_until_the_level_is_reached() {
    // reaches the level only from 7.5 units on: the fourth upper end, 8
    let late = |_a: i64, x: i64| if x >= 3_750_000_000 { SCALE } else { 0 };
    let x = chi2_xq(&late, SCALE / 2, 2).unwrap();
    assert!((x - 7_500_000_000).abs() <= 10, "{x}");
}

#[test]
fn negative_level_is_a_domain_error() {
    assert_eq!(
        chi2_xq(&ramp, -1, 2),
        Err(QuantileError::Inversion(InversionError::Domain {
            y1: 0,
            y: -1,
            y2: SCALE
        }))
    );
}

#[test]
fn quantile_over_degrees_of_freedom() {
    assert_eq!(chi2pdf_xq(&ramp, SCALE / 4, 2), Ok(250_000_001));
    assert_eq!(chi2pdf_xq(&ramp, SCALE, 3), Ok(999_999_999));
    assert_eq!(
        chi2pdf_xq(&ramp, SCALE + 1, 2),
        Err(QuantileError::BracketSearchFailed)
    );
}

#[test]
fn quantile_over_degrees_of_freedom_with_the_gamma_function() {
    let q = chi2_df(&gamma_on_grid, 10 * SCALE, 5);
    let v = chi2pdf_xq(&gamma_on_grid, q, 5).unwrap();
    assert!((v - 2 * SCALE).abs() <= 20_000, "{v}");
}
