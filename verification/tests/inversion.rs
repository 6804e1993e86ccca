use gridstats::grid::SCALE;
use gridstats::invert::fi1;
use gridstats::invert::InversionError;
use gridstats::invert::MAX_STEPS;
use gridstats::invert::TOLERANCE;

fn line(x: i64) -> i64 {
    3 * x + 1
}

fn square(x: i64) -> i64 {
    ((x as i128 * x as i128) / SCALE as i128) as i64
}

#[test]
fn constants_are_the_documented_ones() {
    assert_eq!(TOLERANCE, 10);
    assert_eq!(MAX_STEPS, 1000);
    assert_eq!(SCALE, 1_000_000_000);
}

#[test]
fn rising_line_is_inverted() {
    assert_eq!(fi1(line, 10, -5, 5), Ok(2));
}

#[test]
fn bracket_may_be_given_in_either_order() {
    assert_eq!(fi1(line, 10, 5, -5), Ok(2));
}

#[test]
fn falling_function_is_inverted() {
    let r = fi1(|x: i64| -2 * x, -3 * SCALE, 0, 10 * SCALE);
    assert_eq!(r, Ok(1_499_999_996));
}

#[test]
fn falling_function_round_trip_is_close() {
    let f = |x: i64| -2 * x;
    let y = -3 * SCALE;
    let x = fi1(f, y, 0, 10 * SCALE).unwrap();
    assert!((f(x) - y).abs() <= 1000);
}

#[test]
fn square_root_of_two_by_inversion() {
    let r = fi1(square, 2 * SCALE, 0, 10 * SCALE);
    assert_eq!(r, Ok(1_414_213_564));
    let x = r.unwrap();
    assert!((square(x) - 2 * SCALE).abs() <= 1000);
}

#[test]
fn round_trip_holds_over_a_range_of_targets() {
    let mut y = 0;
    while y <= 100 * SCALE {
        let x = fi1(square, y, 0, 10 * SCALE).unwrap();
        assert!((square(x) - y).abs() <= 1000, "target {y}");
        y += 7 * SCALE / 3;
    }
}

#[test]
fn target_above_the_values_is_a_domain_error() {
    assert_eq!(
        fi1(line, 100, -5, 5),
        Err(InversionError::Domain {
            y1: -14,
            y: 100,
            y2: 16
        })
    );
}

#[test]
fn target_below_the_values_is_a_domain_error() {
    assert_eq!(
        fi1(line, -100, 5, -5),
        Err(InversionError::Domain {
            y1: -14,
            y: -100,
            y2: 16
        })
    );
}

#[test]
fn target_at_either_end_value_is_accepted() {
    assert!(fi1(line, -14, -5, 5).is_ok());
    assert!(fi1(line, 16, -5, 5).is_ok());
}

#[test]
fn empty_bracket_returns_its_point() {
    assert_eq!(fi1(|x: i64| x, 7, 7, 7), Ok(7));
}

#[test]
fn widest_bracket_closes_within_the_step_budget() {
    assert_eq!(fi1(|x: i64| x, 12_345, i64::MIN, i64::MAX), Ok(12_347));
}

#[test]
fn jump_over_the_target_is_located() {
    let step = |x: i64| if x < 0 { 0 } else { SCALE };
    assert_eq!(fi1(step, SCALE / 2, -SCALE, SCALE), Ok(-4));
}

#[test]
fn no_input_ends_in_a_convergence_error() {
    let brackets = [(0, 1), (-SCALE, SCALE), (i64::MIN, i64::MAX), (i64::MAX, i64::MIN), (5, 5)];
    for (x1, x2) in brackets {
        for y in [i64::MIN, -1, 0, 1, i64::MAX] {
            let r = fi1(|x: i64| x, y, x1, x2);
            assert!(!matches!(r, Err(InversionError::Convergence { .. })));
        }
    }
}
