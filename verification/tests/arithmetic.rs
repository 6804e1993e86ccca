use gridstats::grid::floor_div;
use gridstats::grid::isqrt;
use gridstats::grid::round_div;
use gridstats::sums::times_parts;
use gridstats::sums::Quotient;

#[test]
fn floor_div_rounds_down() {
    assert_eq!(floor_div(7, 2), 3);
    assert_eq!(floor_div(-7, 2), -4);
    assert_eq!(floor_div(-8, 2), -4);
    assert_eq!(floor_div(-1, 1_000_000_000), -1);
    assert_eq!(floor_div(0, 5), 0);
    assert_eq!(floor_div(i128::MIN, 1), i128::MIN);
    assert_eq!(floor_div(i128::MIN, i128::MAX), -2);
    assert_eq!(floor_div(i128::MAX, i128::MAX), 1);
}

#[test]
fn isqrt_is_the_largest_root_below() {
    assert_eq!(isqrt(0), 0);
    assert_eq!(isqrt(1), 1);
    assert_eq!(isqrt(3), 1);
    assert_eq!(isqrt(4), 2);
    assert_eq!(isqrt(99), 9);
    assert_eq!(isqrt(100), 10);
    assert_eq!(isqrt(571_428_571_428_571_428), 755_928_946);
    assert_eq!(isqrt(u128::MAX), u64::MAX);
    let r = u64::MAX as u128;
    assert_eq!(isqrt(r * r), u64::MAX);
    assert_eq!(isqrt(r * r - 1), u64::MAX - 1);
}

#[test]
fn quotient_keeps_sums_beyond_the_machine_range() {
    let d = 1_000_000_007u128;
    let mut acc = Quotient::new();
    let w = 999_999_999u128;
    let t = u64::MAX as u128 * u64::MAX as u128;
    acc.add_product(d, w, t);
    // w * t = q * d + r, checked in two halves
    let hi = t / d;
    let lo = t % d;
    assert_eq!(acc.q, w * hi + (w * lo) / d);
    assert_eq!(acc.r, (w * lo) % d);
    acc.add_product(d, 1, d - acc.r);
    assert_eq!(acc.r, 0);
    assert_eq!(acc.q, w * hi + (w * lo) / d + 1);
}

#[test]
fn quotient_of_plain_terms() {
    let mut acc = Quotient::new();
    for t in [9u128, 1, 1, 1, 0, 0, 4, 16] {
        acc.add_product(56, 1, t);
    }
    assert_eq!((acc.q, acc.r), (0, 32));
    acc.add_product(56, 3, 8);
    assert_eq!((acc.q, acc.r), (1, 0));
}

#[test]
fn product_beyond_the_machine_range_is_divided() {
    assert_eq!(times_parts(7, 0, 3), (0, 0));
    assert_eq!(times_parts(7, 5, 3), (2, 1));
    assert_eq!(times_parts(1, u128::MAX, 0), (0, 0));
    let d = u128::MAX;
    assert_eq!(times_parts(d, u128::MAX, d - 1), (u128::MAX - 1, 0));
    let d = 1u128 << 100;
    assert_eq!(times_parts(d, 1 << 90, (1 << 99) + 5), (1 << 89, 5 << 90));
}

#[test]
fn quotient_takes_wide_products() {
    let d = (1u128 << 100) + 7;
    let mut acc = Quotient::new();
    acc.add_wide(d, 1 << 64, d * 3 + 5);
    assert_eq!((acc.q, acc.r), (3 << 64, 5 << 64));
    acc.add_wide(d, 2, (d - (5 << 64)) / 2 + 1);
    assert_eq!(acc.q, (3 << 64) + 1);
}

#[test]
fn round_div_rounds_to_the_nearest_and_ties_away_from_zero() {
    assert_eq!(round_div(7, 2), 4);
    assert_eq!(round_div(-7, 2), -4);
    assert_eq!(round_div(5, 3), 2);
    assert_eq!(round_div(-5, 3), -2);
    assert_eq!(round_div(4, 3), 1);
    assert_eq!(round_div(-4, 3), -1);
    assert_eq!(round_div(0, 9), 0);
}
