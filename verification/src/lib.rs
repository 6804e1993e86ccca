//! A small statistics toolkit on a decimal grid.
//!
//! Every quantity is a *grid number*: an integer that counts steps of
//! `1 / SCALE` of a unit, so that `1_500_000_000` stands for one and a half.
//! All arithmetic is integer arithmetic. A result is computed from what was
//! handed in, without a rounded value in between where that can be had, and
//! rounded once: means and quantile estimates to the nearest grid number,
//! errors and densities down. Each result is fixed by its contract down to
//! the last step.
//!
//! The parts: `invert` finds where a monotone function takes a value,
//! `chi2` builds the chi-square distribution and its quantiles on that,
//! `steb` combines samples into a mean with its error, and this module holds
//! sample quantiles and two distributions in closed form.
use crate::grid::lemma_rounded_bounds;
use crate::grid::lemma_rounded_mirror;
use crate::grid::round_div;
use crate::grid::rounded;
use crate::grid::SCALE;
use crate::sums::times_parts;
use vstd::prelude::*;

pub mod chi2;
pub mod grid;
pub mod invert;
pub mod steb;
pub mod sums;

verus! {

/// Largest magnitude of samples for which every quantile estimate is a grid
/// number: three times it still is one, which leaves room for an estimate
/// that lies beyond the two samples it is made of.
pub const MAX_SAMPLE: i64 = 3_074_457_345_618_258_602;

/// The circle constant, rounded to the grid.
pub const PI: i64 = 3_141_592_654;

/// `v` is a grid number.
pub open spec fn fits(v: int) -> bool {
    i64::MIN <= v <= i64::MAX
}

/// The number of samples at or below the level `q` among `n`: `q * n`
/// rounded down, and zero for a negative level.
pub open spec fn rank(q: i64, n: int) -> int {
    if q < 0 {
        0
    } else {
        (q * n) / (SCALE as int)
    }
}

/// The mean of `a` and `b` with the weights `SCALE - w` and `w`, rounded
/// to the nearest grid number, a tie away from zero.
pub open spec fn blend(w: int, a: int, b: int) -> int {
    rounded((SCALE - w) * a + w * b, SCALE as int)
}

/// The blend of two negated samples is the negated blend.
pub proof fn lemma_blend_mirror(w: int, a: int, b: int)
    ensures
        blend(w, -a, -b) == -blend(w, a, b),
{
    assert((SCALE - w) * (-a) + w * (-b) == -((SCALE - w) * a + w * b)) by (nonlinear_arith);
    lemma_rounded_mirror((SCALE - w) * a + w * b, SCALE as int);
}

/// The quantile at level `q` of a sample in ascending order, estimated from
/// its lower and from its upper end.
///
/// With `nq = rank(q, n)` samples at or below the level, the lower estimate
/// blends the samples at `nq - 1` and `nq`, and the upper one those at
/// `n - nq` and `n - nq - 1`, with the weight `q * (n + 1) - nq` on the
/// second of each pair. Where `nq` is zero or not below `n` the level is out
/// of reach of the sample and there is no estimate.
pub open spec fn estimates(x: Seq<i64>, q: i64) -> Option<(int, int)> {
    let n = x.len() as int;
    let nq = rank(q, n);
    if nq == 0 || nq >= n {
        None
    } else {
        let w = q * (n + 1) - nq * SCALE;
        Some(
            (
                blend(w, x[nq - 1] as int, x[nq] as int),
                blend(w, x[n - nq] as int, x[n - nq - 1] as int),
            ),
        )
    }
}

/// Both estimates, where there are any, are grid numbers.
pub open spec fn estimates_fit(x: Seq<i64>, q: i64) -> bool {
    estimates(x, q) matches Some((lower, upper)) ==> fits(lower) && fits(upper)
}

/// The weight on the second sample of each pair is at least zero and below
/// two units.
proof fn lemma_weight_bounds(q: i64, n: int)
    requires
        0 < rank(q, n) < n,
    ensures
        0 <= q * (n + 1) - rank(q, n) * SCALE < 2 * SCALE,
        q * (n + 1) == q * n + q,
{
    let nq = rank(q, n);
    vstd::arithmetic::div_mod::lemma_fundamental_div_mod(q * n, SCALE as int);
    let t = q * n;
    assert(t < 1_000_000_000 * n);
    assert(q < 1_000_000_000) by (nonlinear_arith)
        requires
            t == q * n,
            t < 1_000_000_000 * n,
            0 < n,
    ;
    assert(q * (n + 1) == q * n + q) by (nonlinear_arith);
}

/// A blend of two samples within `MAX_SAMPLE` is a grid number.
proof fn lemma_blend_fits(w: int, a: int, b: int)
    requires
        0 <= w < 2 * SCALE,
        -MAX_SAMPLE <= a <= MAX_SAMPLE,
        -MAX_SAMPLE <= b <= MAX_SAMPLE,
    ensures
        fits(blend(w, a, b)),
{
    let s = (SCALE - w) * a + w * b;
    assert(-3 * MAX_SAMPLE * SCALE <= s <= 3 * MAX_SAMPLE * SCALE) by (nonlinear_arith)
        requires
            s == (SCALE - w) * a + w * b,
            0 <= w < 2 * SCALE,
            -MAX_SAMPLE <= a <= MAX_SAMPLE,
            -MAX_SAMPLE <= b <= MAX_SAMPLE,
            SCALE == 1_000_000_000,
            MAX_SAMPLE == 3_074_457_345_618_258_602,
    ;
    assert((-3 * MAX_SAMPLE) * SCALE == -3 * MAX_SAMPLE * SCALE && (3 * MAX_SAMPLE) * SCALE == 3
        * MAX_SAMPLE * SCALE) by (nonlinear_arith);
    lemma_rounded_bounds(s, SCALE as int, -3 * MAX_SAMPLE, 3 * MAX_SAMPLE);
}

/// The estimates of samples within `MAX_SAMPLE` are grid numbers.
pub proof fn lemma_estimates_fit(x: Seq<i64>, q: i64)
    requires
        forall|i: int| 0 <= i < x.len() ==> -MAX_SAMPLE <= #[trigger] x[i] <= MAX_SAMPLE,
    ensures
        estimates_fit(x, q),
{
    let n = x.len() as int;
    let nq = rank(q, n);
    if 0 < nq < n {
        lemma_weight_bounds(q, n);
        let w = q * (n + 1) - nq * SCALE;
        lemma_blend_fits(w, x[nq - 1] as int, x[nq] as int);
        lemma_blend_fits(w, x[n - nq] as int, x[n - nq - 1] as int);
    }
}

/// The two estimates are mirror images of each other: for the sample
/// negated and put in reverse, the lower estimate is the negated upper
/// estimate of the sample, and the upper the negated lower.
pub proof fn lemma_estimates_mirror(x: Seq<i64>, y: Seq<i64>, q: i64)
    requires
        y.len() == x.len(),
        forall|i: int| 0 <= i < x.len() ==> #[trigger] y[i] == -x[x.len() - 1 - i],
    ensures
        estimates(y, q) == match estimates(x, q) {
            Some((lower, upper)) => Some((-upper, -lower)),
            None => None,
        },
{
    let n = x.len() as int;
    let nq = rank(q, n);
    if 0 < nq < n {
        let w = q * (n + 1) - nq * SCALE;
        assert(y[nq - 1] == -x[n - nq]);
        assert(y[nq] == -x[n - nq - 1]);
        assert(y[n - nq] == -x[nq - 1]);
        assert(y[n - nq - 1] == -x[nq]);
        lemma_blend_mirror(w, x[n - nq] as int, x[n - nq - 1] as int);
        lemma_blend_mirror(w, x[nq - 1] as int, x[nq] as int);
    }
}

/// What `qtiles` returns.
pub open spec fn qtiles_spec(x: Seq<i64>, q: i64) -> Option<(i64, i64)> {
    match estimates(x, q) {
        Some((lower, upper)) => Some((lower as i64, upper as i64)),
        None => None,
    }
}

fn blend_of(w: i128, a: i64, b: i64) -> (r: i64)
    requires
        0 <= w < 2 * SCALE,
        fits(blend(w as int, a as int, b as int)),
    ensures
        r == blend(w as int, a as int, b as int),
{
    let u: i128 = SCALE as i128 - w;
    assert(-1_000_000_000 * 0x8000_0000_0000_0000 <= u * a <= 1_000_000_000
        * 0x8000_0000_0000_0000) by (nonlinear_arith)
        requires
            -1_000_000_000 <= u <= 1_000_000_000,
            -0x8000_0000_0000_0000 <= a <= 0x8000_0000_0000_0000,
    ;
    assert(-2_000_000_000 * 0x8000_0000_0000_0000 <= w * b <= 2_000_000_000
        * 0x8000_0000_0000_0000) by (nonlinear_arith)
        requires
            0 <= w <= 2_000_000_000,
            -0x8000_0000_0000_0000 <= b <= 0x8000_0000_0000_0000,
    ;
    let s: i128 = u * (a as i128) + w * (b as i128);
    let r: i128 = round_div(s, SCALE as i128);
    r as i64
}

/// The quantile at level `q` of a sample in ascending order: the pair of
/// `estimates`, or nothing where the level is out of reach of the sample.
///
/// The order of the sample is the caller's to keep: the estimates are made
/// of the samples at their places, whatever they hold. The estimates have to
/// be grid numbers, which they are for samples within `MAX_SAMPLE`.
pub fn qtiles(x: &[i64], q: i64) -> (r: Option<(i64, i64)>)
    requires
        estimates_fit(x@, q),
    ensures
        r == qtiles_spec(x@, q),
        r is None <==> estimates(x@, q) is None,
        r matches Some((lower, upper)) ==> estimates(x@, q) == Some((lower as int, upper as int)),
{
    let n: usize = x.len();
    if q < 0 {
        return None;
    }
    assert(0 <= q * n <= 0x7fff_ffff_ffff_ffff * 0xffff_ffff_ffff_ffff) by (nonlinear_arith)
        requires
            0 <= q <= 0x7fff_ffff_ffff_ffff,
            0 <= n <= 0xffff_ffff_ffff_ffff,
    ;
    let qn: i128 = (q as i128) * (n as i128);
    let places: i128 = qn / (SCALE as i128);
    if places == 0 || places >= n as i128 {
        return None;
    }
    let nq: usize = places as usize;
    proof {
        lemma_weight_bounds(q, n as int);
    }
    let w: i128 = qn + (q as i128) - places * (SCALE as i128);
    let lower: i64 = blend_of(w, x[nq - 1], x[nq]);
    let upper: i64 = blend_of(w, x[n - nq], x[n - nq - 1]);
    Some((lower, upper))
}

/// What `uniform_pdf` returns.
pub open spec fn uniform_pdf_spec(x: i64, x0: i64, x1: i64) -> int {
    if x0 <= x <= x1 {
        (SCALE * SCALE) / (x1 - x0)
    } else {
        0
    }
}

/// The density at `x` of the uniform distribution over `[x0, x1]`: one over
/// the width inside the interval, zero outside. An interval that is the
/// single point `x` has no density there.
pub fn uniform_pdf(x: i64, x0: i64, x1: i64) -> (r: i64)
    requires
        !(x0 == x && x == x1),
    ensures
        r == uniform_pdf_spec(x, x0, x1),
{
    if x >= x0 && x <= x1 {
        let width: i128 = x1 as i128 - x0 as i128;
        let r: i128 = 1_000_000_000_000_000_000i128 / width;
        assert(SCALE * SCALE == 1_000_000_000_000_000_000) by (nonlinear_arith)
            requires
                SCALE == 1_000_000_000,
        ;
        proof {
            vstd::arithmetic::div_mod::lemma_div_is_ordered_by_denominator(
                1_000_000_000_000_000_000,
                1,
                width as int,
            );
            vstd::arithmetic::div_mod::lemma_div_pos_is_pos(
                1_000_000_000_000_000_000,
                width as int,
            );
        }
        r as i64
    } else {
        0
    }
}

/// What `uniform_cdf` returns.
pub open spec fn uniform_cdf_spec(x: i64, x0: i64, x1: i64) -> int {
    if x < x0 {
        0
    } else if x < x1 {
        ((x - x0) * SCALE) / (x1 - x0)
    } else {
        SCALE as int
    }
}

/// The distribution function at `x` of the uniform distribution over
/// `[x0, x1]`: zero below the interval, one above it, and the share of the
/// width that lies below `x` inside.
pub fn uniform_cdf(x: i64, x0: i64, x1: i64) -> (r: i64)
    ensures
        r == uniform_cdf_spec(x, x0, x1),
        0 <= r <= SCALE,
{
    if x < x0 {
        0
    } else if x < x1 {
        let part: i128 = x as i128 - x0 as i128;
        let width: i128 = x1 as i128 - x0 as i128;
        assert(0 <= part * SCALE <= 0xffff_ffff_ffff_ffff * 1_000_000_000) by (nonlinear_arith)
            requires
                0 <= part <= 0xffff_ffff_ffff_ffff,
                SCALE == 1_000_000_000,
        ;
        let r: i128 = part * (SCALE as i128) / width;
        proof {
            vstd::arithmetic::div_mod::lemma_fundamental_div_mod(
                (part * SCALE) as int,
                width as int,
            );
            assert(0 <= r < SCALE) by (nonlinear_arith)
                requires
                    part * SCALE == width * r + ((part * SCALE) as int % width as int),
                    0 <= ((part * SCALE) as int % width as int) < width,
                    0 <= part < width,
                    SCALE == 1_000_000_000,
            ;
        }
        r as i64
    } else {
        SCALE
    }
}

/// The density of the Cauchy distribution at its peak: one over `PI` times
/// the width `gamma`, rounded down to the grid.
pub open spec fn cauchy_peak(gamma: i64) -> int {
    (SCALE * SCALE * SCALE) / (PI * gamma)
}

/// The distance of `x` from the centre `x0`.
pub open spec fn cauchy_distance(x: i64, x0: i64) -> int {
    if x >= x0 {
        x - x0
    } else {
        x0 - x
    }
}

/// The density at the distance `d` from the centre:
/// `1 / (PI * gamma * (1 + (d / gamma)^2))`, which is
/// `gamma / (PI * (gamma^2 + d^2))`, rounded down to the grid once.
pub open spec fn cauchy_density(d: int, gamma: i64) -> int {
    (SCALE * SCALE * SCALE * gamma) / (PI * (gamma * gamma + d * d))
}

/// What `cauchy_pdf` returns: the density for every width above zero, and
/// nothing for a width that is not.
pub open spec fn cauchy_pdf_spec(x: i64, x0: i64, gamma: i64) -> Option<i64> {
    if gamma <= 0 {
        None
    } else {
        Some(cauchy_density(cauchy_distance(x, x0), gamma) as i64)
    }
}

/// The density at `x` of the Cauchy distribution around `x0` with the width
/// `gamma`.
///
/// Every width above zero has a density, which is below one grid step and
/// so zero far out or for a large width. A width that is not above zero has
/// none.
pub fn cauchy_pdf(x: i64, x0: i64, gamma: i64) -> (r: Option<i64>)
    ensures
        r == cauchy_pdf_spec(x, x0, gamma),
        gamma > 0 ==> r == Some(cauchy_density(cauchy_distance(x, x0), gamma) as i64) && 0
            <= cauchy_density(cauchy_distance(x, x0), gamma) <= cauchy_peak(gamma) <= SCALE
            * SCALE * SCALE,
{
    if gamma <= 0 {
        return None;
    }
    let d: u128 = if x >= x0 {
        (x as i128 - x0 as i128) as u128
    } else {
        (x0 as i128 - x as i128) as u128
    };
    let g: u128 = gamma as u128;
    let cube: u128 = 1_000_000_000_000_000_000_000_000_000;
    assert(SCALE * SCALE * SCALE == cube) by (nonlinear_arith)
        requires
            SCALE == 1_000_000_000,
            cube == 1_000_000_000_000_000_000_000_000_000,
    ;
    assert(1 <= g * g <= i64::MAX * i64::MAX && d * d <= u64::MAX * u64::MAX <= u128::MAX && g
        <= g * g) by (nonlinear_arith)
        requires
            1 <= g <= i64::MAX,
            0 <= d <= u64::MAX,
    ;
    let gg: u128 = g * g;
    let dd: u128 = d * d;
    proof {
        lemma_cauchy_peak_is_largest(x, x0, gamma);
    }
    if dd > u128::MAX - gg {
        proof {
            // the numerator is below the denominator
            let den = PI * (gg + dd);
            assert(0 <= cube * g < den) by (nonlinear_arith)
                requires
                    den == PI * (gg + dd),
                    gg + dd > u128::MAX,
                    PI == 3_141_592_654,
                    cube == 1_000_000_000_000_000_000_000_000_000,
                    0 <= g <= i64::MAX,
            ;
            vstd::arithmetic::div_mod::lemma_basic_div((cube * g) as int, den);
        }
        return Some(0);
    }
    let sum: u128 = gg + dd;
    let whole: u128 = if g >= sum {
        proof {
            // only the width of one step at the centre is not below the sum
            assert(g == 1 && dd == 0) by (nonlinear_arith)
                requires
                    g >= gg + dd,
                    gg == g * g,
                    g >= 1,
                    dd >= 0,
            ;
            vstd::arithmetic::div_mod::lemma_div_by_multiple(cube as int, 1);
        }
        cube
    } else {
        let (q, r) = times_parts(sum, cube, g);
        proof {
            vstd::arithmetic::div_mod::lemma_fundamental_div_mod_converse(
                cube * g,
                sum as int,
                q as int,
                r as int,
            );
        }
        q
    };
    proof {
        assert(cube * g >= 0) by (nonlinear_arith)
            requires
                cube >= 0,
                g >= 0,
        ;
        vstd::arithmetic::div_mod::lemma_div_denominator((cube * g) as int, sum as int, PI as int);
        assert(sum * PI == PI * sum) by (nonlinear_arith);
    }
    let r: u128 = whole / (PI as u128);
    Some(r as i64)
}

/// The density is largest at the centre, where it is one over `PI` times
/// the width.
pub proof fn lemma_cauchy_peak_is_largest(x: i64, x0: i64, gamma: i64)
    requires
        gamma > 0,
    ensures
        0 <= cauchy_density(cauchy_distance(x, x0), gamma) <= cauchy_density(0, gamma),
        cauchy_density(0, gamma) == cauchy_peak(gamma),
        cauchy_peak(gamma) <= SCALE * SCALE * SCALE,
        cauchy_pdf_spec(x0, x0, gamma) == Some(cauchy_peak(gamma) as i64),
{
    let d = cauchy_distance(x, x0);
    let cube = SCALE * SCALE * SCALE;
    let gg = gamma * gamma;
    assert(cube == 1_000_000_000_000_000_000_000_000_000int) by (nonlinear_arith)
        requires
            cube == SCALE * SCALE * SCALE,
            SCALE == 1_000_000_000,
    ;
    assert(0 < PI * gg <= PI * (gg + d * d) && cube * gamma >= 0 && PI * (gg + 0int * 0int)
        == gamma * (PI * gamma) && cube * gamma == gamma * cube && PI * gamma >= 1)
        by (nonlinear_arith)
        requires
            gg == gamma * gamma,
            gamma >= 1,
            PI == 3_141_592_654,
            cube >= 0,
    ;
    vstd::arithmetic::div_mod::lemma_div_is_ordered_by_denominator(
        cube * gamma,
        PI * gg,
        PI * (gg + d * d),
    );
    vstd::arithmetic::div_mod::lemma_div_pos_is_pos(cube * gamma, PI * (gg + d * d));
    crate::grid::lemma_div_cancel(cube, PI * gamma, gamma as int);
    vstd::arithmetic::div_mod::lemma_div_is_ordered_by_denominator(cube, 1, PI * gamma);
    assert(cauchy_distance(x0, x0) == 0);
}

} // verus!
