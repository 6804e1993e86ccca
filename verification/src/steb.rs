//! Mean values with error bars.
//!
//! Three ways to combine a sample into a mean and the error of that mean:
//! with equal weights (`steb0`), with weights that the caller hands in
//! (`steb1`), and with error bars on the samples (`steb2`). Samples, weights
//! and means are grid numbers; errors and error bars are grid numbers that
//! are not negative, held as `u64`.
//!
//! A mean is computed from the weights as they are handed in, without a
//! rounded weight in between, and rounded once, to the nearest grid number.
use crate::grid::isqrt;
use crate::grid::lemma_div_cancel;
use crate::grid::lemma_rounded_bounds;
use crate::grid::lemma_rounded_cancel;
use crate::grid::lemma_rounded_mirror;
use crate::grid::lemma_rounded_parts;
use crate::grid::lemma_rounded_shift;
use crate::grid::lemma_sqrt_exists;
use crate::grid::lemma_sqrt_scales;
use crate::grid::rounded;
use crate::grid::sqrt_floor;
use crate::grid::SCALE;
use crate::sums::lemma_sum_grows;
use crate::sums::lemma_sum_scale;
use crate::sums::lemma_sum_shift;
use crate::sums::sum;
use crate::sums::times_parts;
use crate::sums::Quotient;
use vstd::arithmetic::div_mod::lemma_div_is_ordered;
use vstd::arithmetic::div_mod::lemma_fundamental_div_mod;
use vstd::arithmetic::div_mod::lemma_fundamental_div_mod_converse;
use vstd::prelude::*;

verus! {

/// Why a sample could not be combined.
#[derive(Debug, PartialEq, Eq, Clone, Copy)]
pub enum PreconditionError {
    /// The buffers differ in length.
    LengthMismatch,
    /// The sample is too short for the estimate asked for.
    TooFewSamples,
    /// A weight is negative, or the weights sum to zero.
    InvalidWeights,
    /// Weights were to be made from the error bars, and one of them is zero.
    InvalidErrorBars,
}

/// The weight that the smallest error bar is given; the other error bars
/// are given their share of it.
pub const LARGEST_WEIGHT: u64 = 10_000_000_000_000_000_000;

/// The sample as integers.
pub open spec fn samples(x: Seq<i64>) -> Seq<int> {
    Seq::new(x.len(), |i: int| x[i] as int)
}

/// The entries as integers.
pub open spec fn counts(x: Seq<u64>) -> Seq<int> {
    Seq::new(x.len(), |i: int| x[i] as int)
}

/// The sum of all entries.
pub open spec fn total(s: Seq<int>) -> int {
    sum(s, s.len() as int)
}

/// The arithmetic mean of the sample, rounded to the nearest grid number.
pub open spec fn mean(x: Seq<i64>) -> int {
    rounded(total(samples(x)), x.len() as int)
}

/// The squares of the distances of the samples from `m`.
pub open spec fn squared_deviations(x: Seq<i64>, m: int) -> Seq<int> {
    Seq::new(x.len(), |i: int| (x[i] - m) * (x[i] - m))
}

/// The squares of the distances of the samples from their exact mean, each
/// distance taken `n` times so that it is an integer: `(n * x[i] - sum)^2`.
pub open spec fn spreads(x: Seq<i64>) -> Seq<int> {
    Seq::new(
        x.len(),
        |i: int|
            (x.len() * x[i] - total(samples(x))) * (x.len() * x[i] - total(samples(x))),
    )
}

/// The standard error of the mean of the sample: the square root of
/// `variance / n`, where the variance is the sum of the squared distances
/// from the exact mean over `n - 1`. With the distances taken `n` times
/// that is the sum of `spreads` over `n^3 * (n - 1)`. The quotient is
/// rounded down once, and so is the root; no rounded mean comes in.
pub open spec fn standard_error(x: Seq<i64>) -> int {
    let n = x.len() as int;
    sqrt_floor(total(spreads(x)) / (n * n * n * (n - 1)))
}

/// What `steb0` returns.
pub open spec fn steb0_spec(x: Seq<i64>) -> Result<(i64, u64), PreconditionError> {
    if x.len() < 2 {
        Err(PreconditionError::TooFewSamples)
    } else {
        Ok((mean(x) as i64, standard_error(x) as u64))
    }
}

/// No weight is negative, and the weights do not all vanish.
pub open spec fn weights_valid(w: Seq<int>) -> bool {
    &&& forall|i: int| 0 <= i < w.len() ==> 0 <= #[trigger] w[i]
    &&& total(w) > 0
}

/// The share of the weight `i` in the sum of all, rounded down to the grid.
pub open spec fn share_floor(raw: Seq<int>, i: int) -> int {
    (raw[i] * SCALE) / total(raw)
}

/// What rounding down cut off the share of the weight `i`, in parts of the
/// sum of all weights; zero where the share is a grid number.
pub open spec fn share_rest(raw: Seq<int>, i: int) -> int {
    (raw[i] * SCALE) % total(raw)
}

/// The shares rounded down.
pub open spec fn floors(raw: Seq<int>) -> Seq<int> {
    Seq::new(raw.len(), |i: int| share_floor(raw, i))
}

/// What rounding down cut off each share.
pub open spec fn rests(raw: Seq<int>) -> Seq<int> {
    Seq::new(raw.len(), |i: int| share_rest(raw, i))
}

/// The grid steps that the shares rounded down fall short of one unit by.
pub open spec fn lost(raw: Seq<int>) -> int {
    SCALE - total(floors(raw))
}

/// The number of shares among the first `k` that rounding down cut.
pub open spec fn cuts(raw: Seq<int>, k: int) -> int
    decreases k,
{
    if k <= 0 {
        0
    } else {
        cuts(raw, k - 1) + if share_rest(raw, k - 1) > 0 {
            1int
        } else {
            0int
        }
    }
}

/// The normalized weight `i`: its share in the sum of all weights, rounded
/// down, and one grid step more for the first `lost(raw)` shares that
/// rounding down cut. The lost steps are handed back, so that the weights
/// sum to one unit, and each is within one step of its share.
pub open spec fn share(raw: Seq<int>, i: int) -> int {
    share_floor(raw, i) + if share_rest(raw, i) > 0 && cuts(raw, i) < lost(raw) {
        1int
    } else {
        0int
    }
}

/// The normalized weights as integers.
pub open spec fn shares(raw: Seq<int>) -> Seq<int> {
    Seq::new(raw.len(), |i: int| share(raw, i))
}

/// The normalized weights.
pub open spec fn normalized(raw: Seq<int>) -> Seq<i64> {
    Seq::new(raw.len(), |i: int| share(raw, i) as i64)
}

/// Each sample times its weight.
pub open spec fn products(raw: Seq<int>, x: Seq<i64>) -> Seq<int> {
    Seq::new(x.len(), |i: int| raw[i] * x[i])
}

/// The weighted mean of the sample: the sum of the weighted samples over the
/// sum of the weights, rounded to the nearest grid number.
pub open spec fn weighted_mean(raw: Seq<int>, x: Seq<i64>) -> int {
    rounded(total(products(raw, x)), total(raw))
}

/// The squared distances of the samples from `m`, each times its weight.
pub open spec fn weighted_squared_deviations(raw: Seq<int>, x: Seq<i64>, m: int) -> Seq<int> {
    Seq::new(x.len(), |i: int| raw[i] * ((x[i] - m) * (x[i] - m)))
}

/// The squared distances of the samples from their exact weighted mean,
/// each times its weight, and each distance taken `t` times, with `t` the
/// sum of the weights, so that it is an integer:
/// `raw[i] * (t * x[i] - sum of the weighted samples)^2`.
pub open spec fn weighted_spreads(raw: Seq<int>, x: Seq<i64>) -> Seq<int> {
    Seq::new(
        x.len(),
        |i: int|
            raw[i] * ((total(raw) * x[i] - total(products(raw, x))) * (total(raw) * x[i]
                - total(products(raw, x)))),
    )
}

/// The error of the weighted mean: the square root of the weighted spread
/// over `n - 1`, where the spread is the sum of the squared distances from
/// the exact weighted mean, each times the share of its weight in the sum
/// `t` of all. With the distances taken `t` times that is the sum of
/// `weighted_spreads` over `t^3 * (n - 1)`. The quotient is rounded down
/// once, and so is the root; no rounded weight and no rounded mean comes in.
pub open spec fn weighted_error(raw: Seq<int>, x: Seq<i64>) -> int {
    let n = x.len() as int;
    let t = total(raw);
    sqrt_floor(total(weighted_spreads(raw, x)) / (t * t * t * (n - 1)))
}

/// What `steb1` returns for a sample `x` and the weights `w` as they are
/// handed in.
pub open spec fn steb1_spec(x: Seq<i64>, w: Seq<i64>) -> Result<(i64, u64), PreconditionError> {
    if x.len() != w.len() {
        Err(PreconditionError::LengthMismatch)
    } else if x.len() < 2 {
        Err(PreconditionError::TooFewSamples)
    } else if !weights_valid(samples(w)) {
        Err(PreconditionError::InvalidWeights)
    } else {
        Ok((weighted_mean(samples(w), x) as i64, weighted_error(samples(w), x) as u64))
    }
}

/// The smallest of the first `k` error bars.
pub open spec fn smallest(eb: Seq<u64>, k: int) -> int
    decreases k,
{
    if k <= 1 {
        eb[0] as int
    } else if eb[k - 1] < smallest(eb, k - 1) {
        eb[k - 1] as int
    } else {
        smallest(eb, k - 1)
    }
}

/// One over the square of each error bar, in units in which the smallest
/// error bar has the weight `LARGEST_WEIGHT`: that weight times the square
/// of the smallest error bar over the square of each, rounded down. Taken
/// this way the weights neither vanish nor grow beyond the grid, however
/// small or large the error bars are, and each is its share to one part in
/// `LARGEST_WEIGHT`.
pub open spec fn inverse_variances(eb: Seq<u64>) -> Seq<int> {
    Seq::new(
        eb.len(),
        |i: int|
            (LARGEST_WEIGHT * (smallest(eb, eb.len() as int) * smallest(eb, eb.len() as int)))
                / (eb[i] * eb[i]),
    )
}

/// The weights that `steb2` works with: those handed in, or, where the first
/// of them is negative, the inverse variances.
pub open spec fn chosen_weights(eb: Seq<u64>, w: Seq<i64>) -> Seq<int> {
    if w[0] < 0 {
        inverse_variances(eb)
    } else {
        samples(w)
    }
}

/// Each error bar times its weight.
pub open spec fn bar_products(raw: Seq<int>, eb: Seq<u64>) -> Seq<int> {
    Seq::new(eb.len(), |i: int| raw[i] * eb[i])
}

/// The square of each entry.
pub open spec fn squares(s: Seq<int>) -> Seq<int> {
    Seq::new(s.len(), |i: int| s[i] * s[i])
}

/// The weighted error bars added in quadrature: the square root of the sum
/// of the squares of the error bars, each times the share of its weight in
/// the sum `t` of all. That is the sum of the squared `bar_products` over
/// `t^2`. The quotient is rounded down once, and so is the root; no rounded
/// weight comes in.
pub open spec fn combined_error(raw: Seq<int>, eb: Seq<u64>) -> int {
    sqrt_floor(total(squares(bar_products(raw, eb))) / (total(raw) * total(raw)))
}

/// What `steb2` returns for a sample `x`, its error bars `eb` and the
/// weights `w` as they are handed in.
pub open spec fn steb2_spec(x: Seq<i64>, eb: Seq<u64>, w: Seq<i64>) -> Result<
    (i64, u64),
    PreconditionError,
> {
    if eb.len() != x.len() || w.len() != x.len() {
        Err(PreconditionError::LengthMismatch)
    } else if x.len() == 0 {
        Err(PreconditionError::TooFewSamples)
    } else if w[0] < 0 && exists|i: int| 0 <= i < eb.len() && #[trigger] eb[i] == 0 {
        Err(PreconditionError::InvalidErrorBars)
    } else if w[0] >= 0 && !weights_valid(samples(w)) {
        Err(PreconditionError::InvalidWeights)
    } else {
        let raw = chosen_weights(eb, w);
        Ok((weighted_mean(raw, x) as i64, combined_error(raw, eb) as u64))
    }
}

/// An entry of a sum that has no negative entries is at most the sum.
proof fn lemma_entry_below_sum(s: Seq<int>, i: int)
    requires
        0 <= i < s.len(),
        forall|j: int| 0 <= j < s.len() ==> 0 <= #[trigger] s[j],
    ensures
        0 <= s[i] <= total(s),
{
    lemma_sum_grows(s, i, i + 1);
    lemma_sum_grows(s, i + 1, s.len() as int);
}

/// A share rounded down and what was cut off make up the share.
pub proof fn lemma_share(raw: Seq<int>, i: int)
    requires
        weights_valid(raw),
        0 <= i < raw.len(),
    ensures
        raw[i] * SCALE == total(raw) * share_floor(raw, i) + share_rest(raw, i),
        0 <= share_rest(raw, i) < total(raw),
        0 <= share_floor(raw, i) <= SCALE,
        share_rest(raw, i) > 0 ==> share_floor(raw, i) < SCALE,
{
    let t = total(raw);
    let e = raw[i];
    let f = share_floor(raw, i);
    let r = share_rest(raw, i);
    lemma_entry_below_sum(raw, i);
    lemma_fundamental_div_mod(e * SCALE, t);
    assert(0 <= f <= SCALE && (r > 0 ==> f < SCALE)) by (nonlinear_arith)
        requires
            e * SCALE == t * f + r,
            0 <= r < t,
            0 <= e <= t,
            SCALE > 0,
    ;
}

/// The first `k` shares rounded down, and what was cut off them, make up
/// the share of the first `k` weights.
proof fn lemma_split(raw: Seq<int>, k: int)
    requires
        weights_valid(raw),
        0 <= k <= raw.len(),
    ensures
        total(raw) * sum(floors(raw), k) + sum(rests(raw), k) == SCALE * sum(raw, k),
        0 <= sum(rests(raw), k) <= cuts(raw, k) * (total(raw) - 1),
        0 <= cuts(raw, k) <= k,
        0 <= sum(floors(raw), k),
    decreases k,
{
    let t = total(raw);
    if k > 0 {
        lemma_split(raw, k - 1);
        lemma_share(raw, k - 1);
        let a = sum(floors(raw), k - 1);
        let f = share_floor(raw, k - 1);
        let c = cuts(raw, k - 1);
        assert(t * (a + f) == t * a + t * f) by (nonlinear_arith);
        assert((c + 1) * (t - 1) == c * (t - 1) + (t - 1)) by (nonlinear_arith);
    } else {
        assert(t * 0 == 0 && 0 * (t - 1) == 0) by (nonlinear_arith);
    }
}

/// The first `k` normalized weights sum to the first `k` shares rounded
/// down and the steps handed back so far.
proof fn lemma_handed(raw: Seq<int>, k: int)
    requires
        0 <= k <= raw.len(),
        lost(raw) >= 0,
    ensures
        sum(shares(raw), k) == sum(floors(raw), k) + if cuts(raw, k) < lost(raw) {
            cuts(raw, k)
        } else {
            lost(raw)
        },
    decreases k,
{
    if k > 0 {
        lemma_handed(raw, k - 1);
        assert(shares(raw)[k - 1] == share(raw, k - 1));
        assert(floors(raw)[k - 1] == share_floor(raw, k - 1));
    }
}

/// After normalizing, the weights sum to one unit, and each is its share in
/// the sum of the weights handed in, rounded down or up to the grid.
pub proof fn lemma_normalized_sums_to_one(raw: Seq<int>)
    requires
        weights_valid(raw),
    ensures
        total(shares(raw)) == SCALE,
        samples(normalized(raw)) == shares(raw),
        forall|i: int|
            0 <= i < raw.len() ==> {
                &&& 0 <= #[trigger] share(raw, i) <= SCALE
                &&& total(raw) * (share(raw, i) - 1) < raw[i] * SCALE < total(raw) * (share(
                    raw,
                    i,
                ) + 1)
            },
{
    let n = raw.len() as int;
    let t = total(raw);
    lemma_split(raw, n);
    let f = sum(floors(raw), n);
    let r = sum(rests(raw), n);
    let c = cuts(raw, n);
    let l = lost(raw);
    // what was cut off all shares is the lost steps, in parts of the sum;
    // each cut is less than one step, so there are more cuts than lost steps
    assert(r == t * l) by (nonlinear_arith)
        requires
            t * f + r == SCALE * t,
            l == SCALE - f,
    ;
    assert(l >= 0 && c >= l) by (nonlinear_arith)
        requires
            r == t * l,
            0 <= r <= c * (t - 1),
            0 <= c,
            t > 0,
    ;
    lemma_handed(raw, n);
    assert forall|i: int| 0 <= i < n implies {
        &&& 0 <= #[trigger] share(raw, i) <= SCALE
        &&& t * (share(raw, i) - 1) < raw[i] * SCALE < t * (share(raw, i) + 1)
    } by {
        lemma_share(raw, i);
        let s = share(raw, i);
        let fl = share_floor(raw, i);
        assert(t * (fl + 1) == t * fl + t && t * (fl - 1) == t * fl - t && t * (fl + 2) == t
            * fl + 2 * t) by (nonlinear_arith);
    }
    assert(samples(normalized(raw)) =~= shares(raw));
}

/// The squared distances from the exact mean, by the squared distances from
/// the mean rounded down, `f`, and what the rounding cut off, `rest`.
proof fn lemma_spreads(x: Seq<i64>, f: int, rest: int, k: int)
    requires
        0 <= k <= x.len(),
        total(samples(x)) == f * x.len() + rest,
    ensures
        sum(spreads(x), k) == (x.len() * x.len()) * sum(squared_deviations(x, f), k) - (2
            * x.len() * rest) * (sum(samples(x), k) - k * f) + k * (rest * rest),
    decreases k,
{
    let n = x.len() as int;
    let nn = n * n;
    let u = 2 * n * rest;
    let rr = rest * rest;
    if k > 0 {
        lemma_spreads(x, f, rest, k - 1);
        let d = x[k - 1] - f;
        let c = n * x[k - 1] - total(samples(x));
        let dd = d * d;
        let b0 = sum(squared_deviations(x, f), k - 1);
        let e0 = sum(samples(x), k - 1) - (k - 1) * f;
        assert(squared_deviations(x, f)[k - 1] == dd);
        assert(spreads(x)[k - 1] == c * c);
        assert(c == n * d - rest) by (nonlinear_arith)
            requires
                c == n * x[k - 1] - (f * n + rest),
                d == x[k - 1] - f,
        ;
        assert(c * c == nn * dd - u * d + rr) by (nonlinear_arith)
            requires
                c == n * d - rest,
                nn == n * n,
                u == 2 * n * rest,
                rr == rest * rest,
                dd == d * d,
        ;
        assert(nn * (b0 + dd) == nn * b0 + nn * dd) by (nonlinear_arith);
        assert(u * (e0 + d) == u * e0 + u * d) by (nonlinear_arith);
        assert(k * rr == (k - 1) * rr + rr) by (nonlinear_arith);
        assert(k * f == (k - 1) * f + f) by (nonlinear_arith);
    } else {
        assert(nn * 0 == 0 && u * 0 == 0 && 0 * rr == 0 && 0 * f == 0) by (nonlinear_arith);
    }
}

/// The quotient of the sum of `spreads` by `n^3 * (n - 1)`, from the
/// quotient `q` and the remainder `r` of the squared distances from the mean
/// rounded down by `n * (n - 1)`: it is `q`, or one less where what the
/// rounding of the mean cut off outweighs the remainder.
proof fn lemma_spread_quotient(n: int, d2: int, q: int, r: int, rest: int, a: int)
    requires
        n >= 2,
        d2 == q * (n * (n - 1)) + r,
        0 <= r < n * (n - 1),
        0 <= rest < n,
        a == (n * n) * d2 - n * (rest * rest),
    ensures
        a / (n * n * n * (n - 1)) == if n * r < rest * rest {
            q - 1
        } else {
            q
        },
{
    let d = n * (n - 1);
    let big = n * n * n * (n - 1);
    let rr = rest * rest;
    assert(big == (n * n) * d && big > 0 && d >= n) by (nonlinear_arith)
        requires
            big == n * n * n * (n - 1),
            d == n * (n - 1),
            n >= 2,
    ;
    assert((n * n) * d2 == q * big + (n * n) * r) by (nonlinear_arith)
        requires
            d2 == q * d + r,
            big == (n * n) * d,
    ;
    assert((n * n) * r == n * (n * r)) by (nonlinear_arith);
    assert(0 <= rr < n * n && n * rr < big && n * (n * r) < big) by (nonlinear_arith)
        requires
            0 <= rest < n,
            rr == rest * rest,
            big == (n * n) * d,
            d >= n,
            0 <= r < d,
            n >= 2,
    ;
    if n * r < rr {
        assert(n * (n * r) < n * rr) by (nonlinear_arith)
            requires
                n * r < rr,
                n >= 2,
        ;
        assert(a == (q - 1) * big + (big + n * (n * r) - n * rr)) by (nonlinear_arith)
            requires
                a == q * big + n * (n * r) - n * rr,
        ;
        lemma_fundamental_div_mod_converse(a, big, q - 1, big + n * (n * r) - n * rr);
    } else {
        assert(n * (n * r) >= n * rr) by (nonlinear_arith)
            requires
                n * r >= rr,
                n >= 2,
        ;
        lemma_fundamental_div_mod_converse(a, big, q, n * (n * r) - n * rr);
    }
}

/// The weighted squared distances from the exact weighted mean, by those
/// from the weighted mean rounded down, `f`, and what the rounding cut off,
/// `rest`.
proof fn lemma_weighted_spreads(raw: Seq<int>, x: Seq<i64>, f: int, rest: int, k: int)
    requires
        raw.len() == x.len(),
        0 <= k <= x.len(),
        total(products(raw, x)) == f * total(raw) + rest,
    ensures
        sum(weighted_spreads(raw, x), k) == (total(raw) * total(raw)) * sum(
            weighted_squared_deviations(raw, x, f),
            k,
        ) - (2 * total(raw) * rest) * (sum(products(raw, x), k) - f * sum(raw, k)) + (rest
            * rest) * sum(raw, k),
    decreases k,
{
    let t = total(raw);
    let tt = t * t;
    let u = 2 * t * rest;
    let rr = rest * rest;
    if k > 0 {
        lemma_weighted_spreads(raw, x, f, rest, k - 1);
        let e = raw[k - 1];
        let v = x[k - 1] as int;
        let d = v - f;
        let c = t * v - total(products(raw, x));
        let dd = d * d;
        let b0 = sum(weighted_squared_deviations(raw, x, f), k - 1);
        let taken = sum(products(raw, x), k - 1);
        let s0 = sum(raw, k - 1);
        assert(weighted_squared_deviations(raw, x, f)[k - 1] == e * dd);
        assert(weighted_spreads(raw, x)[k - 1] == e * (c * c));
        assert(products(raw, x)[k - 1] == e * v);
        assert(c == t * d - rest) by (nonlinear_arith)
            requires
                c == t * v - (f * t + rest),
                d == v - f,
        ;
        assert(c * c == tt * dd - u * d + rr) by (nonlinear_arith)
            requires
                c == t * d - rest,
                tt == t * t,
                u == 2 * t * rest,
                rr == rest * rest,
                dd == d * d,
        ;
        assert(e * (c * c) == tt * (e * dd) - u * (e * d) + rr * e) by (nonlinear_arith)
            requires
                c * c == tt * dd - u * d + rr,
        ;
        assert(e * d == e * v - f * e) by (nonlinear_arith)
            requires
                d == v - f,
        ;
        assert(tt * (b0 + e * dd) == tt * b0 + tt * (e * dd)) by (nonlinear_arith);
        assert(u * ((taken + e * v) - f * (s0 + e)) == u * (taken - f * s0) + u * (e * v - f * e))
            by (nonlinear_arith);
        assert(rr * (s0 + e) == rr * s0 + rr * e) by (nonlinear_arith);
    } else {
        assert(tt * 0 == 0 && u * (0 - f * 0) == 0 && rr * 0 == 0) by (nonlinear_arith);
    }
}

/// The quotient of the sum of `weighted_spreads` by `t^3`, from the quotient
/// `q` and the remainder `r` of the weighted squared distances from the mean
/// rounded down by `t`: it is `q`, or one less where what the rounding of
/// the mean cut off outweighs the remainder.
proof fn lemma_weighted_quotient(t: int, a1: int, q: int, r: int, rest: int, x: int)
    requires
        t >= 1,
        a1 == q * t + r,
        0 <= r < t,
        0 <= rest < t,
        x == (t * t) * a1 - t * (rest * rest),
    ensures
        x / (t * t * t) == if t * r < rest * rest {
            q - 1
        } else {
            q
        },
{
    let big = t * t * t;
    let rr = rest * rest;
    assert(big == (t * t) * t && big > 0) by (nonlinear_arith)
        requires
            big == t * t * t,
            t >= 1,
    ;
    assert((t * t) * a1 == q * big + t * (t * r)) by (nonlinear_arith)
        requires
            a1 == q * t + r,
            big == (t * t) * t,
    ;
    assert(0 <= rr < t * t && t * rr < big && 0 <= t * (t * r) < big && t * (t * r) <= big - t
        * t) by (nonlinear_arith)
        requires
            0 <= rest < t,
            rr == rest * rest,
            big == (t * t) * t,
            0 <= r < t,
            t >= 1,
    ;
    if t * r < rr {
        assert(t * (t * r) < t * rr) by (nonlinear_arith)
            requires
                t * r < rr,
                t >= 1,
        ;
        assert(x == (q - 1) * big + (big + t * (t * r) - t * rr)) by (nonlinear_arith)
            requires
                x == q * big + t * (t * r) - t * rr,
        ;
        lemma_fundamental_div_mod_converse(x, big, q - 1, big + t * (t * r) - t * rr);
    } else {
        assert(t * (t * r) >= t * rr) by (nonlinear_arith)
            requires
                t * r >= rr,
                t >= 1,
        ;
        lemma_fundamental_div_mod_converse(x, big, q, t * (t * r) - t * rr);
    }
}

/// The smallest error bar is one of the error bars and none is smaller.
proof fn lemma_smallest(eb: Seq<u64>, k: int)
    requires
        1 <= k <= eb.len(),
    ensures
        forall|i: int| 0 <= i < k ==> smallest(eb, k) <= #[trigger] eb[i],
        exists|i: int| 0 <= i < k && #[trigger] eb[i] == smallest(eb, k),
    decreases k,
{
    if k > 1 {
        lemma_smallest(eb, k - 1);
        let j = choose|i: int| 0 <= i < k - 1 && #[trigger] eb[i] == smallest(eb, k - 1);
        if eb[k - 1] < smallest(eb, k - 1) {
            assert(eb[k - 1] == smallest(eb, k));
        } else {
            assert(eb[j] == smallest(eb, k));
        }
    } else {
        assert(eb[0] == smallest(eb, k));
    }
}

/// The weight of the error bar `i` is the largest weight times the square
/// of the smallest error bar over the square of this one, rounded down; it
/// is at most the largest weight, and that for the smallest error bar.
pub proof fn lemma_inverse_variance(eb: Seq<u64>, i: int)
    requires
        0 <= i < eb.len(),
        forall|j: int| 0 <= j < eb.len() ==> #[trigger] eb[j] > 0,
    ensures
        0 <= inverse_variances(eb)[i] <= LARGEST_WEIGHT,
        eb[i] == smallest(eb, eb.len() as int) ==> inverse_variances(eb)[i] == LARGEST_WEIGHT,
        inverse_variances(eb)[i] * (eb[i] * eb[i]) <= LARGEST_WEIGHT * (smallest(
            eb,
            eb.len() as int,
        ) * smallest(eb, eb.len() as int)) < (inverse_variances(eb)[i] + 1) * (eb[i] * eb[i]),
{
    let m = smallest(eb, eb.len() as int);
    let e = eb[i] as int;
    let mm = m * m;
    let ee = e * e;
    let v = inverse_variances(eb)[i];
    lemma_smallest(eb, eb.len() as int);
    assert(0 < mm <= ee && 0 <= LARGEST_WEIGHT * mm <= LARGEST_WEIGHT * ee) by (nonlinear_arith)
        requires
            0 < m <= e,
            mm == m * m,
            ee == e * e,
            LARGEST_WEIGHT >= 0,
    ;
    lemma_fundamental_div_mod(LARGEST_WEIGHT * mm, ee);
    assert(v * ee == ee * v && (v + 1) * ee == ee * v + ee) by (nonlinear_arith);
    lemma_div_is_ordered(0, LARGEST_WEIGHT * mm, ee);
    lemma_div_is_ordered(LARGEST_WEIGHT * mm, LARGEST_WEIGHT * ee, ee);
    vstd::arithmetic::div_mod::lemma_div_by_multiple(LARGEST_WEIGHT as int, ee);
}

/// Inverse variances of error bars above zero are valid weights, and sum
/// to the largest weight at least.
pub proof fn lemma_inverse_variances_valid(eb: Seq<u64>)
    requires
        eb.len() >= 1,
        forall|j: int| 0 <= j < eb.len() ==> #[trigger] eb[j] > 0,
    ensures
        weights_valid(inverse_variances(eb)),
        total(inverse_variances(eb)) >= LARGEST_WEIGHT,
{
    let iv = inverse_variances(eb);
    assert forall|i: int| 0 <= i < iv.len() implies 0 <= #[trigger] iv[i] by {
        lemma_inverse_variance(eb, i);
    }
    lemma_smallest(eb, eb.len() as int);
    let j = choose|i: int| 0 <= i < eb.len() && #[trigger] eb[i] == smallest(eb, eb.len() as int);
    lemma_inverse_variance(eb, j);
    lemma_entry_below_sum(iv, j);
}

/// Adding a grid number to every sample leaves the error as it is and adds
/// the number to the mean; only a mean that lies halfway between two grid
/// numbers may come to be rounded the other way.
pub proof fn lemma_steb0_shift(x: Seq<i64>, y: Seq<i64>, c: int)
    requires
        x.len() == y.len(),
        x.len() >= 2,
        forall|i: int| 0 <= i < x.len() ==> #[trigger] y[i] == x[i] + c,
    ensures
        standard_error(y) == standard_error(x),
        mean(x) + c - 1 <= mean(y) <= mean(x) + c + 1,
        2 * (total(samples(x)) % (x.len() as int)) != x.len() ==> mean(y) == mean(x) + c,
{
    let n = x.len() as int;
    let t = total(samples(x));
    lemma_sum_shift(samples(x), samples(y), c, n);
    assert(n * c == c * n) by (nonlinear_arith);
    lemma_rounded_shift(t, n, c);
    assert forall|i: int| 0 <= i < n implies #[trigger] spreads(y)[i] == spreads(x)[i] by {
        assert(n * (x[i] + c) == n * x[i] + n * c) by (nonlinear_arith);
    }
    assert(spreads(y) =~= spreads(x));
}

/// Negating every sample negates the mean and leaves the error as it is.
pub proof fn lemma_steb0_mirror(x: Seq<i64>, y: Seq<i64>)
    requires
        x.len() == y.len(),
        x.len() >= 2,
        forall|i: int| 0 <= i < x.len() ==> #[trigger] y[i] == -x[i],
    ensures
        standard_error(y) == standard_error(x),
        mean(y) == -mean(x),
{
    let n = x.len() as int;
    let t = total(samples(x));
    assert forall|i: int| 0 <= i < n implies #[trigger] samples(y)[i] == (-1) * samples(x)[i] by {}
    lemma_sum_scale(samples(x), samples(y), -1, n);
    lemma_rounded_mirror(t, n);
    assert forall|i: int| 0 <= i < n implies #[trigger] spreads(y)[i] == spreads(x)[i] by {
        let a = n * x[i] - t;
        assert(n * (-x[i]) - (-1) * t == -a) by (nonlinear_arith)
            requires
                a == n * x[i] - t,
        ;
        assert((-a) * (-a) == a * a) by (nonlinear_arith);
    }
    assert(spreads(y) =~= spreads(x));
}

/// Multiplying every sample by a whole number `s` multiplies mean and error
/// by `s`, up to the `s` steps that their rounding takes: the error by less
/// than that.
pub proof fn lemma_steb0_scale(x: Seq<i64>, y: Seq<i64>, s: int)
    requires
        x.len() == y.len(),
        x.len() >= 2,
        s >= 1,
        forall|i: int| 0 <= i < x.len() ==> #[trigger] y[i] == s * x[i],
    ensures
        s * standard_error(x) <= standard_error(y) < s * (standard_error(x) + 1),
        s * mean(x) - s <= mean(y) <= s * mean(x) + s,
{
    let n = x.len() as int;
    let t = total(samples(x));
    let m = mean(x);
    lemma_sum_scale(samples(x), samples(y), s, n);
    // the mean
    lemma_fundamental_div_mod(t, n);
    assert(t == (t / n) * n + t % n) by (nonlinear_arith)
        requires
            t == n * (t / n) + t % n,
    ;
    lemma_rounded_parts(t, n, t / n, t % n);
    assert((s * (m - 1)) * n <= s * t <= (s * (m + 1)) * n && s * (m - 1) == s * m - s && s * (m
        + 1) == s * m + s) by (nonlinear_arith)
        requires
            t == (t / n) * n + t % n,
            0 <= t % n < n,
            t / n <= m <= t / n + 1,
            s >= 1,
    ;
    lemma_rounded_bounds(s * t, n, s * (m - 1), s * (m + 1));
    // the error
    assert forall|i: int| 0 <= i < n implies #[trigger] spreads(y)[i] == (s * s) * spreads(
        x,
    )[i] by {
        let a = n * x[i] - t;
        assert(n * (s * x[i]) - s * t == s * a) by (nonlinear_arith)
            requires
                a == n * x[i] - t,
        ;
        assert((s * a) * (s * a) == (s * s) * (a * a)) by (nonlinear_arith);
    }
    lemma_sum_scale(spreads(x), spreads(y), s * s, n);
    assert forall|j: int| 0 <= j < n implies 0 <= #[trigger] spreads(x)[j] by {
        let a = n * x[j] - t;
        assert(a * a >= 0) by (nonlinear_arith);
    }
    lemma_sum_grows(spreads(x), 0, n);
    assert(n * n * n * (n - 1) > 0) by (nonlinear_arith)
        requires
            n >= 2,
    ;
    lemma_sqrt_scales(total(spreads(x)), n * n * n * (n - 1), s);
}

/// A weighted mean lies between any two grid numbers that all samples lie
/// between.
pub proof fn lemma_mean_between(raw: Seq<int>, x: Seq<i64>, lo: int, hi: int)
    requires
        raw.len() == x.len(),
        weights_valid(raw),
        forall|i: int| 0 <= i < x.len() ==> lo <= #[trigger] x[i] <= hi,
    ensures
        lo <= weighted_mean(raw, x) <= hi,
{
    lemma_weighted_sum_between(raw, x, lo, hi, x.len() as int);
    lemma_rounded_bounds(total(products(raw, x)), total(raw), lo, hi);
}

/// The sum of the first `k` weighted samples lies between the sum of the
/// first `k` weights times a lower and times an upper bound of the samples.
proof fn lemma_weighted_sum_between(raw: Seq<int>, x: Seq<i64>, lo: int, hi: int, k: int)
    requires
        raw.len() == x.len(),
        0 <= k <= x.len(),
        forall|i: int| 0 <= i < raw.len() ==> 0 <= #[trigger] raw[i],
        forall|i: int| 0 <= i < x.len() ==> lo <= #[trigger] x[i] <= hi,
    ensures
        lo * sum(raw, k) <= sum(products(raw, x), k) <= hi * sum(raw, k),
    decreases k,
{
    if k > 0 {
        lemma_weighted_sum_between(raw, x, lo, hi, k - 1);
        let e = raw[k - 1];
        let v = x[k - 1] as int;
        let part = sum(raw, k - 1);
        assert(products(raw, x)[k - 1] == e * v);
        assert(lo * (part + e) == lo * part + lo * e && hi * (part + e) == hi * part + hi * e
            && lo * e <= e * v <= hi * e) by (nonlinear_arith)
            requires
                e >= 0,
                lo <= v <= hi,
        ;
    } else {
        assert(lo * 0 == 0 && hi * 0 == 0);
    }
}

/// With equal weights the weighted mean is the plain mean, and its error
/// the standard error.
pub proof fn lemma_equal_weights(x: Seq<i64>, raw: Seq<int>, c: int)
    requires
        raw.len() == x.len(),
        x.len() >= 1,
        c > 0,
        forall|i: int| 0 <= i < raw.len() ==> #[trigger] raw[i] == c,
    ensures
        weighted_mean(raw, x) == mean(x),
        x.len() >= 2 ==> weighted_error(raw, x) == standard_error(x),
        weights_valid(raw),
{
    let n = x.len() as int;
    let zero = Seq::new(x.len(), |i: int| 0int);
    lemma_sum_scale(raw, zero, 0, n);
    lemma_sum_shift(zero, raw, c, n);
    assert forall|i: int| 0 <= i < n implies #[trigger] products(raw, x)[i] == c * samples(x)[i] by {}
    lemma_sum_scale(samples(x), products(raw, x), c, n);
    assert(n * c == c * n && c * n > 0) by (nonlinear_arith)
        requires
            n >= 1,
            c > 0,
    ;
    lemma_rounded_cancel(total(samples(x)), n, c);
    if n >= 2 {
        let t = total(raw);
        let sx = total(samples(x));
        let ccc = c * c * c;
        assert forall|i: int| 0 <= i < n implies #[trigger] weighted_spreads(raw, x)[i] == ccc
            * spreads(x)[i] by {
            let a = n * x[i] - sx;
            assert(t * x[i] - c * sx == c * a) by (nonlinear_arith)
                requires
                    t == c * n,
                    a == n * x[i] - sx,
            ;
            assert(c * ((c * a) * (c * a)) == ccc * (a * a)) by (nonlinear_arith)
                requires
                    ccc == c * c * c,
            ;
        }
        lemma_sum_scale(spreads(x), weighted_spreads(raw, x), ccc, n);
        let big = n * n * n * (n - 1);
        assert(t * t * t * (n - 1) == ccc * big && big > 0 && ccc > 0) by (nonlinear_arith)
            requires
                t == c * n,
                ccc == c * c * c,
                big == n * n * n * (n - 1),
                n >= 2,
                c > 0,
        ;
        lemma_div_cancel(total(spreads(x)), big, ccc);
    }
}

/// The squares of the first `k` weighted error bars, under inverse
/// variances, sum to at most the first `k` weights times the largest weight
/// times the square of the smallest error bar.
proof fn lemma_bars(eb: Seq<u64>, k: int)
    requires
        0 <= k <= eb.len(),
        forall|j: int| 0 <= j < eb.len() ==> #[trigger] eb[j] > 0,
    ensures
        0 <= sum(squares(bar_products(inverse_variances(eb), eb)), k) <= (LARGEST_WEIGHT * (
        smallest(eb, eb.len() as int) * smallest(eb, eb.len() as int))) * sum(
            inverse_variances(eb),
            k,
        ),
    decreases k,
{
    let iv = inverse_variances(eb);
    let m = smallest(eb, eb.len() as int);
    let wmm = LARGEST_WEIGHT * (m * m);
    let sq = squares(bar_products(iv, eb));
    if k > 0 {
        lemma_bars(eb, k - 1);
        lemma_inverse_variance(eb, k - 1);
        let v = iv[k - 1];
        let e = eb[k - 1] as int;
        assert(sq[k - 1] == (v * e) * (v * e));
        // (v * e)^2 = v * (v * e^2) <= v * wmm
        assert(0 <= (v * e) * (v * e) <= wmm * v) by (nonlinear_arith)
            requires
                v * (e * e) <= wmm,
                v >= 0,
        ;
        assert(wmm * (sum(iv, k - 1) + v) == wmm * sum(iv, k - 1) + wmm * v)
            by (nonlinear_arith);
    } else {
        assert(wmm * 0 == 0) by (nonlinear_arith);
    }
}

/// With weights made from the error bars the error of the mean is at most
/// the smallest error bar.
pub proof fn lemma_error_below_smallest(eb: Seq<u64>)
    requires
        eb.len() >= 1,
        forall|j: int| 0 <= j < eb.len() ==> #[trigger] eb[j] > 0,
    ensures
        0 <= combined_error(inverse_variances(eb), eb) <= smallest(eb, eb.len() as int),
{
    let n = eb.len() as int;
    let iv = inverse_variances(eb);
    let t = total(iv);
    let m = smallest(eb, n);
    let sq = squares(bar_products(iv, eb));
    lemma_inverse_variances_valid(eb);
    lemma_bars(eb, n);
    lemma_smallest(eb, n);
    let total_sq = total(sq);
    let mm = m * m;
    // the sum is at most (W * m^2) * t and t >= W, so it is at most m^2 * t^2
    assert(mm >= 0 && total_sq <= mm * (t * t) && t * t > 0) by (nonlinear_arith)
        requires
            mm == m * m,
            total_sq <= (LARGEST_WEIGHT * mm) * t,
            t >= LARGEST_WEIGHT,
            LARGEST_WEIGHT > 0,
    ;
    lemma_div_is_ordered(total_sq, mm * (t * t), t * t);
    vstd::arithmetic::div_mod::lemma_div_by_multiple(mm, t * t);
    vstd::arithmetic::div_mod::lemma_div_pos_is_pos(total_sq, t * t);
    let q = total_sq / (t * t);
    lemma_sqrt_exists(q);
    let e = sqrt_floor(q);
    if e > m {
        assert(m * m < (m + 1) * (m + 1) <= e * e) by (nonlinear_arith)
            requires
                0 <= m,
                m + 1 <= e,
        ;
    }
}

/// The quotient of a sum by `t^2`, where the sum is held as `whole` times
/// `t^2` and three sums in parts of `t`: `c` and `g` times `t`, and `h`.
proof fn lemma_quadrature(
    t: int,
    x: int,
    whole: int,
    qc: int,
    rc: int,
    qg: int,
    rg: int,
    qh: int,
    rh: int,
    k: int,
    m: int,
)
    requires
        t > 0,
        x == (t * t) * whole + t * (qc * t + rc) + t * (qg * t + rg) + (qh * t + rh),
        0 <= rh < t,
        rc + rg + qh == k * t + m,
        0 <= m < t,
    ensures
        x / (t * t) == whole + qc + qg + k,
{
    let tt = t * t;
    assert(x == (whole + qc + qg + k) * tt + (t * m + rh) && 0 <= t * m + rh < tt)
        by (nonlinear_arith)
        requires
            tt == t * t,
            x == tt * whole + t * (qc * t + rc) + t * (qg * t + rg) + (qh * t + rh),
            0 <= rh < t,
            rc + rg + qh == k * t + m,
            0 <= m < t,
    ;
    lemma_fundamental_div_mod_converse(x, tt, whole + qc + qg + k, t * m + rh);
}

/// The sum of the entries.
fn total_of(raw: &Vec<u64>) -> (t: u128)
    ensures
        t == total(counts(raw@)),
{
    let n: usize = raw.len();
    let mut t: u128 = 0;
    let mut i: usize = 0;
    while i < n
        invariant
            n == raw.len(),
            i <= n,
            t == sum(counts(raw@), i as int),
            t <= i * u64::MAX,
        decreases n - i,
    {
        assert((i + 1) * u64::MAX == i * u64::MAX + u64::MAX && (i + 1) * u64::MAX <= u64::MAX
            * u64::MAX) by (nonlinear_arith)
            requires
                0 <= i < u64::MAX,
        ;
        t = t + raw[i] as u128;
        i += 1;
    }
    t
}

/// The quotient rounded to the nearest grid number, from the quotient `f`
/// rounded down and its remainder `rest` by `d`.
fn nearest(f: i64, rest: u128, d: u128) -> (m: i64)
    requires
        d > 0,
        rest < d,
        f == i64::MAX ==> rest == 0,
    ensures
        m == rounded(f * d + rest, d as int),
{
    let up: bool = rest > d - rest || (rest == d - rest && f >= 0);
    proof {
        let a: int = f * d + rest;
        assert((f >= 0 ==> a >= 0) && (f < 0 ==> a < 0)) by (nonlinear_arith)
            requires
                a == f * d + rest,
                0 <= rest < d,
        ;
        lemma_rounded_parts(a, d as int, f as int, rest as int);
    }
    if up {
        f + 1
    } else {
        f
    }
}

/// The mean of a sample that is not empty, rounded down, and what the
/// rounding cut off, in parts of the number of samples.
fn mean_parts(data: &[i64]) -> (p: (i64, u64))
    requires
        data.len() > 0,
    ensures
        total(samples(data@)) == p.0 * data.len() + p.1,
        0 <= p.1 < data.len(),
        p.0 == i64::MAX ==> p.1 == 0,
{
    let n: usize = data.len();
    let mut acc = Quotient::new();
    let mut i: usize = 0;
    while i < n
        invariant
            n == data.len(),
            i <= n,
            acc.r < n,
            acc.value(n as int) == sum(samples(data@), i as int) + i * 0x8000_0000_0000_0000,
            acc.value(n as int) <= i * u64::MAX,
        decreases n - i,
    {
        let t: u128 = (data[i] as i128 + 0x8000_0000_0000_0000) as u128;
        assert((i + 1) * u64::MAX == i * u64::MAX + u64::MAX && (i + 1) * u64::MAX <= u128::MAX
            * n && (i + 1) * 0x8000_0000_0000_0000 == i * 0x8000_0000_0000_0000
            + 0x8000_0000_0000_0000) by (nonlinear_arith)
            requires
                0 <= i < n,
        ;
        acc.add_product(n as u128, 1, t);
        i += 1;
    }
    assert(acc.q <= u64::MAX && (acc.q == u64::MAX ==> acc.r == 0)) by (nonlinear_arith)
        requires
            acc.q * n + acc.r <= n * u64::MAX,
            0 <= acc.r,
            0 <= acc.q,
            n > 0,
    ;
    let f: i128 = acc.q as i128 - 0x8000_0000_0000_0000;
    assert(total(samples(data@)) == f * n + acc.r) by (nonlinear_arith)
        requires
            acc.q * n + acc.r == total(samples(data@)) + n * 0x8000_0000_0000_0000,
            f == acc.q - 0x8000_0000_0000_0000,
    ;
    (f as i64, acc.r as u64)
}

/// The weighted mean of a sample under weights that sum to `t`, rounded
/// down, and what the rounding cut off, in parts of `t`.
fn weighted_parts(raw: &Vec<u64>, data: &[i64], t: u128) -> (p: (i64, u128))
    requires
        raw.len() == data.len(),
        t == total(counts(raw@)),
        t > 0,
    ensures
        total(products(counts(raw@), data@)) == p.0 * t + p.1,
        0 <= p.1 < t,
        p.0 == i64::MAX ==> p.1 == 0,
{
    let n: usize = data.len();
    let mut acc = Quotient::new();
    let mut i: usize = 0;
    let ghost rw = counts(raw@);
    let ghost pr = products(rw, data@);
    proof {
        lemma_sum_grows(rw, 0, n as int);
    }
    while i < n
        invariant
            n == data.len(),
            n == raw.len(),
            i <= n,
            rw == counts(raw@),
            pr == products(rw, data@),
            t == total(rw),
            t > 0,
            acc.r < t,
            acc.value(t as int) == sum(pr, i as int) + 0x8000_0000_0000_0000 * sum(rw, i as int),
            acc.value(t as int) <= u64::MAX * sum(rw, i as int),
            0 <= sum(rw, i as int) <= t,
        decreases n - i,
    {
        let e: u128 = raw[i] as u128;
        let s: u128 = (data[i] as i128 + 0x8000_0000_0000_0000) as u128;
        assert(e * s <= u64::MAX * e <= u64::MAX * u64::MAX <= u128::MAX) by (nonlinear_arith)
            requires
                0 <= e <= u64::MAX,
                0 <= s <= u64::MAX,
        ;
        let p: u128 = e * s;
        proof {
            let part = sum(rw, i as int);
            lemma_sum_grows(rw, i + 1, n as int);
            assert(p == pr[i as int] + 0x8000_0000_0000_0000 * e) by (nonlinear_arith)
                requires
                    p == e * s,
                    s == data@[i as int] + 0x8000_0000_0000_0000,
                    pr[i as int] == e * data@[i as int],
            ;
            assert(u64::MAX * (part + e) == u64::MAX * part + u64::MAX * e && u64::MAX * (part
                + e) <= u128::MAX * t) by (nonlinear_arith)
                requires
                    0 <= part + e <= t,
            ;
        }
        acc.add_product(t, 1, p);
        i += 1;
    }
    assert(acc.q <= u64::MAX && (acc.q == u64::MAX ==> acc.r == 0)) by (nonlinear_arith)
        requires
            acc.q * t + acc.r <= u64::MAX * t,
            0 <= acc.r,
            0 <= acc.q,
            t > 0,
    ;
    let f: i128 = acc.q as i128 - 0x8000_0000_0000_0000;
    assert(total(pr) == f * t + acc.r) by (nonlinear_arith)
        requires
            acc.q * t + acc.r == total(pr) + 0x8000_0000_0000_0000 * t,
            f == acc.q - 0x8000_0000_0000_0000,
    ;
    (f as i64, acc.r)
}

/// The weighted mean of a sample under weights that sum to `t`.
fn weighted_mean_of(raw: &Vec<u64>, data: &[i64], t: u128) -> (m: i64)
    requires
        raw.len() == data.len(),
        t == total(counts(raw@)),
        t > 0,
    ensures
        m == weighted_mean(counts(raw@), data@),
{
    let (f, rest) = weighted_parts(raw, data, t);
    nearest(f, rest, t)
}

/// The square of the distance between two grid numbers.
fn squared_distance(x: i64, m: i64) -> (t: u128)
    ensures
        t == (x - m) * (x - m),
        t <= u64::MAX * u64::MAX,
{
    let dev: i128 = x as i128 - m as i128;
    let a: u128 = if dev < 0 {
        (-dev) as u128
    } else {
        dev as u128
    };
    assert(a * a <= u64::MAX * u64::MAX <= u128::MAX && a * a == dev * dev) by (nonlinear_arith)
        requires
            0 <= a <= u64::MAX,
            a == dev || a == -dev,
    ;
    a * a
}

/// The weights as counts with their sum, where they are valid.
fn raw_of(w: &Vec<i64>) -> (r: Option<Vec<u64>>)
    ensures
        r is Some <==> weights_valid(samples(w@)),
        r matches Some(raw) ==> counts(raw@) == samples(w@),
{
    let n: usize = w.len();
    let mut raw: Vec<u64> = Vec::new();
    let mut i: usize = 0;
    while i < n
        invariant
            n == w.len(),
            i <= n,
            raw.len() == i,
            forall|j: int| 0 <= j < i ==> 0 <= #[trigger] w@[j],
            forall|j: int| 0 <= j < i ==> #[trigger] raw@[j] == w@[j],
        decreases n - i,
    {
        if w[i] < 0 {
            assert(samples(w@)[i as int] < 0);
            return None;
        }
        raw.push(w[i] as u64);
        i += 1;
    }
    assert(counts(raw@) =~= samples(w@));
    if total_of(&raw) == 0 {
        return None;
    }
    Some(raw)
}

/// The normalized weights of weights that sum to `t`.
fn shares_of(raw: &Vec<u64>, t: u128) -> (v: Vec<i64>)
    requires
        t == total(counts(raw@)),
        t > 0,
    ensures
        v@ == normalized(counts(raw@)),
{
    let n: usize = raw.len();
    let ghost rw = counts(raw@);
    proof {
        lemma_normalized_sums_to_one(rw);
    }
    // the steps that rounding down loses
    let mut kept: u128 = 0;
    let mut i: usize = 0;
    while i < n
        invariant
            n == raw.len(),
            i <= n,
            rw == counts(raw@),
            weights_valid(rw),
            t == total(rw),
            kept == sum(floors(rw), i as int),
            kept <= SCALE,
        decreases n - i,
    {
        let e: u128 = raw[i] as u128;
        assert(e * SCALE <= u64::MAX * SCALE) by (nonlinear_arith)
            requires
                0 <= e <= u64::MAX,
                SCALE == 1_000_000_000,
        ;
        let f: u128 = e * (SCALE as u128) / t;
        proof {
            lemma_share(rw, i as int);
            lemma_split(rw, i + 1);
            lemma_sum_grows(rw, i + 1, n as int);
            let fs = sum(floors(rw), i + 1);
            assert(fs <= SCALE) by (nonlinear_arith)
                requires
                    t * fs + sum(rests(rw), i + 1) == SCALE * sum(rw, i + 1),
                    0 <= sum(rests(rw), i + 1),
                    sum(rw, i + 1) <= t,
                    t > 0,
                    SCALE == 1_000_000_000,
            ;
        }
        kept = kept + f;
        i += 1;
    }
    let lost_steps: u128 = SCALE as u128 - kept;
    let mut handed: u128 = 0;
    let mut v: Vec<i64> = Vec::new();
    let mut i: usize = 0;
    while i < n
        invariant
            n == raw.len(),
            i <= n,
            rw == counts(raw@),
            weights_valid(rw),
            t == total(rw),
            lost_steps == lost(rw),
            handed == if cuts(rw, i as int) < lost(rw) {
                cuts(rw, i as int)
            } else {
                lost(rw)
            },
            v.len() == i,
            forall|j: int| 0 <= j < i ==> #[trigger] v@[j] == share(rw, j),
            forall|j: int| 0 <= j < n ==> 0 <= #[trigger] share(rw, j) <= SCALE,
        decreases n - i,
    {
        let e: u128 = raw[i] as u128;
        assert(e * SCALE <= u64::MAX * SCALE) by (nonlinear_arith)
            requires
                0 <= e <= u64::MAX,
                SCALE == 1_000_000_000,
        ;
        let f: u128 = e * (SCALE as u128) / t;
        let rest: u128 = e * (SCALE as u128) % t;
        proof {
            lemma_share(rw, i as int);
            lemma_split(rw, i as int);
            assert(share(rw, i as int) == f + if rest > 0 && handed < lost_steps {
                1int
            } else {
                0int
            });
        }
        if rest > 0 && handed < lost_steps {
            handed = handed + 1;
            v.push((f + 1) as i64);
        } else {
            v.push(f as i64);
        }
        i += 1;
    }
    assert(v@ =~= normalized(rw));
    v
}

/// Whether some error bar is zero.
fn has_zero(eb: &[u64]) -> (b: bool)
    ensures
        b <==> exists|i: int| 0 <= i < eb.len() && #[trigger] eb[i] == 0,
{
    let mut i: usize = 0;
    while i < eb.len()
        invariant
            i <= eb.len(),
            forall|j: int| 0 <= j < i ==> #[trigger] eb[j] != 0,
        decreases eb.len() - i,
    {
        if eb[i] == 0 {
            return true;
        }
        i += 1;
    }
    false
}

/// The inverse variances of error bars, none of which is zero.
fn derive_weights(eb: &[u64]) -> (raw: Vec<u64>)
    requires
        eb.len() >= 1,
        forall|i: int| 0 <= i < eb.len() ==> #[trigger] eb[i] > 0,
    ensures
        counts(raw@) == inverse_variances(eb@),
{
    let n: usize = eb.len();
    let mut least: u64 = eb[0];
    let mut i: usize = 1;
    while i < n
        invariant
            n == eb.len(),
            1 <= i <= n,
            least == smallest(eb@, i as int),
        decreases n - i,
    {
        if eb[i] < least {
            least = eb[i];
        }
        i += 1;
    }
    let mut raw: Vec<u64> = Vec::new();
    let mut i: usize = 0;
    while i < n
        invariant
            n == eb.len(),
            i <= n,
            raw.len() == i,
            least == smallest(eb@, n as int),
            forall|j: int| 0 <= j < eb.len() ==> #[trigger] eb[j] > 0,
            forall|j: int| 0 <= j < i ==> #[trigger] raw@[j] == inverse_variances(eb@)[j],
        decreases n - i,
    {
        let e: u128 = eb[i] as u128;
        let m: u128 = least as u128;
        proof {
            lemma_inverse_variance(eb@, i as int);
            lemma_smallest(eb@, n as int);
        }
        assert(0 < m * m <= u64::MAX * u64::MAX && 0 < e * e <= u64::MAX * u64::MAX && (m < e
            ==> m * m < e * e)) by (nonlinear_arith)
            requires
                0 < m <= u64::MAX,
                0 < e <= u64::MAX,
        ;
        let v: u128 = if e == m {
            LARGEST_WEIGHT as u128
        } else {
            let (q, r) = times_parts(e * e, LARGEST_WEIGHT as u128, m * m);
            proof {
                lemma_fundamental_div_mod_converse(
                    LARGEST_WEIGHT * (m * m),
                    (e * e) as int,
                    q as int,
                    r as int,
                );
            }
            q
        };
        assert(v == inverse_variances(eb@)[i as int]);
        raw.push(v as u64);
        i += 1;
    }
    assert(counts(raw@) =~= inverse_variances(eb@));
    raw
}

/// The weighted error bars of a sample, added in quadrature, under weights
/// that sum to `t`.
fn combined_error_of(raw: &Vec<u64>, eb: &[u64], t: u128) -> (xe: u64)
    requires
        raw.len() == eb.len(),
        t == total(counts(raw@)),
        t > 0,
    ensures
        xe == combined_error(counts(raw@), eb@),
{
    let n: usize = eb.len();
    // the sum of the squares, as `whole * t^2 + (c + g) * t + h`
    let mut whole: u128 = 0;
    let mut c = Quotient::new();
    let mut g = Quotient::new();
    let mut h = Quotient::new();
    let mut i: usize = 0;
    let ghost rw = counts(raw@);
    let ghost bp = bar_products(rw, eb@);
    let ghost sq = squares(bp);
    let ghost top: int = u64::MAX as int;
    proof {
        lemma_sum_grows(rw, 0, n as int);
        assert((t * t) * 0 + t * 0 + t * 0 + 0 == 0 && (top * t) * 0 == 0 && top * 0 == 0 && 0
            * t == 0) by (nonlinear_arith);
    }
    while i < n
        invariant
            n == eb.len(),
            n == raw.len(),
            i <= n,
            rw == counts(raw@),
            bp == bar_products(rw, eb@),
            sq == squares(bp),
            top == u64::MAX,
            t == total(rw),
            t > 0,
            c.r < t,
            g.r < t,
            h.r < t,
            sum(sq, i as int) == (t * t) * whole + t * c.value(t as int) + t * g.value(t as int)
                + h.value(t as int),
            0 <= sum(rw, i as int) <= t,
            0 <= sum(bp, i as int) <= top * sum(rw, i as int),
            sum(sq, i as int) <= (top * t) * sum(bp, i as int),
            h.value(t as int) <= i * t,
        decreases n - i,
    {
        let e: u128 = raw[i] as u128;
        let b: u128 = eb[i] as u128;
        assert(e * b <= u64::MAX * e <= u64::MAX * u64::MAX <= u128::MAX) by (nonlinear_arith)
            requires
                0 <= e <= u64::MAX,
                0 <= b <= u64::MAX,
        ;
        let p: u128 = e * b;
        let bq: u128 = p / t;
        let rho: u128 = p % t;
        let (gq, hr) = times_parts(t, rho, rho);
        let ghost s0 = sum(sq, i as int);
        let ghost cv = c.value(t as int);
        let ghost gv = g.value(t as int);
        let ghost hv = h.value(t as int);
        proof {
            let part = sum(rw, i as int);
            let psum = sum(bp, i as int);
            lemma_sum_grows(rw, i + 1, n as int);
            lemma_fundamental_div_mod(p as int, t as int);
            assert(bp[i as int] == p);
            assert(sq[i as int] == p * p);
            assert(0 <= e <= t);
            // p^2 = t^2 * bq^2 + t * (2 * bq * rho) + t * gq + hr
            assert(p * p == (t * t) * (bq * bq) + t * ((2 * bq) * rho) + t * gq + hr)
                by (nonlinear_arith)
                requires
                    p == t * bq + rho,
                    gq * t + hr == rho * rho,
            ;
            // the sums stay within the largest bar times the weights
            assert(top * (part + e) == top * part + top * e && p <= top * t && p * p <= (top
                * t) * p && (top * t) * (psum + p) == (top * t) * psum + (top * t) * p)
                by (nonlinear_arith)
                requires
                    p == e * b,
                    0 <= b <= top,
                    0 <= e <= t,
                    0 <= p,
            ;
            assert((top * t) * (psum + p) <= (top * t) * (top * t) && top * top <= u128::MAX)
                by (nonlinear_arith)
                requires
                    0 <= psum + p <= top * (part + e),
                    0 <= part + e <= t,
                    top == 0xffff_ffff_ffff_ffff,
                    t > 0,
            ;
            let s1 = s0 + p * p;
            let w1 = whole + bq * bq;
            let c1 = cv + (2 * bq) * rho;
            let g1 = gv + gq;
            let h1 = hv + hr;
            assert(s1 == (t * t) * w1 + t * c1 + t * g1 + h1) by (nonlinear_arith)
                requires
                    s0 == (t * t) * whole + t * cv + t * gv + hv,
                    s1 == s0 + p * p,
                    p * p == (t * t) * (bq * bq) + t * ((2 * bq) * rho) + t * gq + hr,
                    w1 == whole + bq * bq,
                    c1 == cv + (2 * bq) * rho,
                    g1 == gv + gq,
                    h1 == hv + hr,
            ;
            assert(cv >= 0 && gv >= 0 && hv >= 0 && bq * bq >= 0 && (2 * bq) * rho >= 0)
                by (nonlinear_arith)
                requires
                    cv == c.q * t + c.r,
                    gv == g.q * t + g.r,
                    hv == h.q * t + h.r,
                    t > 0,
                    bq >= 0,
                    rho >= 0,
            ;
            assert(w1 <= top * top && c1 <= (top * top) * t && g1 <= (top * top) * t && bq
                <= top) by (nonlinear_arith)
                requires
                    s1 == (t * t) * w1 + t * c1 + t * g1 + h1,
                    s1 <= (top * t) * (top * t),
                    w1 >= 0,
                    c1 >= 0,
                    g1 >= 0,
                    h1 >= 0,
                    t > 0,
                    top > 0,
                    w1 >= bq * bq,
                    bq >= 0,
            ;
            assert((top * top) * t <= u128::MAX * t && (i + 1) * t == i * t + t && (i + 1) * t
                <= u128::MAX * t && 1 * gq == gq && 1 * hr == hr) by (nonlinear_arith)
                requires
                    top * top <= u128::MAX,
                    t > 0,
                    0 <= i < 0xffff_ffff_ffff_ffff,
            ;
        }
        whole = whole + bq * bq;
        c.add_wide(t, 2 * bq, rho);
        g.add_wide(t, 1, gq);
        h.add_wide(t, 1, hr);
        i += 1;
    }
    // (c.r + g.r + h.q) / t, each step without leaving the machine range
    let first: bool = c.r >= t - g.r;
    let s1: u128 = if first {
        c.r - (t - g.r)
    } else {
        c.r + g.r
    };
    let a: u128 = h.q / t;
    let bb: u128 = h.q % t;
    let second: bool = s1 >= t - bb;
    let ghost m: int = if second { s1 - (t - bb) } else { s1 + bb };
    let ghost k: int = (if first { 1int } else { 0int }) + a + (if second { 1int } else { 0int });
    proof {
        let x = sum(sq, n as int);
        lemma_fundamental_div_mod(h.q as int, t as int);
        assert(c.r + g.r + h.q == k * t + m) by (nonlinear_arith)
            requires
                h.q == t * a + bb,
                s1 == c.r + g.r - (if first { t as int } else { 0int }),
                m == s1 + bb - (if second { t as int } else { 0int }),
                k == (if first { 1int } else { 0int }) + a + (if second { 1int } else { 0int }),
        ;
        lemma_quadrature(
            t as int,
            x,
            whole as int,
            c.q as int,
            c.r as int,
            g.q as int,
            g.r as int,
            h.q as int,
            h.r as int,
            k,
            m,
        );
        // the quotient is at most the square of the largest bar
        assert(x <= (top * top) * (t * t) && t * t > 0) by (nonlinear_arith)
            requires
                x <= (top * t) * sum(bp, n as int),
                0 <= sum(bp, n as int) <= top * t,
                t > 0,
                top > 0,
        ;
        lemma_div_is_ordered(x, (top * top) * (t * t), t * t);
        vstd::arithmetic::div_mod::lemma_div_by_multiple(top * top, t * t);
        assert(top * top <= u128::MAX) by (nonlinear_arith)
            requires
                top == 0xffff_ffff_ffff_ffff,
        ;
        assert(k >= 0 && c.q >= 0);
    }
    let mut quotient: u128 = whole + c.q + g.q + a;
    if first {
        quotient = quotient + 1;
    }
    if second {
        quotient = quotient + 1;
    }
    isqrt(quotient)
}

/// The error of the weighted mean, from that mean rounded down, `f`, and
/// what the rounding cut off, `rest`.
fn weighted_error_of(raw: &Vec<u64>, data: &[i64], t: u128, f: i64, rest: u128) -> (xe: u64)
    requires
        raw.len() == data.len(),
        data.len() >= 2,
        t == total(counts(raw@)),
        t > 0,
        total(products(counts(raw@), data@)) == f * t + rest,
        rest < t,
    ensures
        xe == weighted_error(counts(raw@), data@),
{
    let n: usize = data.len();
    let mut acc = Quotient::new();
    let mut i: usize = 0;
    let ghost rw = counts(raw@);
    let ghost sq = weighted_squared_deviations(rw, data@, f as int);
    proof {
        lemma_sum_grows(rw, 0, n as int);
    }
    while i < n
        invariant
            n == data.len(),
            n == raw.len(),
            i <= n,
            rw == counts(raw@),
            sq == weighted_squared_deviations(rw, data@, f as int),
            t == total(rw),
            t > 0,
            acc.r < t,
            acc.value(t as int) == sum(sq, i as int),
            0 <= sum(rw, i as int) <= t,
            sum(sq, i as int) <= (u64::MAX * u64::MAX) * sum(rw, i as int),
        decreases n - i,
    {
        let d2: u128 = squared_distance(data[i], f);
        let e: u128 = raw[i] as u128;
        proof {
            let big: int = u64::MAX * u64::MAX;
            let part = sum(rw, i as int);
            lemma_sum_grows(rw, i + 1, n as int);
            assert(e * d2 == sq[i as int]);
            // the sum is at most the largest square times the weights taken
            // in so far, which sum to at most `t`
            assert(sum(sq, i as int) + e * d2 <= big * (part + e) <= u128::MAX * t)
                by (nonlinear_arith)
                requires
                    sum(sq, i as int) <= big * part,
                    0 <= d2 <= big,
                    0 <= e,
                    0 <= part + e <= t,
                    0 <= big <= u128::MAX,
            ;
        }
        acc.add_wide(t, e, d2);
        i += 1;
    }
    // the squared distances are from the mean rounded down; what that
    // rounding cut off takes `rest^2 / t` from their sum
    let (g, h) = times_parts(t, rest, rest);
    let less: bool = acc.r < g || (acc.r == g && h > 0);
    proof {
        let x = total(weighted_spreads(rw, data@));
        lemma_weighted_spreads(rw, data@, f as int, rest as int, n as int);
        assert(x == (t * t) * sum(sq, n as int) - t * (rest * rest)) by (nonlinear_arith)
            requires
                x == (t * t) * sum(sq, n as int) - (2 * t * rest) * (total(products(rw, data@))
                    - f * total(rw)) + (rest * rest) * total(rw),
                total(products(rw, data@)) == f * t + rest,
                t == total(rw),
        ;
        lemma_weighted_quotient(
            t as int,
            sum(sq, n as int),
            acc.q as int,
            acc.r as int,
            rest as int,
            x,
        );
        assert(less <==> t * acc.r < rest * rest) by (nonlinear_arith)
            requires
                g * t + h == rest * rest,
                0 <= h < t,
                less <==> (acc.r < g || (acc.r == g && h > 0)),
        ;
        assert forall|j: int| 0 <= j < n implies 0 <= #[trigger] weighted_spreads(
            rw,
            data@,
        )[j] by {
            let c = t * data@[j] - total(products(rw, data@));
            assert(rw[j] * (c * c) >= 0) by (nonlinear_arith)
                requires
                    rw[j] >= 0,
            ;
        }
        lemma_sum_grows(weighted_spreads(rw, data@), 0, n as int);
        assert(t * t * t > 0) by (nonlinear_arith)
            requires
                t > 0,
        ;
        vstd::arithmetic::div_mod::lemma_div_pos_is_pos(x, t * t * t);
        vstd::arithmetic::div_mod::lemma_div_denominator(x, t * t * t, n - 1);
    }
    let whole: u128 = if less {
        acc.q - 1
    } else {
        acc.q
    };
    isqrt(whole / (n as u128 - 1))
}

/// The mean of a sample and the standard error of that mean.
///
/// The mean is the sum of the samples over their number `n`, rounded to the
/// nearest grid number. The error is the square root of `variance / n`,
/// where the variance is the sum of the squared distances from the mean over
/// `n - 1`; it is rounded down to the grid. A sample of fewer than two
/// entries has no variance and is refused.
pub fn steb0(data: &[i64]) -> (r: Result<(i64, u64), PreconditionError>)
    ensures
        r == steb0_spec(data@),
        r matches Ok((m, e)) ==> m == mean(data@) && e == standard_error(data@),
{
    let n: usize = data.len();
    if n < 2 {
        return Err(PreconditionError::TooFewSamples);
    }
    let (f, rest) = mean_parts(data);
    let xm: i64 = nearest(f, rest as u128, n as u128);
    assert(2 <= n * (n - 1) <= u128::MAX) by (nonlinear_arith)
        requires
            2 <= n <= u64::MAX,
    ;
    let d: u128 = (n as u128) * (n as u128 - 1);
    let mut acc = Quotient::new();
    let mut i: usize = 0;
    let ghost sq = squared_deviations(data@, f as int);
    while i < n
        invariant
            n == data.len(),
            n >= 2,
            i <= n,
            d == n * (n - 1),
            sq == squared_deviations(data@, f as int),
            acc.r < d,
            acc.value(d as int) == sum(sq, i as int),
            sum(sq, i as int) <= i * (u64::MAX * u64::MAX),
        decreases n - i,
    {
        let t: u128 = squared_distance(data[i], f);
        proof {
            let big: int = u64::MAX * u64::MAX;
            assert(t == sq[i as int]);
            // the quotient by `n * (n - 1)` of at most `n` squares fits
            assert((i + 1) * big == i * big + big && (i + 1) * big <= u128::MAX * d)
                by (nonlinear_arith)
                requires
                    0 <= i + 1 <= n,
                    n >= 2,
                    d == n * (n - 1),
                    0 <= big <= u128::MAX,
            ;
        }
        acc.add_product(d, 1, t);
        i += 1;
    }
    // the squared distances are from the mean rounded down; what that
    // rounding cut off takes `rest^2 / n` from their sum
    assert(rest * rest < n * n <= u128::MAX) by (nonlinear_arith)
        requires
            0 <= rest < n,
            n <= u64::MAX,
    ;
    let less: bool = if acc.r < n as u128 {
        assert(n * acc.r < n * n) by (nonlinear_arith)
            requires
                0 <= acc.r < n,
        ;
        (n as u128) * acc.r < (rest as u128) * (rest as u128)
    } else {
        false
    };
    proof {
        let a = total(spreads(data@));
        lemma_spreads(data@, f as int, rest as int, n as int);
        assert(a == (n * n) * sum(sq, n as int) - n * (rest * rest)) by (nonlinear_arith)
            requires
                a == (n * n) * sum(sq, n as int) - (2 * n * rest) * (total(samples(data@)) - n
                    * f) + n * (rest * rest),
                total(samples(data@)) == f * n + rest,
        ;
        if acc.r >= n {
            assert(n * acc.r >= rest * rest) by (nonlinear_arith)
                requires
                    acc.r >= n,
                    0 <= rest < n,
            ;
        }
        lemma_spread_quotient(
            n as int,
            sum(sq, n as int),
            acc.q as int,
            acc.r as int,
            rest as int,
            a,
        );
        assert forall|j: int| 0 <= j < n implies 0 <= #[trigger] spreads(data@)[j] by {
            let c = n * data@[j] - total(samples(data@));
            assert(c * c >= 0) by (nonlinear_arith);
        }
        lemma_sum_grows(spreads(data@), 0, n as int);
        assert(n * n * n * (n - 1) > 0) by (nonlinear_arith)
            requires
                n >= 2,
        ;
        vstd::arithmetic::div_mod::lemma_div_pos_is_pos(a, n * n * n * (n - 1));
    }
    let xe: u64 = isqrt(if less {
        acc.q - 1
    } else {
        acc.q
    });
    Ok((xm, xe))
}

/// The weighted mean of a sample and its error, under weights that are
/// normalized on the way.
///
/// The mean is the sum of the weighted samples over the sum of the weights,
/// rounded to the nearest grid number. The weights are divided by their sum,
/// and the caller's buffer holds the normalized weights on return: they sum
/// to one unit. The error is the square root of the weighted spread over
/// `n - 1`, where the spread is the sum of the squared distances from the
/// weighted mean, each times the share of its weight. A sample of fewer than two
/// entries is refused, and so are weights of which one is negative or which
/// sum to zero. Where the result is an error the buffer is left as it was.
pub fn steb1(data: &[i64], w: &mut Vec<i64>) -> (r: Result<(i64, u64), PreconditionError>)
    ensures
        r == steb1_spec(data@, old(w)@),
        final(w)@ == if r is Ok { normalized(samples(old(w)@)) } else { old(w)@ },
        r is Ok ==> total(samples(final(w)@)) == SCALE,
        r matches Ok((m, e)) ==> m == weighted_mean(samples(old(w)@), data@) && e
            == weighted_error(samples(old(w)@), data@),
{
    let n: usize = data.len();
    if w.len() != n {
        return Err(PreconditionError::LengthMismatch);
    }
    if n < 2 {
        return Err(PreconditionError::TooFewSamples);
    }
    let raw: Vec<u64> = match raw_of(w) {
        Some(raw) => raw,
        None => {
            return Err(PreconditionError::InvalidWeights);
        },
    };
    let t: u128 = total_of(&raw);
    proof {
        lemma_normalized_sums_to_one(samples(old(w)@));
    }
    let (f, rest) = weighted_parts(&raw, data, t);
    let xm: i64 = nearest(f, rest, t);
    let xe: u64 = weighted_error_of(&raw, data, t, f, rest);
    *w = shares_of(&raw, t);
    Ok((xm, xe))
}

/// The weighted mean of a sample and the error that the error bars of the
/// samples give that mean.
///
/// A negative first weight asks for weights made from the error bars: one
/// over the square of each, which needs every error bar above zero. The
/// mean is the sum of the weighted samples over the sum of the weights,
/// rounded to the nearest grid number; the error is the square root of the
/// sum of the squared weighted error bars, also where the weights were
/// handed in. The weights, made or handed in, are divided by their sum, and
/// the caller's buffer holds the normalized weights on return: they sum to
/// one unit. An empty sample is refused, and so are weights handed in of
/// which one is negative or which sum to zero. Where the result is an error
/// the buffer is left as it was.
pub fn steb2(data: &[i64], eb: &[u64], w: &mut Vec<i64>) -> (r: Result<
    (i64, u64),
    PreconditionError,
>)
    ensures
        r == steb2_spec(data@, eb@, old(w)@),
        final(w)@ == if r is Ok { normalized(chosen_weights(eb@, old(w)@)) } else { old(w)@ },
        r is Ok ==> total(samples(final(w)@)) == SCALE,
        r matches Ok((m, e)) ==> m == weighted_mean(chosen_weights(eb@, old(w)@), data@) && e
            == combined_error(chosen_weights(eb@, old(w)@), eb@),
{
    let n: usize = data.len();
    if eb.len() != n || w.len() != n {
        return Err(PreconditionError::LengthMismatch);
    }
    if n == 0 {
        return Err(PreconditionError::TooFewSamples);
    }
    let raw: Vec<u64> = if w[0] < 0 {
        if has_zero(eb) {
            return Err(PreconditionError::InvalidErrorBars);
        }
        proof {
            lemma_inverse_variances_valid(eb@);
        }
        derive_weights(eb)
    } else {
        match raw_of(w) {
            Some(raw) => raw,
            None => {
                return Err(PreconditionError::InvalidWeights);
            },
        }
    };
    let t: u128 = total_of(&raw);
    proof {
        lemma_normalized_sums_to_one(chosen_weights(eb@, old(w)@));
    }
    let xm: i64 = weighted_mean_of(&raw, data, t);
    let xe: u64 = combined_error_of(&raw, eb, t);
    *w = shares_of(&raw, t);
    Ok((xm, xe))
}

} // verus!
