//! The chi-square distribution, on top of a regularized lower incomplete
//! gamma function that the caller supplies.
//!
//! The primitive is called as `gamma_p(a, x)` with the shape `a` and the
//! argument `x` as grid numbers, and returns a grid number. The number of
//! degrees of freedom is a `u32`: half of any is a grid number, so every
//! number of them has its shape.
use crate::grid::floor_div;
use crate::grid::SCALE;
use crate::invert::closes_in;
use crate::invert::computes;
use crate::invert::ends_yield;
use crate::invert::fi1;
use crate::invert::graph;
use crate::invert::inversion;
use crate::invert::inverts;
use crate::invert::is_inverse;
use crate::invert::lemma_inverse_is_close;
use crate::invert::midpoint;
use crate::invert::moves_slowly;
use crate::invert::rises;
use crate::invert::InversionError;
use crate::invert::TOLERANCE;
use vstd::prelude::*;

verus! {

/// Largest number of steps by which the search for a bracket grows its
/// upper end.
pub const MAX_GROWTH: usize = 1000;

/// Why a quantile was not found.
#[derive(Debug, PartialEq, Eq, Clone, Copy)]
pub enum QuantileError {
    /// The distribution function stayed below the level at every upper end
    /// that was tried.
    BracketSearchFailed,
    /// The inversion over the bracket failed.
    Inversion(InversionError),
}

/// Half the number of degrees of freedom, the shape of the distribution.
pub open spec fn half_dof(nf: u32) -> int {
    nf * (SCALE / 2)
}

/// Half of `x`, rounded down to the grid.
pub open spec fn halved(x: i64) -> int {
    x / 2
}

/// The product of two grid numbers, rounded down to the grid.
pub open spec fn times(a: int, b: int) -> int {
    (a * b) / (SCALE as int)
}

/// The graph of the distribution function with `nf` degrees of freedom that
/// `gamma_p` gives: the primitive at shape `nf / 2` and argument `x / 2`.
pub open spec fn cdf_graph<G: Fn(i64, i64) -> i64>(gamma_p: G, nf: u32) -> spec_fn(
    i64,
    i64,
) -> bool {
    |x: i64, v: i64| gamma_p.ensures((half_dof(nf) as i64, halved(x) as i64), v)
}

fn shape_of(nf: u32) -> (a: i64)
    ensures
        a == half_dof(nf),
{
    (nf as i64) * 500_000_000
}

/// The distribution function at `chi2`, for `nf` degrees of freedom.
pub fn chi2_df<G: Fn(i64, i64) -> i64>(gamma_p: &G, chi2: i64, nf: u32) -> (r: i64)
    requires
        gamma_p.requires((half_dof(nf) as i64, halved(chi2) as i64)),
    ensures
        gamma_p.ensures((half_dof(nf) as i64, halved(chi2) as i64), r),
        cdf_graph(gamma_p, nf)(chi2, r),
{
    let a: i64 = shape_of(nf);
    let x: i64 = floor_div(chi2 as i128, 2) as i64;
    gamma_p(a, x)
}

/// The primitive at shape `nf / 2` and argument `(nf / 2) * chi2`, the
/// product rounded down to the grid.
///
/// The name is historical: the value is not the density of the
/// distribution.
pub fn chi2pdf_df<G: Fn(i64, i64) -> i64>(gamma_p: &G, chi2: i64, nf: u32) -> (r: i64)
    requires
        i64::MIN <= times(half_dof(nf), chi2 as int) <= i64::MAX,
        gamma_p.requires((half_dof(nf) as i64, times(half_dof(nf), chi2 as int) as i64)),
    ensures
        gamma_p.ensures((half_dof(nf) as i64, times(half_dof(nf), chi2 as int) as i64), r),
{
    let a: i64 = shape_of(nf);
    assert(-0x8000_0000_0000_0000 * 0x8000_0000_0000_0000 <= a * chi2 <= 0x8000_0000_0000_0000
        * 0x8000_0000_0000_0000) by (nonlinear_arith)
        requires
            -0x8000_0000_0000_0000 <= a <= 0x8000_0000_0000_0000,
            -0x8000_0000_0000_0000 <= chi2 <= 0x8000_0000_0000_0000,
    ;
    let x: i64 = floor_div((a as i128) * (chi2 as i128), SCALE as i128) as i64;
    gamma_p(a, x)
}

/// The first of the upper ends `j * step`, `(j + 1) * step`, .. at which `g`
/// reaches `q`, among at most `tries` of them and none beyond the largest
/// grid number.
pub open spec fn cover(g: spec_fn(i64) -> i64, q: i64, step: int, j: int, tries: nat) -> Option<
    i64,
>
    decreases tries,
{
    if tries == 0 || j * step > i64::MAX {
        None
    } else if g((j * step) as i64) >= q {
        Some((j * step) as i64)
    } else {
        cover(g, q, step, j + 1, (tries - 1) as nat)
    }
}

/// The quantile at level `q` of the distribution function `g` with `nf`
/// degrees of freedom.
///
/// The bracket starts at zero; its upper end grows in steps of `nf` units
/// until `g` reaches `q` there, and `g` is inverted over it.
pub open spec fn quantile(g: spec_fn(i64) -> i64, q: i64, nf: u32) -> Result<
    i64,
    QuantileError,
> {
    match cover(g, q, nf * SCALE, 1, MAX_GROWTH as nat) {
        None => Err(QuantileError::BracketSearchFailed),
        Some(hi) => match inversion(g, q, 0, hi) {
            Ok(x) => Ok(x),
            Err(e) => Err(QuantileError::Inversion(e)),
        },
    }
}

/// The upper end of the bracket after `j` steps of growth.
pub open spec fn upper_end(nf: u32, j: int) -> int {
    j * (nf * SCALE)
}

/// A value of the graph at the `j`-th upper end lies below `q`.
pub open spec fn misses(rel: spec_fn(i64, i64) -> bool, q: i64, nf: u32, j: int) -> bool {
    exists|v: i64| #[trigger] rel(upper_end(nf, j) as i64, v) && v < q
}

/// The search for a bracket ends at the `j`-th upper end: a value of the
/// graph there reaches `q`, after values below `q` at all the upper ends
/// before it.
pub open spec fn grows_to(rel: spec_fn(i64, i64) -> bool, q: i64, nf: u32, j: int) -> bool {
    &&& 1 <= j <= MAX_GROWTH
    &&& upper_end(nf, j) <= i64::MAX
    &&& exists|v: i64| #[trigger] rel(upper_end(nf, j) as i64, v) && v >= q
    &&& forall|k: int| 1 <= k < j ==> #[trigger] misses(rel, q, nf, k)
}

/// What a quantile search may return for a distribution function with the
/// graph `rel`, whether or not the function has one value at each point.
pub open spec fn finds_quantile(
    rel: spec_fn(i64, i64) -> bool,
    q: i64,
    nf: u32,
    r: Result<i64, QuantileError>,
) -> bool {
    match r {
        Ok(x) => exists|j: int| #[trigger]
            grows_to(rel, q, nf, j) && is_inverse(rel, q, 0, upper_end(nf, j) as i64, x),
        Err(QuantileError::BracketSearchFailed) => forall|j: int|
            1 <= j <= MAX_GROWTH && upper_end(nf, j) <= i64::MAX ==> #[trigger] misses(
                rel,
                q,
                nf,
                j,
            ),
        Err(QuantileError::Inversion(e)) => exists|j: int| #[trigger]
            grows_to(rel, q, nf, j) && inverts(rel, q, 0, upper_end(nf, j) as i64, Err(e)),
    }
}

/// What holds of a smaller graph holds of a larger one.
proof fn lemma_inverts_in_larger(
    small: spec_fn(i64, i64) -> bool,
    large: spec_fn(i64, i64) -> bool,
    y: i64,
    x1: i64,
    x2: i64,
    r: Result<i64, InversionError>,
)
    requires
        inverts(small, y, x1, x2, r),
        forall|x: i64, v: i64| #[trigger] small(x, v) ==> large(x, v),
    ensures
        inverts(large, y, x1, x2, r),
        r matches Ok(x) ==> is_inverse(large, y, x1, x2, x),
{
    match r {
        Ok(x) => {
            let (lo, hi) = choose|lo: i64, hi: i64| #[trigger]
                ends_yield(small, x1, x2, lo, hi) && lo <= y <= hi;
            assert(ends_yield(large, x1, x2, lo, hi));
            let (a, b, va, vb) = choose|a: i64, b: i64, va: i64, vb: i64| #[trigger]
                closes_in(small, y, x1, x2, a, b, va, vb) && x == midpoint(a as int, b as int);
            assert(closes_in(large, y, x1, x2, a, b, va, vb));
        },
        Err(_) => {},
    }
}

/// The quantile at level `q`: the point where the distribution function
/// with `nf` degrees of freedom is at `q`.
///
/// The bracket starts at zero. Its upper end grows in steps of `nf` units,
/// at most `MAX_GROWTH` times and not beyond the largest grid number, until
/// the distribution function reaches `q` there; if it never does the result
/// is `BracketSearchFailed`. The function is then inverted over the bracket.
///
/// Where `gamma_p` makes the distribution function a function `g`, the
/// result is `quantile(g, ..)`.
pub fn chi2_xq<G: Fn(i64, i64) -> i64>(gamma_p: &G, q: i64, nf: u32) -> (r: Result<
    i64,
    QuantileError,
>)
    requires
        1 <= nf,
        forall|x: i64| 0 <= x ==> #[trigger] gamma_p.requires((half_dof(nf) as i64, x)),
    ensures
        finds_quantile(cdf_graph(gamma_p, nf), q, nf, r),
        forall|g: spec_fn(i64) -> i64|
            computes(cdf_graph(gamma_p, nf), g, 0, i64::MAX) ==> r == #[trigger] quantile(
                g,
                q,
                nf,
            ),
{
    let ghost rel = cdf_graph(gamma_p, nf);
    let step: i128 = (nf as i128) * (SCALE as i128);
    let mut x2: i128 = 0;
    let mut j: usize = 0;
    let mut found: bool = false;
    while j < MAX_GROWTH && !found
        invariant
            1 <= nf,
            rel == cdf_graph(gamma_p, nf),
            forall|x: i64| 0 <= x ==> #[trigger] gamma_p.requires((half_dof(nf) as i64, x)),
            step == nf * SCALE,
            j <= MAX_GROWTH,
            x2 == j * step,
            0 <= x2 <= i64::MAX,
            found ==> grows_to(rel, q, nf, j as int),
            !found ==> forall|k: int| 1 <= k <= j ==> #[trigger] misses(rel, q, nf, k),
            forall|g: spec_fn(i64) -> i64|
                computes(rel, g, 0, i64::MAX) ==> #[trigger] cover(
                    g,
                    q,
                    step as int,
                    1,
                    MAX_GROWTH as nat,
                ) == (if found {
                    Some(x2 as i64)
                } else {
                    cover(g, q, step as int, j + 1, (MAX_GROWTH - j) as nat)
                }),
        decreases MAX_GROWTH - j + (if found { 0int } else { 1int }),
    {
        assert((j + 1) * step == j * step + step) by (nonlinear_arith);
        if x2 + step > i64::MAX as i128 {
            assert forall|g: spec_fn(i64) -> i64| computes(rel, g, 0, i64::MAX) implies Err::<
                i64,
                QuantileError,
            >(QuantileError::BracketSearchFailed) == #[trigger] quantile(g, q, nf) by {
                assert(cover(g, q, step as int, 1, MAX_GROWTH as nat) == cover(
                    g,
                    q,
                    step as int,
                    j + 1,
                    (MAX_GROWTH - j) as nat,
                ));
            }
            assert forall|k: int|
                1 <= k <= MAX_GROWTH && upper_end(nf, k) <= i64::MAX implies #[trigger] misses(
                rel,
                q,
                nf,
                k,
            ) by {
                if k > j {
                    assert(k * step >= (j + 1) * step) by (nonlinear_arith)
                        requires
                            k >= j + 1,
                            step >= 0,
                    ;
                }
            }
            return Err(QuantileError::BracketSearchFailed);
        }
        x2 = x2 + step;
        j += 1;
        let qt: i64 = chi2_df(gamma_p, x2 as i64, nf);
        assert(upper_end(nf, j as int) == x2);
        assert(rel(x2 as i64, qt));
        assert forall|g: spec_fn(i64) -> i64| computes(rel, g, 0, i64::MAX) implies g(x2 as i64)
            == qt by {}
        if qt >= q {
            found = true;
        } else {
            assert(misses(rel, q, nf, j as int));
        }
    }
    if !found {
        assert forall|g: spec_fn(i64) -> i64| computes(rel, g, 0, i64::MAX) implies Err::<
            i64,
            QuantileError,
        >(QuantileError::BracketSearchFailed) == #[trigger] quantile(g, q, nf) by {
            assert(cover(g, q, step as int, 1, MAX_GROWTH as nat) == cover(
                g,
                q,
                step as int,
                j + 1,
                (MAX_GROWTH - j) as nat,
            ));
        }
        return Err(QuantileError::BracketSearchFailed);
    }
    let hi: i64 = x2 as i64;
    let cdf = |x: i64| -> (v: i64)
        requires
            0 <= x,
        ensures
            cdf_graph(gamma_p, nf)(x, v),
        { chi2_df(gamma_p, x, nf) };
    let inv = fi1(cdf, q, 0, hi);
    proof {
        lemma_inverts_in_larger(graph(cdf), rel, q, 0, hi, inv);
        assert forall|g: spec_fn(i64) -> i64| computes(rel, g, 0, i64::MAX) implies inv
            == inversion(g, q, 0, hi) by {
            assert(computes(graph(cdf), g, 0, hi));
        }
        assert(hi == upper_end(nf, j as int));
    }
    match inv {
        Ok(x) => Ok(x),
        Err(e) => Err(QuantileError::Inversion(e)),
    }
}

/// The quantile at level `q` over the number of degrees of freedom, rounded
/// down to the grid.
///
/// The name is historical: the value is not a density at the quantile.
pub fn chi2pdf_xq<G: Fn(i64, i64) -> i64>(gamma_p: &G, q: i64, nf: u32) -> (r: Result<
    i64,
    QuantileError,
>)
    requires
        1 <= nf,
        forall|x: i64| 0 <= x ==> #[trigger] gamma_p.requires((half_dof(nf) as i64, x)),
    ensures
        match r {
            Ok(v) => exists|x: i64| #[trigger]
                finds_quantile(cdf_graph(gamma_p, nf), q, nf, Ok(x)) && v == x / (nf as i64),
            Err(e) => finds_quantile(cdf_graph(gamma_p, nf), q, nf, Err(e)),
        },
        forall|g: spec_fn(i64) -> i64|
            computes(cdf_graph(gamma_p, nf), g, 0, i64::MAX) ==> r == (match #[trigger] quantile(
                g,
                q,
                nf,
            ) {
                Ok(x) => Ok::<i64, QuantileError>((x / (nf as i64)) as i64),
                Err(e) => Err(e),
            }),
{
    match chi2_xq(gamma_p, q, nf) {
        Ok(x) => {
            proof {
                lemma_quantile_in_bracket(cdf_graph(gamma_p, nf), q, nf, x);
            }
            Ok(x / (nf as i64))
        },
        Err(e) => Err(e),
    }
}

/// A quantile lies in its bracket, which starts at zero.
pub proof fn lemma_quantile_in_bracket(
    rel: spec_fn(i64, i64) -> bool,
    q: i64,
    nf: u32,
    x: i64,
)
    requires
        finds_quantile(rel, q, nf, Ok(x)),
    ensures
        0 <= x,
{
    let j = choose|j: int| #[trigger]
        grows_to(rel, q, nf, j) && is_inverse(rel, q, 0, upper_end(nf, j) as i64, x);
    let hi = upper_end(nf, j) as i64;
    assert(0 <= upper_end(nf, j)) by (nonlinear_arith)
        requires
            upper_end(nf, j) == j * (nf * SCALE),
            j >= 1,
            nf >= 0,
            SCALE == 1_000_000_000,
    ;
    let (a, b, va, vb) = choose|a: i64, b: i64, va: i64, vb: i64| #[trigger]
        closes_in(rel, q, 0, hi, a, b, va, vb) && x == midpoint(a as int, b as int);
}

/// Where the primitive is zero at the argument zero, the distribution
/// function is zero at zero.
pub proof fn lemma_cdf_zero_at_zero<G: Fn(i64, i64) -> i64>(gamma_p: G, nf: u32)
    requires
        forall|v: i64| #[trigger] gamma_p.ensures((half_dof(nf) as i64, 0i64), v) ==> v == 0,
    ensures
        forall|v: i64| #[trigger] cdf_graph(gamma_p, nf)(0i64, v) ==> v == 0,
{
    assert(halved(0i64) == 0);
}

/// Where the primitive never falls as its argument grows, the distribution
/// function never falls.
pub proof fn lemma_cdf_never_falls<G: Fn(i64, i64) -> i64>(gamma_p: G, nf: u32)
    requires
        forall|a: i64, b: i64, va: i64, vb: i64|
            a <= b && #[trigger] gamma_p.ensures((half_dof(nf) as i64, a), va)
                && #[trigger] gamma_p.ensures((half_dof(nf) as i64, b), vb) ==> va <= vb,
    ensures
        rises(cdf_graph(gamma_p, nf), i64::MIN as int, i64::MAX as int),
{
    let rel = cdf_graph(gamma_p, nf);
    assert forall|a: i64, b: i64, va: i64, vb: i64|
        i64::MIN <= a <= b <= i64::MAX && #[trigger] rel(a, va) && #[trigger] rel(
            b,
            vb,
        ) implies va <= vb by {
        assert(halved(a) <= halved(b));
    }
}

/// Where the primitive stays between `lo` and `hi`, so does the distribution
/// function: it does not go above one where the primitive does not.
pub proof fn lemma_cdf_within<G: Fn(i64, i64) -> i64>(gamma_p: G, nf: u32, lo: i64, hi: i64)
    requires
        forall|t: i64, v: i64|
            #[trigger] gamma_p.ensures((half_dof(nf) as i64, t), v) ==> lo <= v <= hi,
    ensures
        forall|t: i64, v: i64| #[trigger] cdf_graph(gamma_p, nf)(t, v) ==> lo <= v <= hi,
{
}

/// Where the primitive stays at or above `level` from the argument `x` on,
/// the distribution function stays at or above `level` from `2 * x` on: as
/// the primitive tends to one, so does the distribution function.
pub proof fn lemma_cdf_reaches_level<G: Fn(i64, i64) -> i64>(
    gamma_p: G,
    nf: u32,
    x: i64,
    level: i64,
)
    requires
        forall|t: i64, v: i64|
            x <= t && #[trigger] gamma_p.ensures((half_dof(nf) as i64, t), v) ==> v >= level,
    ensures
        forall|t: i64, v: i64|
            2 * x <= t && #[trigger] cdf_graph(gamma_p, nf)(t, v) ==> v >= level,
{
    let rel = cdf_graph(gamma_p, nf);
    assert forall|t: i64, v: i64| 2 * x <= t && #[trigger] rel(t, v) implies v >= level by {
        assert(x <= halved(t));
    }
}

/// A quantile of a level that the distribution function takes lies where it
/// takes it.
///
/// Let the distribution function never fall from zero on and rise over
/// every stretch of `reach` steps there, and let it take the value `q` at
/// `origin`. Then a quantile that was found for the level `q` lies within
/// `reach + TOLERANCE` steps of `origin`.
pub proof fn lemma_quantile_returns(
    rel: spec_fn(i64, i64) -> bool,
    q: i64,
    nf: u32,
    reach: int,
    origin: i64,
    x: i64,
)
    requires
        finds_quantile(rel, q, nf, Ok(x)),
        0 <= origin,
        rel(origin, q),
        forall|a: i64, b: i64, va: i64, vb: i64|
            0 <= a && a + reach <= b && #[trigger] rel(a, va) && #[trigger] rel(b, vb) ==> va
                < vb,
    ensures
        -(reach + TOLERANCE) <= x - origin <= reach + TOLERANCE,
{
    let j = choose|j: int| #[trigger]
        grows_to(rel, q, nf, j) && is_inverse(rel, q, 0, upper_end(nf, j) as i64, x);
    let hi = upper_end(nf, j) as i64;
    assert(0 <= upper_end(nf, j)) by (nonlinear_arith)
        requires
            upper_end(nf, j) == j * (nf * SCALE),
            j >= 1,
            nf >= 0,
            SCALE == 1_000_000_000,
    ;
    let (a, b, va, vb) = choose|a: i64, b: i64, va: i64, vb: i64| #[trigger]
        closes_in(rel, q, 0, hi, a, b, va, vb) && x == midpoint(a as int, b as int);
    // the level is not taken a stretch beyond the end with the value above
    // it, nor a stretch before the end with the value below it
    assert(origin < b + reach);
    assert(a < origin + reach);
}

/// The distribution function at a quantile is back at the level.
///
/// Let the distribution function never fall over the grid numbers from zero
/// on, and let it move by at most `slack` over any `TOLERANCE` steps there.
/// Then at a quantile that was found for the level `q` its value is within
/// `slack` of `q`.
pub proof fn lemma_quantile_round_trip(
    rel: spec_fn(i64, i64) -> bool,
    q: i64,
    nf: u32,
    slack: int,
    x: i64,
)
    requires
        finds_quantile(rel, q, nf, Ok(x)),
        rises(rel, 0, i64::MAX as int),
        moves_slowly(rel, 0, i64::MAX, slack),
    ensures
        forall|v: i64| #[trigger] rel(x, v) ==> -slack <= v - q <= slack,
{
    let j = choose|j: int| #[trigger]
        grows_to(rel, q, nf, j) && is_inverse(rel, q, 0, upper_end(nf, j) as i64, x);
    assert(0 <= upper_end(nf, j)) by (nonlinear_arith)
        requires
            upper_end(nf, j) == j * (nf * SCALE),
            j >= 1,
            nf >= 0,
            SCALE == 1_000_000_000,
    ;
    lemma_inverse_is_close(rel, q, 0, upper_end(nf, j) as i64, slack, x);
}

} // verus!
