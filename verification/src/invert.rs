//! Inversion of a monotone function by bisection.
use vstd::arithmetic::power2::lemma2_to64;
use vstd::arithmetic::power2::lemma2_to64_rest;
use vstd::arithmetic::power2::lemma_pow2_strictly_increases;
use vstd::arithmetic::power2::lemma_pow2_unfold;
use vstd::arithmetic::power2::pow2;
use vstd::prelude::*;

verus! {

/// Width, in grid steps, at which a bracket counts as closed.
pub const TOLERANCE: i64 = 10;

/// Largest number of bisection steps.
pub const MAX_STEPS: usize = 1000;

/// Why an inversion gave no result.
#[derive(Debug, PartialEq, Eq, Clone, Copy)]
pub enum InversionError {
    /// The target `y` lies outside `[y1, y2]`, the values at the two ends of
    /// the bracket in ascending order.
    Domain { y1: i64, y: i64, y2: i64 },
    /// The bracket was still wider than the tolerance after `steps` steps.
    Convergence { y1: i64, y: i64, y2: i64, steps: usize },
}

/// `x` lies between `a` and `b`, whichever of the two is larger.
pub open spec fn between(a: int, x: int, b: int) -> bool {
    (a <= x <= b) || (b <= x <= a)
}

/// The point halfway between `a` and `b`, rounded down to the grid.
pub open spec fn midpoint(a: int, b: int) -> int {
    (a + b) / 2
}

/// The pairs `(x, v)` for which `f` may return `v` at `x`.
pub open spec fn graph<F: Fn(i64) -> i64>(f: F) -> spec_fn(i64, i64) -> bool {
    |x: i64, v: i64| f.ensures((x,), v)
}

/// `lo` is a value at one end of the bracket and `hi` one at the other.
pub open spec fn ends_yield(
    rel: spec_fn(i64, i64) -> bool,
    x1: i64,
    x2: i64,
    lo: i64,
    hi: i64,
) -> bool {
    (rel(x1, lo) && rel(x2, hi)) || (rel(x1, hi) && rel(x2, lo))
}

/// Values at the ends of the bracket enclose `y`.
pub open spec fn encloses(rel: spec_fn(i64, i64) -> bool, y: i64, x1: i64, x2: i64) -> bool {
    exists|lo: i64, hi: i64| #[trigger] ends_yield(rel, x1, x2, lo, hi) && lo <= y <= hi
}

/// `a` and `b` lie in the bracket, at most `TOLERANCE` apart, with a value
/// `va <= y` at `a` and a value `vb >= y` at `b`.
pub open spec fn closes_in(
    rel: spec_fn(i64, i64) -> bool,
    y: i64,
    x1: i64,
    x2: i64,
    a: i64,
    b: i64,
    va: i64,
    vb: i64,
) -> bool {
    &&& between(x1 as int, a as int, x2 as int)
    &&& between(x1 as int, b as int, x2 as int)
    &&& -TOLERANCE <= b - a <= TOLERANCE
    &&& rel(a, va)
    &&& rel(b, vb)
    &&& va <= y <= vb
}

/// `x` is the midpoint of a closed bracket around the target.
pub open spec fn is_inverse(
    rel: spec_fn(i64, i64) -> bool,
    y: i64,
    x1: i64,
    x2: i64,
    x: i64,
) -> bool {
    exists|a: i64, b: i64, va: i64, vb: i64| #[trigger]
        closes_in(rel, y, x1, x2, a, b, va, vb) && x == midpoint(a as int, b as int)
}

/// What an inversion may return for a function with the graph `rel`,
/// whether or not the function has one value at each point.
pub open spec fn inverts(
    rel: spec_fn(i64, i64) -> bool,
    y: i64,
    x1: i64,
    x2: i64,
    r: Result<i64, InversionError>,
) -> bool {
    match r {
        Ok(x) => encloses(rel, y, x1, x2) && is_inverse(rel, y, x1, x2, x),
        Err(InversionError::Domain { y1, y: target, y2 }) => {
            &&& target == y
            &&& y1 <= y2
            &&& !(y1 <= y <= y2)
            &&& ends_yield(rel, x1, x2, y1, y2)
        },
        Err(InversionError::Convergence { .. }) => false,
    }
}

/// Over the bracket, every value in the graph `rel` is the value of `g`.
pub open spec fn computes(
    rel: spec_fn(i64, i64) -> bool,
    g: spec_fn(i64) -> i64,
    x1: i64,
    x2: i64,
) -> bool {
    forall|x: i64, v: i64|
        between(x1 as int, x as int, x2 as int) && #[trigger] rel(x, v) ==> v == g(x)
}

/// The midpoint that at most `steps` halvings of the bracket `(a, b)` end
/// in. Each halving moves `a` to the midpoint where `g` is at most `y`
/// there, and `b` otherwise; the bracket is closed once its ends are at most
/// `TOLERANCE` apart.
pub open spec fn bisect(g: spec_fn(i64) -> i64, y: i64, a: i64, b: i64, steps: nat) -> Option<
    i64,
>
    decreases steps,
{
    if steps == 0 {
        None
    } else {
        let m = midpoint(a as int, b as int) as i64;
        let a2 = if g(m) <= y { m } else { a };
        let b2 = if g(m) <= y { b } else { m };
        if -TOLERANCE <= b2 - a2 <= TOLERANCE {
            Some(midpoint(b2 as int, a2 as int) as i64)
        } else {
            bisect(g, y, a2, b2, (steps - 1) as nat)
        }
    }
}

/// The inverse of `g` at `y` over the bracket `(x1, x2)`.
///
/// The end with the smaller value of `g` becomes the lower end, so that a
/// falling `g` is treated like a rising one. A target outside the two values
/// is a `Domain` error; otherwise the bracket is bisected.
pub open spec fn inversion(g: spec_fn(i64) -> i64, y: i64, x1: i64, x2: i64) -> Result<
    i64,
    InversionError,
> {
    let swap = g(x1) > g(x2);
    let a = if swap { x2 } else { x1 };
    let b = if swap { x1 } else { x2 };
    let y1 = if swap { g(x2) } else { g(x1) };
    let y2 = if swap { g(x1) } else { g(x2) };
    if !(y1 <= y <= y2) {
        Err(InversionError::Domain { y1, y, y2 })
    } else {
        match bisect(g, y, a, b, MAX_STEPS as nat) {
            Some(x) => Ok(x),
            None => Err(InversionError::Convergence { y1, y, y2, steps: MAX_STEPS }),
        }
    }
}

fn halfway(a: i64, b: i64) -> (m: i64)
    ensures
        m == midpoint(a as int, b as int),
{
    let s: i128 = a as i128 + b as i128;
    let h: i128 = if s >= 0 {
        s / 2
    } else {
        -((1 - s) / 2)
    };
    h as i64
}

fn is_closed(a: i64, b: i64) -> (c: bool)
    ensures
        c == (-TOLERANCE <= b - a <= TOLERANCE),
{
    let d: i128 = b as i128 - a as i128;
    -(TOLERANCE as i128) <= d && d <= TOLERANCE as i128
}

/// Finds `x` in the bracket `(x1, x2)` with `f(x)` at `y`, for `f` that
/// rises or falls over the bracket.
///
/// The two ends are evaluated first; when their values do not enclose `y`
/// the result is `Domain`. Otherwise the bracket is halved, keeping a value
/// of at most `y` at one end and one of at least `y` at the other, until it
/// is `TOLERANCE` wide, and its midpoint is returned. On this grid that
/// takes fewer than `MAX_STEPS` halvings, so `Convergence` never comes back.
///
/// Where `f` computes a function `g`, the result is `inversion(g, ..)`.
pub fn fi1<F: Fn(i64) -> i64>(f: F, y: i64, x1: i64, x2: i64) -> (r: Result<i64, InversionError>)
    requires
        forall|x: i64| between(x1 as int, x as int, x2 as int) ==> #[trigger] f.requires((x,)),
    ensures
        inverts(graph(f), y, x1, x2, r),
        forall|g: spec_fn(i64) -> i64|
            computes(graph(f), g, x1, x2) ==> r == #[trigger] inversion(g, y, x1, x2),
{
    let ghost rel = graph(f);
    let mut xx1: i64 = x1;
    let mut xx2: i64 = x2;
    let mut y1: i64 = f(xx1);
    let mut y2: i64 = f(xx2);
    assert(rel(x1, y1) && rel(x2, y2));
    if y1 > y2 {
        xx1 = x2;
        xx2 = x1;
        let t: i64 = y1;
        y1 = y2;
        y2 = t;
    }
    assert(ends_yield(rel, x1, x2, y1, y2));
    if !(y >= y1 && y <= y2) {
        return Err(InversionError::Domain { y1, y, y2 });
    }
    let ghost mut va: i64 = y1;
    let ghost mut vb: i64 = y2;
    let mut i: usize = 0;
    proof {
        lemma2_to64();
    }
    while i < MAX_STEPS
        invariant
            rel == graph(f),
            forall|x: i64|
                between(x1 as int, x as int, x2 as int) ==> #[trigger] f.requires((x,)),
            between(x1 as int, xx1 as int, x2 as int),
            between(x1 as int, xx2 as int, x2 as int),
            rel(xx1, va),
            rel(xx2, vb),
            va <= y <= vb,
            encloses(rel, y, x1, x2),
            forall|g: spec_fn(i64) -> i64|
                computes(rel, g, x1, x2) ==> #[trigger] inversion(g, y, x1, x2) == (match bisect(
                    g,
                    y,
                    xx1,
                    xx2,
                    (MAX_STEPS - i) as nat,
                ) {
                    Some(x) => Ok::<i64, InversionError>(x),
                    None => Err(InversionError::Convergence { y1, y, y2, steps: MAX_STEPS }),
                }),
            // each step halves the width: after `i` of them the width `w`
            // has `2^i * (w - 1) < 2^64`, and the bracket is still open
            i <= 64,
            i > 0 ==> !(-TOLERANCE <= xx2 - xx1 <= TOLERANCE),
            xx2 >= xx1 ==> pow2(i as nat) * (xx2 - xx1 - 1) < 0x1_0000_0000_0000_0000,
            xx2 < xx1 ==> pow2(i as nat) * (xx1 - xx2 - 1) < 0x1_0000_0000_0000_0000,
        decreases MAX_STEPS - i,
    {
        let ghost w: int = if xx2 >= xx1 { xx2 - xx1 } else { xx1 - xx2 };
        let ghost old1 = xx1;
        let ghost old2 = xx2;
        proof {
            // an open bracket is more than ten steps wide, so `i < 61`
            lemma2_to64_rest();
            if i >= 61 {
                if i > 61 {
                    lemma_pow2_strictly_increases(61, i as nat);
                }
                assert(pow2(i as nat) * (w - 1) >= 0x2000_0000_0000_0000 * 10)
                    by (nonlinear_arith)
                    requires
                        pow2(i as nat) >= 0x2000_0000_0000_0000,
                        w - 1 >= 10,
                ;
            }
        }
        let xx: i64 = halfway(xx1, xx2);
        let ff: i64 = f(xx);
        assert(rel(xx, ff));
        if ff <= y {
            xx1 = xx;
            proof {
                va = ff;
            }
        } else {
            xx2 = xx;
            proof {
                vb = ff;
            }
        }
        i += 1;
        proof {
            let ghost w2: int = if xx2 >= xx1 { xx2 - xx1 } else { xx1 - xx2 };
            assert(2 * (w2 - 1) <= w - 1);
            lemma_pow2_unfold(i as nat);
            assert(pow2(i as nat) * (w2 - 1) <= pow2((i - 1) as nat) * (w - 1))
                by (nonlinear_arith)
                requires
                    pow2(i as nat) == 2 * pow2((i - 1) as nat),
                    2 * (w2 - 1) <= w - 1,
                    pow2((i - 1) as nat) >= 0,
            ;
        }
        let closed: bool = is_closed(xx1, xx2);
        proof {
            assert forall|g: spec_fn(i64) -> i64| computes(rel, g, x1, x2) implies bisect(
                g,
                y,
                old1,
                old2,
                (MAX_STEPS - (i - 1)) as nat,
            ) == (if closed {
                Some(midpoint(xx2 as int, xx1 as int) as i64)
            } else {
                bisect(g, y, xx1, xx2, (MAX_STEPS - i) as nat)
            }) by {
                assert(g(xx) == ff);
            }
        }
        if closed {
            let x: i64 = halfway(xx2, xx1);
            assert(closes_in(rel, y, x1, x2, xx1, xx2, va, vb));
            assert(midpoint(xx2 as int, xx1 as int) == midpoint(xx1 as int, xx2 as int));
            return Ok(x);
        }
    }
    Err(InversionError::Convergence { y1, y, y2, steps: MAX_STEPS })
}

/// The graph `rel` never falls from left to right over `[lo, hi]`.
pub open spec fn rises(rel: spec_fn(i64, i64) -> bool, lo: int, hi: int) -> bool {
    forall|a: i64, b: i64, va: i64, vb: i64|
        lo <= a <= b <= hi && #[trigger] rel(a, va) && #[trigger] rel(b, vb) ==> va <= vb
}

/// The graph `rel` never rises from left to right over `[lo, hi]`.
pub open spec fn falls(rel: spec_fn(i64, i64) -> bool, lo: int, hi: int) -> bool {
    forall|a: i64, b: i64, va: i64, vb: i64|
        lo <= a <= b <= hi && #[trigger] rel(a, va) && #[trigger] rel(b, vb) ==> va >= vb
}

/// The graph is monotone over the bracket, in one direction or the other.
pub open spec fn monotone(rel: spec_fn(i64, i64) -> bool, x1: i64, x2: i64) -> bool {
    let lo = if x1 <= x2 { x1 as int } else { x2 as int };
    let hi = if x1 <= x2 { x2 as int } else { x1 as int };
    rises(rel, lo, hi) || falls(rel, lo, hi)
}

/// Between two points of the bracket at most `TOLERANCE` apart, the graph
/// moves by at most `slack`.
pub open spec fn moves_slowly(rel: spec_fn(i64, i64) -> bool, x1: i64, x2: i64, slack: int) -> bool {
    forall|a: i64, b: i64, va: i64, vb: i64|
        between(x1 as int, a as int, x2 as int) && between(x1 as int, b as int, x2 as int)
            && -TOLERANCE <= b - a <= TOLERANCE && #[trigger] rel(a, va) && #[trigger] rel(b, vb)
            ==> -slack <= vb - va <= slack
}

/// The midpoint of a closed bracket around the target is close to a point
/// where the function is at the target: for a monotone function that moves
/// by at most `slack` over any `TOLERANCE` steps, every value at the
/// midpoint is within `slack` of `y`.
pub proof fn lemma_inverse_is_close(
    rel: spec_fn(i64, i64) -> bool,
    y: i64,
    x1: i64,
    x2: i64,
    slack: int,
    x: i64,
)
    requires
        is_inverse(rel, y, x1, x2, x),
        monotone(rel, x1, x2),
        moves_slowly(rel, x1, x2, slack),
    ensures
        between(x1 as int, x as int, x2 as int),
        forall|v: i64| #[trigger] rel(x, v) ==> -slack <= v - y <= slack,
{
    let (a, b, va, vb) = choose|a: i64, b: i64, va: i64, vb: i64| #[trigger]
        closes_in(rel, y, x1, x2, a, b, va, vb) && x == midpoint(a as int, b as int);
    assert(between(a as int, x as int, b as int));
    assert forall|v: i64| #[trigger] rel(x, v) implies -slack <= v - y <= slack by {
        assert(between(va as int, v as int, vb as int));
    }
}

/// Inverting and applying again comes back to the target.
///
/// Let a function be monotone over the bracket, let `y` lie between its
/// values at the two ends, and let it move by at most `slack` over any
/// `TOLERANCE` steps. Then its inversion succeeds, and the function at the
/// result is within `slack` of `y`. Monotonicity alone does not bound the
/// distance: a function that jumps over `y` has no point where it comes
/// close.
pub proof fn lemma_round_trip(
    rel: spec_fn(i64, i64) -> bool,
    y: i64,
    x1: i64,
    x2: i64,
    slack: int,
    r: Result<i64, InversionError>,
)
    requires
        inverts(rel, y, x1, x2, r),
        monotone(rel, x1, x2),
        moves_slowly(rel, x1, x2, slack),
        forall|v1: i64, v2: i64|
            #[trigger] rel(x1, v1) && #[trigger] rel(x2, v2) ==> between(
                v1 as int,
                y as int,
                v2 as int,
            ),
    ensures
        r is Ok,
        forall|v: i64| #[trigger] rel(r->Ok_0, v) ==> -slack <= v - y <= slack,
{
    match r {
        Ok(x) => {
            lemma_inverse_is_close(rel, y, x1, x2, slack, x);
        },
        Err(InversionError::Domain { y1, y: target, y2 }) => {
            assert(between(y1 as int, y as int, y2 as int));
        },
        Err(InversionError::Convergence { .. }) => {},
    }
}

} // verus!
