//! Arithmetic on grid numbers.
use vstd::arithmetic::div_mod::lemma_fundamental_div_mod;
use vstd::arithmetic::div_mod::lemma_fundamental_div_mod_converse;
use vstd::prelude::*;

verus! {

/// Number of grid steps in one unit.
pub const SCALE: i64 = 1_000_000_000;

/// `r` is the integer square root of `n`: the largest `r` with `r * r <= n`.
pub open spec fn is_sqrt(n: int, r: int) -> bool {
    0 <= r && r * r <= n < (r + 1) * (r + 1)
}

/// The integer square root of `n`.
pub open spec fn sqrt_floor(n: int) -> int {
    choose|r: int| is_sqrt(n, r)
}

/// The quotient of `a` by `d`, rounded to the nearest integer, a tie away
/// from zero.
pub open spec fn rounded(a: int, d: int) -> int {
    if a >= 0 {
        (2 * a + d) / (2 * d)
    } else {
        -((d - 2 * a) / (2 * d))
    }
}

/// Rounding to the nearest is symmetric: the quotient of the negated
/// dividend is the negated quotient.
pub proof fn lemma_rounded_mirror(a: int, d: int)
    requires
        d > 0,
    ensures
        rounded(-a, d) == -rounded(a, d),
{
    if a == 0 {
        lemma_fundamental_div_mod_converse(d, 2 * d, 0, d);
    }
}

/// The rounded quotient from the quotient `f` rounded down and its
/// remainder `r`: one more than `f` where the remainder is more than half
/// of `d`, or is half of it and the dividend is not negative.
pub proof fn lemma_rounded_parts(a: int, d: int, f: int, r: int)
    requires
        d > 0,
        a == f * d + r,
        0 <= r < d,
    ensures
        rounded(a, d) == f + (if 2 * r > d || (2 * r == d && a >= 0) {
            1int
        } else {
            0int
        }),
{
    if a >= 0 {
        if 2 * r >= d {
            assert(2 * a + d == (f + 1) * (2 * d) + (2 * r - d)) by (nonlinear_arith)
                requires
                    a == f * d + r,
            ;
            lemma_fundamental_div_mod_converse(2 * a + d, 2 * d, f + 1, 2 * r - d);
        } else {
            assert(2 * a + d == f * (2 * d) + (2 * r + d)) by (nonlinear_arith)
                requires
                    a == f * d + r,
            ;
            lemma_fundamental_div_mod_converse(2 * a + d, 2 * d, f, 2 * r + d);
        }
    } else {
        if 2 * r > d {
            assert(d - 2 * a == (-f - 1) * (2 * d) + (3 * d - 2 * r)) by (nonlinear_arith)
                requires
                    a == f * d + r,
            ;
            lemma_fundamental_div_mod_converse(d - 2 * a, 2 * d, -f - 1, 3 * d - 2 * r);
        } else {
            assert(d - 2 * a == (-f) * (2 * d) + (d - 2 * r)) by (nonlinear_arith)
                requires
                    a == f * d + r,
            ;
            lemma_fundamental_div_mod_converse(d - 2 * a, 2 * d, -f, d - 2 * r);
        }
    }
}

/// A rounded quotient lies between any two integers that the exact quotient
/// lies between.
pub proof fn lemma_rounded_bounds(a: int, d: int, lo: int, hi: int)
    requires
        d > 0,
        lo * d <= a <= hi * d,
    ensures
        lo <= rounded(a, d) <= hi,
{
    lemma_fundamental_div_mod(a, d);
    let f = a / d;
    let r = a % d;
    assert(a == f * d + r) by (nonlinear_arith)
        requires
            a == d * f + r,
    ;
    lemma_rounded_parts(a, d, f, r);
    assert(lo <= f && (f < hi || (f == hi && r == 0))) by (nonlinear_arith)
        requires
            a == f * d + r,
            0 <= r < d,
            lo * d <= a <= hi * d,
    ;
}

/// A factor common to dividend and divisor leaves the quotient as it is.
pub proof fn lemma_div_cancel(a: int, d: int, c: int)
    requires
        d > 0,
        c > 0,
    ensures
        (c * a) / (c * d) == a / d,
{
    lemma_fundamental_div_mod(a, d);
    let q = a / d;
    let r = a % d;
    assert(c * a == q * (c * d) + c * r && 0 <= c * r < c * d) by (nonlinear_arith)
        requires
            a == d * q + r,
            0 <= r < d,
            c > 0,
    ;
    lemma_fundamental_div_mod_converse(c * a, c * d, q, c * r);
}

/// A factor common to dividend and divisor leaves the rounded quotient as
/// it is.
pub proof fn lemma_rounded_cancel(a: int, d: int, c: int)
    requires
        d > 0,
        c > 0,
    ensures
        rounded(c * a, c * d) == rounded(a, d),
{
    lemma_fundamental_div_mod(a, d);
    let f = a / d;
    let r = a % d;
    assert(a == f * d + r) by (nonlinear_arith)
        requires
            a == d * f + r,
    ;
    lemma_rounded_parts(a, d, f, r);
    assert(c * a == f * (c * d) + c * r && 0 <= c * r < c * d && c * d > 0 && (2 * (c * r) > c
        * d <==> 2 * r > d) && (2 * (c * r) == c * d <==> 2 * r == d) && (c * a >= 0 <==> a
        >= 0)) by (nonlinear_arith)
        requires
            a == f * d + r,
            0 <= r < d,
            c > 0,
    ;
    lemma_rounded_parts(c * a, c * d, f, c * r);
}

/// A whole number added to the quotient is added to the rounded quotient,
/// but for a tie that comes to lie on the other side of zero, which is
/// rounded the other way.
pub proof fn lemma_rounded_shift(a: int, d: int, c: int)
    requires
        d > 0,
    ensures
        rounded(a, d) + c - 1 <= rounded(a + c * d, d) <= rounded(a, d) + c + 1,
        2 * (a % d) != d ==> rounded(a + c * d, d) == rounded(a, d) + c,
{
    lemma_fundamental_div_mod(a, d);
    let f = a / d;
    let r = a % d;
    assert(a == f * d + r && a + c * d == (f + c) * d + r) by (nonlinear_arith)
        requires
            a == d * f + r,
    ;
    lemma_rounded_parts(a, d, f, r);
    lemma_rounded_parts(a + c * d, d, f + c, r);
}

/// Every number that is not negative has a square root.
pub proof fn lemma_sqrt_exists(n: int)
    requires
        n >= 0,
    ensures
        is_sqrt(n, sqrt_floor(n)),
    decreases n,
{
    if n == 0 {
        assert(is_sqrt(0, 0));
    } else {
        lemma_sqrt_exists(n - 1);
        let r = sqrt_floor(n - 1);
        if (r + 1) * (r + 1) <= n {
            assert(n < (r + 2) * (r + 2)) by (nonlinear_arith)
                requires
                    n - 1 < (r + 1) * (r + 1),
                    r >= 0,
            ;
            assert(is_sqrt(n, r + 1));
        } else {
            assert(is_sqrt(n, r));
        }
    }
}

/// The square root of `s * s` times a number is `s` times the square root
/// of the number, up to the `s` steps that the rounding of that root takes.
pub proof fn lemma_sqrt_scales(a: int, big: int, s: int)
    requires
        a >= 0,
        big > 0,
        s >= 1,
    ensures
        s * sqrt_floor(a / big) <= sqrt_floor((s * s * a) / big) < s * (sqrt_floor(a / big) + 1),
{
    let q = a / big;
    let q2 = (s * s * a) / big;
    lemma_fundamental_div_mod(a, big);
    lemma_fundamental_div_mod(s * s * a, big);
    assert(s * s * a >= 0) by (nonlinear_arith)
        requires
            a >= 0,
    ;
    vstd::arithmetic::div_mod::lemma_div_pos_is_pos(a, big);
    vstd::arithmetic::div_mod::lemma_div_pos_is_pos(s * s * a, big);
    lemma_sqrt_exists(q);
    lemma_sqrt_exists(q2);
    let e = sqrt_floor(q);
    let e2 = sqrt_floor(q2);
    let ra = a % big;
    let rb = (s * s * a) % big;
    // e * e <= q, so (s * e)^2 * big <= s^2 * a, so (s * e)^2 <= q2
    assert((s * e) * (s * e) <= q2) by (nonlinear_arith)
        requires
            e * e <= q,
            a == big * q + ra,
            0 <= ra < big,
            s * s * a == big * q2 + rb,
            0 <= rb < big,
            s >= 1,
            e >= 0,
    ;
    if s * e > e2 {
        assert((e2 + 1) * (e2 + 1) <= (s * e) * (s * e)) by (nonlinear_arith)
            requires
                0 <= e2 + 1 <= s * e,
        ;
    }
    // q < (e + 1)^2, so s^2 * a < (s * (e + 1))^2 * big, so q2 < (s * (e + 1))^2
    assert(q2 < (s * (e + 1)) * (s * (e + 1))) by (nonlinear_arith)
        requires
            q + 1 <= (e + 1) * (e + 1),
            a == big * q + ra,
            0 <= ra < big,
            s * s * a == big * q2 + rb,
            0 <= rb < big,
            s >= 1,
            e >= 0,
    ;
    if e2 >= s * (e + 1) {
        assert((s * (e + 1)) * (s * (e + 1)) <= e2 * e2) by (nonlinear_arith)
            requires
                0 <= s * (e + 1) <= e2,
        ;
    }
}

/// A square root is unique.
pub proof fn lemma_sqrt_unique(n: int, r: int, s: int)
    requires
        is_sqrt(n, r),
        is_sqrt(n, s),
    ensures
        r == s,
{
    if r < s {
        assert((r + 1) * (r + 1) <= s * s) by (nonlinear_arith)
            requires
                0 <= r + 1 <= s,
        ;
    } else if s < r {
        assert((s + 1) * (s + 1) <= r * r) by (nonlinear_arith)
            requires
                0 <= s + 1 <= r,
        ;
    }
}

/// Quotient rounded down, also for a negative dividend.
pub fn floor_div(a: i128, b: i128) -> (q: i128)
    requires
        b > 0,
    ensures
        q == a as int / b as int,
{
    if a >= 0 {
        a / b
    } else {
        let m: i128 = -(a + 1);
        let t: i128 = m / b;
        proof {
            lemma_fundamental_div_mod(m as int, b as int);
            assert((-(t as int) - 1) * b == -(b * t) - b) by (nonlinear_arith);
            lemma_fundamental_div_mod_converse(
                a as int,
                b as int,
                -(t as int) - 1,
                b - 1 - (m as int % b as int),
            );
        }
        -t - 1
    }
}

/// Quotient rounded to the nearest integer, a tie away from zero.
pub fn round_div(a: i128, d: i128) -> (q: i128)
    requires
        0 < d <= 0x2000_0000_0000_0000_0000_0000_0000_0000,
        -0x2000_0000_0000_0000_0000_0000_0000_0000 <= a
            <= 0x2000_0000_0000_0000_0000_0000_0000_0000,
    ensures
        q == rounded(a as int, d as int),
{
    if a >= 0 {
        (2 * a + d) / (2 * d)
    } else {
        -((d - 2 * a) / (2 * d))
    }
}

/// Integer square root by bisection.
pub fn isqrt(n: u128) -> (r: u64)
    ensures
        is_sqrt(n as int, r as int),
        r == sqrt_floor(n as int),
{
    let mut lo: u128 = 0;
    let mut hi: u128 = 0x1_0000_0000_0000_0000;
    assert(0x1_0000_0000_0000_0000int * 0x1_0000_0000_0000_0000int > u128::MAX)
        by (nonlinear_arith);
    while hi - lo > 1
        invariant
            lo < hi <= 0x1_0000_0000_0000_0000,
            lo * lo <= n,
            n < hi * hi,
        decreases hi - lo,
    {
        let mid: u128 = lo + (hi - lo) / 2;
        assert(mid * mid <= u128::MAX) by (nonlinear_arith)
            requires
                mid <= 0xffff_ffff_ffff_ffff,
        ;
        if mid * mid <= n {
            lo = mid;
        } else {
            hi = mid;
        }
    }
    proof {
        lemma_sqrt_unique(n as int, lo as int, sqrt_floor(n as int));
    }
    lo as u64
}

} // verus!
