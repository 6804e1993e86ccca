//! Sums over sequences of integers, and a running sum kept as quotient and
//! remainder.
use vstd::arithmetic::div_mod::lemma_fundamental_div_mod;
use vstd::arithmetic::div_mod::lemma_fundamental_div_mod_converse;
use vstd::prelude::*;

verus! {

/// The sum of the first `k` entries of `s`.
pub open spec fn sum(s: Seq<int>, k: int) -> int
    decreases k,
{
    if k <= 0 {
        0
    } else {
        sum(s, k - 1) + s[k - 1]
    }
}

/// A sum of entries that are not negative does not shrink as it takes in more
/// of them.
pub proof fn lemma_sum_grows(s: Seq<int>, j: int, k: int)
    requires
        0 <= j <= k <= s.len(),
        forall|i: int| 0 <= i < k ==> 0 <= #[trigger] s[i],
    ensures
        0 <= sum(s, j) <= sum(s, k),
    decreases k,
{
    if j < k {
        lemma_sum_grows(s, j, k - 1);
    } else if k > 0 {
        lemma_sum_grows(s, j - 1, k - 1);
    }
}

/// Adding `c` to each entry adds `k * c` to the sum of the first `k`.
pub proof fn lemma_sum_shift(x: Seq<int>, y: Seq<int>, c: int, k: int)
    requires
        0 <= k <= x.len(),
        x.len() == y.len(),
        forall|i: int| 0 <= i < x.len() ==> #[trigger] y[i] == x[i] + c,
    ensures
        sum(y, k) == sum(x, k) + k * c,
    decreases k,
{
    if k > 0 {
        lemma_sum_shift(x, y, c, k - 1);
        assert(k * c == (k - 1) * c + c) by (nonlinear_arith);
    } else {
        assert(0 * c == 0);
    }
}

/// Multiplying each entry by `s` multiplies the sum.
pub proof fn lemma_sum_scale(x: Seq<int>, y: Seq<int>, s: int, k: int)
    requires
        0 <= k <= x.len(),
        x.len() == y.len(),
        forall|i: int| 0 <= i < x.len() ==> #[trigger] y[i] == s * x[i],
    ensures
        sum(y, k) == s * sum(x, k),
    decreases k,
{
    if k > 0 {
        lemma_sum_scale(x, y, s, k - 1);
        assert(s * (sum(x, k - 1) + x[k - 1]) == s * sum(x, k - 1) + s * x[k - 1])
            by (nonlinear_arith);
    } else {
        assert(s * 0 == 0);
    }
}

/// The quotient and the remainder of the product `w * b` by `d`, for `b`
/// below `d`. The product itself may be too large for any machine integer:
/// it is built up by doubling, quotient and remainder at each step.
pub fn times_parts(d: u128, w: u128, b: u128) -> (p: (u128, u128))
    requires
        0 < d,
        b < d,
    ensures
        p.0 * d + p.1 == w * b,
        p.1 < d,
{
    let mut n: u128 = w;
    let mut aq: u128 = 0;
    let mut ar: u128 = 0;
    let mut cq: u128 = 0;
    let mut cr: u128 = b;
    assert((0 * d + 0) + w * (0 * d + b) == w * b) by (nonlinear_arith);
    while n > 0
        invariant
            0 < d,
            b < d,
            ar < d,
            cr < d,
            n <= w,
            (aq * d + ar) + n * (cq * d + cr) == w * b,
        decreases n,
    {
        let ghost av: int = aq * d + ar;
        let ghost cv: int = cq * d + cr;
        let ghost bit: int = (n % 2) as int;
        let ghost half: int = (n / 2) as int;
        proof {
            assert(w * b <= w * d - w) by (nonlinear_arith)
                requires
                    0 <= b <= d - 1,
                    0 <= w,
            ;
            assert(0 <= cv && cv <= n * cv && n * cv == bit * cv + half * (2 * cv) && 0 <= av)
                by (nonlinear_arith)
                requires
                    cv == cq * d + cr,
                    av == aq * d + ar,
                    n == 2 * half + bit,
                    0 <= bit <= 1,
                    n >= 1,
                    d > 0,
            ;
        }
        if n % 2 == 1 {
            let ghost carry: int = if ar >= d - cr { 1 } else { 0 };
            proof {
                let qn: int = aq + cq + carry;
                let rn: int = ar + cr - carry * d;
                assert(qn * d + rn == av + cv) by (nonlinear_arith)
                    requires
                        qn == aq + cq + carry,
                        rn == ar + cr - carry * d,
                        av == aq * d + ar,
                        cv == cq * d + cr,
                ;
                assert(av + cv <= w * b) by (nonlinear_arith)
                    requires
                        av + (bit * cv + half * (2 * cv)) == w * b,
                        bit == 1,
                        half >= 0,
                        cv >= 0,
                ;
                assert(qn < w) by (nonlinear_arith)
                    requires
                        qn * d + rn <= w * d - w,
                        0 <= rn,
                        d > 0,
                        w >= 1,
                ;
            }
            if ar >= d - cr {
                ar = ar - (d - cr);
                aq = aq + cq + 1;
            } else {
                ar = ar + cr;
                aq = aq + cq;
            }
        }
        assert(aq * d + ar == av + bit * cv) by (nonlinear_arith)
            requires
                bit == 1 ==> aq * d + ar == av + cv,
                bit == 0 ==> aq * d + ar == av,
                0 <= bit <= 1,
        ;
        n = n / 2;
        if n > 0 {
            let ghost carry: int = if cr >= d - cr { 1 } else { 0 };
            proof {
                let qn: int = cq + cq + carry;
                let rn: int = cr + cr - carry * d;
                assert(qn * d + rn == 2 * cv) by (nonlinear_arith)
                    requires
                        qn == cq + cq + carry,
                        rn == cr + cr - carry * d,
                        cv == cq * d + cr,
                ;
                assert(2 * cv <= half * (2 * cv) <= w * b) by (nonlinear_arith)
                    requires
                        half >= 1,
                        cv >= 0,
                        av + (bit * cv + half * (2 * cv)) == w * b,
                        av >= 0,
                        0 <= bit,
                ;
                assert(qn < w) by (nonlinear_arith)
                    requires
                        qn * d + rn <= w * d - w,
                        0 <= rn,
                        d > 0,
                        w >= 1,
                ;
            }
            if cr >= d - cr {
                cr = cr - (d - cr);
                cq = cq + cq + 1;
            } else {
                cr = cr + cr;
                cq = cq + cq;
            }
            assert(cq * d + cr == 2 * cv);
        }
        assert((aq * d + ar) + n * (cq * d + cr) == w * b) by (nonlinear_arith)
            requires
                aq * d + ar == av + bit * cv,
                n == half,
                half > 0 ==> cq * d + cr == 2 * cv,
                av + (bit * cv + half * (2 * cv)) == w * b,
                half >= 0,
        ;
    }
    assert(0 * (cq * d + cr) == 0) by (nonlinear_arith);
    (aq, ar)
}

/// A sum `q * d + r` with `r < d`, held as the pair `(q, r)`: the quotient of
/// the sum by `d` stays at hand although the sum itself may be too large for
/// any machine integer.
pub struct Quotient {
    pub q: u128,
    pub r: u128,
}

impl Quotient {
    /// The sum that the pair stands for.
    pub open spec fn value(self, d: int) -> int {
        self.q * d + self.r
    }

    /// The empty sum.
    pub fn new() -> (s: Self)
        ensures
            s.q == 0,
            s.r == 0,
            forall|d: int| #[trigger] s.value(d) == 0,
    {
        let s = Quotient { q: 0, r: 0 };
        assert forall|d: int| #[trigger] s.value(d) == 0 by {
            assert(0 * d == 0) by (nonlinear_arith);
        }
        s
    }

    /// Adds `w * t` to the sum, for factors of any size.
    pub fn add_wide(&mut self, d: u128, w: u128, t: u128)
        requires
            0 < d,
            old(self).r < d,
            old(self).value(d as int) + w * t <= u128::MAX * d,
        ensures
            final(self).r < d,
            final(self).value(d as int) == old(self).value(d as int) + w * t,
    {
        let a: u128 = t / d;
        let b: u128 = t % d;
        let (c, e) = times_parts(d, w, b);
        let ghost carry: int = if e >= d - self.r { 1 } else { 0 };
        let ghost total: int = old(self).value(d as int) + w * t;
        proof {
            lemma_fundamental_div_mod(t as int, d as int);
            assert(w * t == (w * a + c) * d + e) by (nonlinear_arith)
                requires
                    t == d * a + b,
                    c * d + e == w * b,
            ;
            let qn: int = self.q + w * a + c + carry;
            let rn: int = self.r + e - carry * d;
            assert(qn * d + rn == total) by (nonlinear_arith)
                requires
                    qn == self.q + w * a + c + carry,
                    rn == self.r + e - carry * d,
                    total == self.q * d + self.r + w * t,
                    w * t == (w * a + c) * d + e,
            ;
            assert(qn <= u128::MAX) by (nonlinear_arith)
                requires
                    qn * d + rn <= u128::MAX * d,
                    0 <= rn,
                    0 < d,
            ;
            assert(0 <= w * a) by (nonlinear_arith)
                requires
                    0 <= w,
                    0 <= a,
            ;
        }
        let wa: u128 = w * a;
        if e >= d - self.r {
            self.r = e - (d - self.r);
            self.q = self.q + wa + c + 1;
        } else {
            self.r = self.r + e;
            self.q = self.q + wa + c;
        }
    }

    /// Adds `w * t` to the sum.
    pub fn add_product(&mut self, d: u128, w: u128, t: u128)
        requires
            0 < d,
            old(self).r < d,
            w * (d - 1) <= u128::MAX,
            old(self).value(d as int) + w * t <= u128::MAX * d,
        ensures
            final(self).r < d,
            final(self).value(d as int) == old(self).value(d as int) + w * t,
    {
        let a: u128 = t / d;
        let b: u128 = t % d;
        proof {
            lemma_fundamental_div_mod(t as int, d as int);
            assert(w * b <= w * (d - 1)) by (nonlinear_arith)
                requires
                    0 <= b <= d - 1,
                    0 <= w,
            ;
        }
        let wb: u128 = w * b;
        let c: u128 = wb / d;
        let e: u128 = wb % d;
        proof {
            lemma_fundamental_div_mod(wb as int, d as int);
            // w * t == (w * a + c) * d + e
            assert(w * t == (w * a + c) * d + e) by (nonlinear_arith)
                requires
                    t == d * a + b,
                    wb == w * b,
                    wb == d * c + e,
            ;
        }
        let ghost carry: int = if e >= d - self.r { 1 } else { 0 };
        let ghost total: int = old(self).value(d as int) + w * t;
        proof {
            let qn: int = self.q + w * a + c + carry;
            let rn: int = self.r + e - carry * d;
            assert(qn * d + rn == total) by (nonlinear_arith)
                requires
                    qn == self.q + w * a + c + carry,
                    rn == self.r + e - carry * d,
                    total == self.q * d + self.r + w * t,
                    w * t == (w * a + c) * d + e,
            ;
            assert(qn <= u128::MAX) by (nonlinear_arith)
                requires
                    qn * d + rn <= u128::MAX * d,
                    0 <= rn,
                    0 < d,
            ;
            assert(0 <= w * a) by (nonlinear_arith)
                requires
                    0 <= w,
                    0 <= a,
            ;
        }
        let wa: u128 = w * a;
        if e >= d - self.r {
            self.r = e - (d - self.r);
            self.q = self.q + wa + c + 1;
        } else {
            self.r = self.r + e;
            self.q = self.q + wa + c;
        }
    }
}

} // verus!
