//! Fixed-point scalars: the numeric ground the terrain core stands on.
//!
//! A real value `x` is represented by the `i64` integer closest below
//! `x * FX_SCALE`. All arithmetic on these representations is exact integer
//! arithmetic, so every operation has a precise contract: callers know not
//! just a range but the value of each result.

use vstd::arithmetic::div_mod::{
    lemma_div_is_ordered, lemma_fundamental_div_mod, lemma_fundamental_div_mod_converse,
};
use vstd::arithmetic::mul::lemma_mul_inequality;
use vstd::prelude::*;

verus! {

/// Number of fixed-point units in 1.0 (2^20).
pub const FX_SCALE: i64 = 1048576;

/// A fixed-point scalar: `raw` units of `1 / FX_SCALE`.
#[derive(Clone, Copy, PartialEq, Eq, Structural, Debug, Hash)]
pub struct Fx {
    pub raw: i64,
}

impl Fx {
    /// The represented value, in units of `1 / FX_SCALE`, as a mathematical integer.
    pub open spec fn v(self) -> int {
        self.raw as int
    }

    /// Wrap a raw unit count.
    pub fn from_raw(raw: i64) -> (r: Fx)
        ensures
            r.v() == raw,
    {
        Fx { raw }
    }

    /// The representation of the integer `units`.
    pub fn from_int(units: i64) -> (r: Fx)
        requires
            -4398046511104 <= units <= 4398046511104,
        ensures
            r.v() == units * FX_SCALE,
    {
        Fx { raw: units * FX_SCALE }
    }

    /// Exact sum.
    pub fn add(self, o: Fx) -> (r: Fx)
        requires
            i64::MIN <= self.v() + o.v() <= i64::MAX,
        ensures
            r.v() == self.v() + o.v(),
    {
        Fx { raw: self.raw + o.raw }
    }

    /// Exact difference.
    pub fn sub(self, o: Fx) -> (r: Fx)
        requires
            i64::MIN <= self.v() - o.v() <= i64::MAX,
        ensures
            r.v() == self.v() - o.v(),
    {
        Fx { raw: self.raw - o.raw }
    }

    /// Exact negation.
    pub fn neg(self) -> (r: Fx)
        requires
            self.v() != i64::MIN,
        ensures
            r.v() == -self.v(),
    {
        Fx { raw: -self.raw }
    }

    /// Fixed-point product, rounded toward negative infinity.
    pub fn mul(self, o: Fx) -> (r: Fx)
        requires
            i64::MIN <= (self.v() * o.v()) / (FX_SCALE as int) <= i64::MAX,
        ensures
            r.v() == (self.v() * o.v()) / (FX_SCALE as int),
    {
        proof {
            lemma_i64_product_bound(self.raw, o.raw);
        }
        let p: i128 = (self.raw as i128) * (o.raw as i128);
        let q: i128 = floor_div_i128(p, FX_SCALE as i128);
        Fx { raw: q as i64 }
    }

    /// Fixed-point quotient by a positive divisor, rounded toward negative infinity.
    pub fn div(self, o: Fx) -> (r: Fx)
        requires
            o.v() > 0,
            i64::MIN <= (self.v() * (FX_SCALE as int)) / o.v() <= i64::MAX,
        ensures
            r.v() == (self.v() * (FX_SCALE as int)) / o.v(),
    {
        proof {
            lemma_i64_product_bound(self.raw, FX_SCALE);
        }
        let p: i128 = (self.raw as i128) * (FX_SCALE as i128);
        let q: i128 = floor_div_i128(p, o.raw as i128);
        Fx { raw: q as i64 }
    }

    /// Integer part, rounded toward negative infinity.
    pub fn floor(self) -> (r: i64)
        ensures
            r == self.v() / (FX_SCALE as int),
    {
        let q: i128 = floor_div_i128(self.raw as i128, FX_SCALE as i128);
        proof {
            lemma_floor_times_scale_in_range(self.v(), FX_SCALE as int);
        }
        q as i64
    }

    /// The largest representation of a whole number not above `self`.
    pub fn floor_fx(self) -> (r: Fx)
        ensures
            r.v() == (self.v() / (FX_SCALE as int)) * FX_SCALE,
    {
        let f: i64 = self.floor();
        proof {
            lemma_floor_times_scale_in_range(self.v(), FX_SCALE as int);
        }
        Fx { raw: f * FX_SCALE }
    }

    /// The smaller of two values.
    pub fn min(self, o: Fx) -> (r: Fx)
        ensures
            r.v() == if self.v() <= o.v() { self.v() } else { o.v() },
    {
        if self.raw <= o.raw {
            self
        } else {
            o
        }
    }

    /// The larger of two values.
    pub fn max(self, o: Fx) -> (r: Fx)
        ensures
            r.v() == if self.v() >= o.v() { self.v() } else { o.v() },
    {
        if self.raw >= o.raw {
            self
        } else {
            o
        }
    }

    /// `self` forced into the closed interval `[lo, hi]`.
    pub fn clamp(self, lo: Fx, hi: Fx) -> (r: Fx)
        requires
            lo.v() <= hi.v(),
        ensures
            r.v() == if self.v() < lo.v() {
                lo.v()
            } else if self.v() > hi.v() {
                hi.v()
            } else {
                self.v()
            },
    {
        if self.raw < lo.raw {
            lo
        } else if self.raw > hi.raw {
            hi
        } else {
            self
        }
    }
}

/// The nonnegative integer square root, rounded down.
pub open spec fn sqrt_floor(x: int) -> int {
    choose|r: int| 0 <= r && (#[trigger] (r * r)) <= x && x < (r + 1) * (r + 1)
}

impl Fx {
    /// Square root on the fixed-point scale, rounded down.
    ///
    /// The raw result is the integer square root of `raw * FX_SCALE`, which is
    /// the representation of `sqrt(raw / FX_SCALE)` rounded down to a unit.
    pub fn sqrt(self) -> (r: Fx)
        requires
            0 <= self.v() <= 8796093022207,
        ensures
            r.v() == sqrt_floor(self.v() * (FX_SCALE as int)),
            0 <= r.v() <= 4294967295,
    {
        let prod: u64 = (self.raw as u64) * (FX_SCALE as u64);
        let root: u64 = isqrt_u64(prod);
        proof {
            assert(root < 4294967296) by (nonlinear_arith)
                requires
                    root * root <= prod,
                    prod < 0x8000000000000000,
            ;
        }
        Fx { raw: root as i64 }
    }
}

/// The integer square root of `x`, rounded down.
pub fn isqrt_u64(x: u64) -> (r: u64)
    ensures
        r * r <= x < (r + 1) * (r + 1),
        r == sqrt_floor(x as int),
{
    let mut lo: u64 = 0;
    let mut hi: u64 = 4294967296;
    while hi - lo > 1
        invariant
            0 <= lo < hi <= 4294967296,
            lo * lo <= x,
            x < hi * hi,
        decreases hi - lo,
    {
        let mid: u64 = lo + (hi - lo) / 2;
        proof {
            assert(mid * mid <= 4294967295u64 * 4294967295u64) by (nonlinear_arith)
                requires
                    0 <= mid <= 4294967295u64,
            ;
        }
        if mid * mid <= x {
            lo = mid;
        } else {
            hi = mid;
        }
    }
    proof {
        lemma_sqrt_floor_is(x as int, lo as int);
    }
    lo
}

/// Any `r` with `r^2 <= x < (r+1)^2` is the integer square root of `x`.
pub proof fn lemma_sqrt_floor_is(x: int, r: int)
    requires
        0 <= r,
        r * r <= x,
        x < (r + 1) * (r + 1),
    ensures
        sqrt_floor(x) == r,
{
    assert(exists|q: int| 0 <= q && (#[trigger] (q * q)) <= x && x < (q + 1) * (q + 1)) by {
        assert(0 <= r && r * r <= x && x < (r + 1) * (r + 1));
    }
    let c = sqrt_floor(x);
    assert(0 <= c && c * c <= x < (c + 1) * (c + 1));
    if c < r {
        assert((c + 1) * (c + 1) <= r * r) by (nonlinear_arith)
            requires
                0 <= c,
                c < r,
        ;
        assert(false);
    }
    if c > r {
        assert((r + 1) * (r + 1) <= c * c) by (nonlinear_arith)
            requires
                0 <= r,
                r < c,
        ;
        assert(false);
    }
}

/// Dividing by a positive divisor moves a value toward zero, never past it.
pub proof fn lemma_div_shrinks(a: int, b: int)
    requires
        b >= 1,
    ensures
        a >= 0 ==> 0 <= a / b <= a,
        a < 0 ==> a <= a / b <= 0,
{
    lemma_fundamental_div_mod(a, b);
    let q = a / b;
    let r = a % b;
    if a >= 0 {
        if q < 0 {
            assert(b * q <= q) by (nonlinear_arith)
                requires
                    b >= 1,
                    q < 0,
            ;
            assert(false);
        }
        assert(q <= b * q) by (nonlinear_arith)
            requires
                b >= 1,
                q >= 0,
        ;
    } else {
        if q > 0 {
            assert(b * q >= q) by (nonlinear_arith)
                requires
                    b >= 1,
                    q > 0,
            ;
            assert(false);
        }
        if q <= -1 {
            assert(q - a >= (b - 1) - r) by (nonlinear_arith)
                requires
                    q <= -1,
                    b >= 1,
                    0 <= r < b,
                    a == b * q + r,
            ;
        }
    }
}

/// A quotient is bounded by any bound on its dividend.
pub proof fn lemma_quotient_bound(p: int, d: int, m: int)
    requires
        d >= 1,
        -m <= p <= m,
    ensures
        -m <= p / d <= m,
{
    lemma_div_shrinks(p, d);
}

/// The integer square root exists: `sqrt_floor` satisfies its own bounds.
pub proof fn lemma_sqrt_floor_props(x: int)
    requires
        x >= 0,
    ensures
        sqrt_floor(x) >= 0,
        sqrt_floor(x) * sqrt_floor(x) <= x,
        x < (sqrt_floor(x) + 1) * (sqrt_floor(x) + 1),
    decreases x,
{
    if x == 0 {
        lemma_sqrt_floor_is(0, 0);
    } else {
        lemma_sqrt_floor_props(x - 1);
        let r = sqrt_floor(x - 1);
        if (r + 1) * (r + 1) <= x {
            assert(x < (r + 2) * (r + 2)) by (nonlinear_arith)
                requires
                    x - 1 < (r + 1) * (r + 1),
                    r >= 0,
            ;
            lemma_sqrt_floor_is(x, r + 1);
        } else {
            lemma_sqrt_floor_is(x, r);
        }
    }
}

/// The integer square root never decreases.
pub proof fn lemma_sqrt_floor_monotonic(x: int, y: int)
    requires
        0 <= x <= y,
    ensures
        sqrt_floor(x) <= sqrt_floor(y),
{
    lemma_sqrt_floor_props(x);
    lemma_sqrt_floor_props(y);
    let rx = sqrt_floor(x);
    let ry = sqrt_floor(y);
    if rx > ry {
        assert((ry + 1) * (ry + 1) <= rx * rx) by (nonlinear_arith)
            requires
                0 <= ry,
                ry < rx,
        ;
        assert(false);
    }
}

/// A quotient is bounded once the dividend is bounded by a multiple of a
/// lower bound on the divisor.
pub proof fn lemma_div_bound_by(p: int, d: int, dmin: int, m: int)
    requires
        1 <= dmin <= d,
        0 <= m,
        -(m * dmin) <= p <= m * dmin,
    ensures
        -(m + 1) <= p / d <= m,
{
    lemma_fundamental_div_mod(p, d);
    let q = p / d;
    let r = p % d;
    assert(0 <= r < d) by {
        vstd::arithmetic::div_mod::lemma_mod_bound(p, d);
    }
    if q > m {
        assert(d * q > m * dmin) by (nonlinear_arith)
            requires
                q >= m + 1,
                d >= dmin,
                dmin >= 1,
                m >= 0,
        ;
        assert(false);
    }
    if q < -(m + 1) {
        assert(d * q + r < -(m * dmin)) by (nonlinear_arith)
            requires
                q <= -(m + 2),
                d >= dmin,
                dmin >= 1,
                m >= 0,
                0 <= r < d,
        ;
        assert(false);
    }
}

/// A quotient by a divisor of at least one whole unit is bounded by the
/// dividend's bound on the fixed-point scale.
pub proof fn lemma_scaled_quotient_bound(p: int, d: int, m: int)
    requires
        d >= FX_SCALE as int,
        0 <= m,
        -(m * (FX_SCALE as int)) <= p <= m * (FX_SCALE as int),
    ensures
        -(m + 1) <= p / d <= m,
{
    let s = FX_SCALE as int;
    lemma_fundamental_div_mod(p, d);
    let q = p / d;
    let r = p % d;
    assert(0 <= r < d) by {
        vstd::arithmetic::div_mod::lemma_mod_bound(p, d);
    }
    if q > m {
        assert(d * q > m * s) by (nonlinear_arith)
            requires
                q >= m + 1,
                d >= s,
                s >= 1,
                m >= 0,
        ;
        assert(false);
    }
    if q < -(m + 1) {
        assert(d * q + r < -(m * s)) by (nonlinear_arith)
            requires
                q <= -(m + 2),
                d >= s,
                s >= 1,
                m >= 0,
                0 <= r < d,
        ;
        assert(false);
    }
}

/// A fixed-point product of bounded factors lands in a bounded range.
pub proof fn lemma_fx_mul_fits(a: int, b: int, ma: int, mb: int, m: int)
    requires
        -ma <= a <= ma,
        -mb <= b <= mb,
        0 <= ma,
        0 <= mb,
        ma * mb <= m * (FX_SCALE as int),
        0 <= m,
    ensures
        -(m + 1) <= (a * b) / (FX_SCALE as int) <= m,
{
    lemma_product_bound(a, b, ma, mb);
    lemma_scaled_quotient_bound(a * b, FX_SCALE as int, m);
}

/// Bound on a product from bounds on its factors.
pub proof fn lemma_product_bound(a: int, b: int, ma: int, mb: int)
    requires
        -ma <= a <= ma,
        -mb <= b <= mb,
        0 <= ma,
        0 <= mb,
    ensures
        -(ma * mb) <= a * b <= ma * mb,
{
    assert(-(ma * mb) <= a * b <= ma * mb) by (nonlinear_arith)
        requires
            -ma <= a <= ma,
            -mb <= b <= mb,
            0 <= ma,
            0 <= mb,
    ;
}

/// |a * b| stays below 2^126 for any two `i64` factors.
proof fn lemma_i64_product_bound(a: i64, b: i64)
    ensures
        -0x40000000000000000000000000000000 <= a as int * b as int
            <= 0x40000000000000000000000000000000,
{
    assert(-0x40000000000000000000000000000000 <= a as int * b as int
        <= 0x40000000000000000000000000000000) by (nonlinear_arith)
        requires
            -0x8000000000000000 <= a as int <= 0x7fffffffffffffff,
            -0x8000000000000000 <= b as int <= 0x7fffffffffffffff,
    ;
}

/// `floor(x / FX_SCALE) * FX_SCALE` stays within `i64` whenever `x` does.
proof fn lemma_floor_times_scale_in_range(x: int, s: int)
    requires
        s == FX_SCALE as int,
        i64::MIN <= x <= i64::MAX,
    ensures
        i64::MIN <= (x / s) * s <= i64::MAX,
        i64::MIN <= x / s <= i64::MAX,
{
    lemma_div_is_ordered(i64::MIN as int, x, s);
    lemma_div_is_ordered(x, i64::MAX as int, s);
    assert(i64::MIN as int / s == -8796093022208);
    assert(i64::MAX as int / s == 8796093022207);
    lemma_mul_inequality(-8796093022208, x / s, s);
    lemma_mul_inequality(x / s, 8796093022207, s);
}

/// Division of an `i128` by a positive divisor, rounded toward negative
/// infinity, so that it agrees with mathematical (Euclidean) division.
pub fn floor_div_i128(a: i128, b: i128) -> (q: i128)
    requires
        -0x40000000000000000000000000000000 <= a <= 0x40000000000000000000000000000000,
        0 < b <= 0x40000000000000000000000000000000,
    ensures
        q == a as int / b as int,
{
    if a >= 0 {
        let qu: u128 = (a as u128) / (b as u128);
        qu as i128
    } else {
        let na: u128 = (-a) as u128;
        let bu: u128 = b as u128;
        let qm: u128 = (na + bu - 1) / bu;
        proof {
            lemma_neg_floor_div(a as int, b as int, na as int, qm as int);
        }
        -(qm as i128)
    }
}

/// For `a < 0 < b`: `floor(a / b) == -((-a + b - 1) / b)`.
proof fn lemma_neg_floor_div(a: int, b: int, na: int, qm: int)
    requires
        a < 0,
        b > 0,
        na == -a,
        qm == (na + b - 1) / b,
    ensures
        -qm == a / b,
        qm <= na,
{
    lemma_fundamental_div_mod(na + b - 1, b);
    let rm = (na + b - 1) % b;
    assert(na + b - 1 == b * qm + rm);
    assert(0 <= rm < b);
    let r = b - 1 - rm;
    assert(0 <= r < b);
    assert(b * (-qm) == -(b * qm)) by (nonlinear_arith);
    assert(a == (-qm) * b + r) by {
        assert(b * qm == na + b - 1 - rm);
        assert((-qm) * b == b * (-qm)) by (nonlinear_arith);
    }
    lemma_fundamental_div_mod_converse(a, b, -qm, r);
    assert(b * qm <= na + b - 1);
    assert(qm <= na) by (nonlinear_arith)
        requires
            b >= 1,
            na >= 1,
            b * qm <= na + b - 1,
    ;
}

} // verus!
