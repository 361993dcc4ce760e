//! The terraced height field.
//!
//! A height sample combines a continuous fractal-noise term with a terraced
//! noise term: the terrace quantizes its input to whole steps joined by a
//! smoothstep ramp of configurable width. The two noise sources themselves
//! (gradient noise over the plane) are outside values; the field is a pure
//! function of its parameters and the two noise samples taken at the scaled
//! points that `noise_input_points` prescribes, so a fixed configuration and
//! seed always reproduce the same surface.

use crate::fixed::{
    lemma_div_shrinks, lemma_fx_mul_fits, lemma_product_bound, lemma_quotient_bound,
    lemma_scaled_quotient_bound, Fx, FX_SCALE,
};
use vstd::arithmetic::div_mod::{
    lemma_div_is_ordered, lemma_fundamental_div_mod, lemma_mod_bound,
};
use vstd::arithmetic::mul::{lemma_mul_inequality, lemma_mul_is_commutative};
use vstd::prelude::*;

verus! {

/// `x` forced into `[lo, hi]`.
pub open spec fn clamp_spec(x: int, lo: int, hi: int) -> int {
    if x < lo {
        lo
    } else if x > hi {
        hi
    } else {
        x
    }
}

/// The terrace curve on raw fixed-point values.
///
/// `base` is the whole step below `x`; the fractional part `f` is pushed
/// through a clamped ramp of width `w` centred on the half step, then through
/// the cubic smoothstep `3 t^2 - 2 t^3`.
pub open spec fn terrace_spec(x: int, w: int) -> int {
    let s = FX_SCALE as int;
    let base = (x / s) * s;
    let f = x - base;
    let wh = w / 2;
    let lo = s / 2 - wh;
    let hi = s / 2 + wh;
    let t = if hi <= lo {
        0
    } else {
        clamp_spec(((f - lo) * s) / (hi - lo), 0, s)
    };
    base + (t * t * (3 * s - 2 * t)) / (s * s)
}

/// The whole step at or below `x`, on the raw scale.
pub open spec fn step_below(x: int) -> int {
    (x / (FX_SCALE as int)) * FX_SCALE
}

/// `step_below(x)` is within one step of `x` itself.
pub proof fn lemma_step_below_close(x: int)
    ensures
        x - FX_SCALE < step_below(x) <= x,
{
    let s = FX_SCALE as int;
    lemma_fundamental_div_mod(x, s);
    lemma_mod_bound(x, s);
    lemma_mul_is_commutative(x / s, s);
}

/// Terrace `x` into whole steps joined by a smooth ramp of width `ramp_width`.
///
/// A zero ramp width degenerates to the hard step `floor(x)`; any ramp width
/// keeps the result within the step interval `[floor(x), floor(x) + 1]`.
pub fn smooth_terrace(x: Fx, ramp_width: Fx) -> (r: Fx)
    requires
        0 <= ramp_width.v() <= FX_SCALE,
        -4611686018427387904 <= x.v() <= 4611686018427387904,
    ensures
        r.v() == terrace_spec(x.v(), ramp_width.v()),
        ramp_width.v() == 0 ==> r.v() == step_below(x.v()),
        step_below(x.v()) <= r.v() <= step_below(x.v()) + FX_SCALE,
{
    let ghost s = FX_SCALE as int;
    proof {
        lemma_step_below_close(x.v());
    }
    let base: Fx = x.floor_fx();
    let f: Fx = x.sub(base);
    let wh: i64 = ((ramp_width.raw as u64) / 2) as i64;
    let lo: Fx = Fx::from_raw(524288 - wh);
    let hi: Fx = Fx::from_raw(524288 + wh);
    let t: Fx = if hi.raw <= lo.raw {
        Fx::from_raw(0)
    } else {
        proof {
            lemma_product_bound(f.v() - lo.v(), s, 2 * s, s);
            lemma_quotient_bound((f.v() - lo.v()) * s, hi.v() - lo.v(), 2 * s * s);
        }
        f.sub(lo).div(hi.sub(lo)).clamp(Fx::from_raw(0), Fx::from_raw(FX_SCALE))
    };
    proof {
        assert(0 <= t.v() * t.v() <= s * s) by (nonlinear_arith)
            requires
                0 <= t.v() <= s,
        ;
    }
    let tt: i64 = t.raw * t.raw;
    let m: i64 = 3 * FX_SCALE - 2 * t.raw;
    proof {
        assert(0 <= tt * m <= 3 * (s * s * s)) by (nonlinear_arith)
            requires
                0 <= tt as int <= s * s,
                s <= m as int <= 3 * s,
                s == 1048576,
        ;
        assert(1099511627776int == s * s);
        lemma_smoothstep_range(t.v(), s);
    }
    let num: i64 = tt * m;
    let q: u64 = (num as u64) / 1099511627776;
    base.add(Fx::from_raw(q as i64))
}

/// The smoothstep of a clamped ramp value stays within one whole step.
///
/// For `0 <= t <= s`, the raw smoothstep `(t * t * (3s - 2t)) / s^2`
/// lies in `[0, s]`.
pub proof fn lemma_smoothstep_range(t: int, s: int)
    requires
        0 <= t <= s,
        1 <= s,
    ensures
        0 <= (t * t * (3 * s - 2 * t)) / (s * s) <= s,
{
    let num = t * t * (3 * s - 2 * t);
    assert(0 <= num) by (nonlinear_arith)
        requires
            0 <= t <= s,
            num == t * t * (3 * s - 2 * t),
    ;
    assert(num <= s * s * s) by (nonlinear_arith)
        requires
            0 <= t <= s,
            num == t * t * (3 * s - 2 * t),
    ;
    assert(0 < s * s) by (nonlinear_arith)
        requires
            1 <= s,
    ;
    lemma_div_shrinks(num, s * s);
    lemma_div_is_ordered(num, s * s * s, s * s);
    assert(s * s * s == (s * s) * s) by (nonlinear_arith);
    vstd::arithmetic::div_mod::lemma_div_multiples_vanish(s, s * s);
}

/// The smoothstep numerator `t^2 (3s - 2t)` never decreases on `[0, s]`:
/// each unit step raises it by `6t(s - t - 1) + 3s - 2 >= 0`.
proof fn lemma_smoothstep_numerator_monotonic(t1: int, t2: int, s: int)
    requires
        0 <= t1 <= t2 <= s,
    ensures
        t1 * t1 * (3 * s - 2 * t1) <= t2 * t2 * (3 * s - 2 * t2),
    decreases t2 - t1,
{
    if t1 < t2 {
        lemma_smoothstep_numerator_monotonic(t1, t2 - 1, s);
        let t = t2 - 1;
        assert(t2 * t2 * (3 * s - 2 * t2) - t * t * (3 * s - 2 * t) == 6 * t * (s - t - 1) + 3
            * s - 2) by (nonlinear_arith)
            requires
                t2 == t + 1,
        ;
        assert(6 * t * (s - t - 1) >= 0) by (nonlinear_arith)
            requires
                0 <= t,
                t + 1 <= s,
        ;
    }
}

/// Law: the terrace curve is monotonic non-decreasing in its input, for any
/// fixed ramp width.
pub proof fn lemma_terrace_monotonic(x1: int, x2: int, w: int)
    requires
        0 <= w <= FX_SCALE,
        x1 <= x2,
    ensures
        terrace_spec(x1, w) <= terrace_spec(x2, w),
{
    let s = FX_SCALE as int;
    let b1 = x1 / s;
    let b2 = x2 / s;
    lemma_div_is_ordered(x1, x2, s);
    let wh = w / 2;
    let lo = s / 2 - wh;
    let hi = s / 2 + wh;
    lemma_step_below_close(x1);
    lemma_step_below_close(x2);
    let f1 = x1 - b1 * s;
    let f2 = x2 - b2 * s;
    let t1 = if hi <= lo {
        0
    } else {
        clamp_spec(((f1 - lo) * s) / (hi - lo), 0, s)
    };
    let t2 = if hi <= lo {
        0
    } else {
        clamp_spec(((f2 - lo) * s) / (hi - lo), 0, s)
    };
    assert(0 <= t1 <= s && 0 <= t2 <= s);
    lemma_smoothstep_range(t1, s);
    lemma_smoothstep_range(t2, s);
    if b1 == b2 {
        assert(f1 <= f2);
        if hi <= lo {
        } else {
            lemma_mul_inequality(f1 - lo, f2 - lo, s);
            lemma_div_is_ordered((f1 - lo) * s, (f2 - lo) * s, hi - lo);
            assert(t1 <= t2);
            lemma_smoothstep_numerator_monotonic(t1, t2, s);
            assert(0 < s * s) by (nonlinear_arith)
                requires
                    1 <= s,
            ;
            lemma_div_is_ordered(
                t1 * t1 * (3 * s - 2 * t1),
                t2 * t2 * (3 * s - 2 * t2),
                s * s,
            );
        }
    } else {
        assert(b1 + 1 <= b2);
        lemma_mul_inequality(b1 + 1, b2, s);
        assert((b1 + 1) * s == b1 * s + s) by (nonlinear_arith);
        assert(terrace_spec(x1, w) <= b1 * s + s);
        assert(b2 * s <= terrace_spec(x2, w));
    }
}

/// Law: at full ramp width the terrace curve is continuous in the discrete
/// sense — one raw unit of input never moves the output by more than two
/// raw units, across whole-step boundaries included. (At zero ramp width
/// the curve is the hard step, which jumps by design.)
pub proof fn lemma_terrace_full_ramp_continuous(x: int)
    ensures
        0 <= terrace_spec(x + 1, FX_SCALE as int) - terrace_spec(x, FX_SCALE as int) <= 2,
{
    let s = FX_SCALE as int;
    lemma_terrace_monotonic(x, x + 1, s);
    let b = x / s;
    lemma_fundamental_div_mod(x, s);
    lemma_mod_bound(x, s);
    let f = x - b * s;
    assert(b * s == s * b) by (nonlinear_arith);
    assert(0 <= f < s);
    assert(s / 2 - (s / 2) <= 0 && s / 2 + s / 2 == s);
    vstd::arithmetic::div_mod::lemma_div_multiples_vanish(f, s);
    assert(f * s == s * f) by (nonlinear_arith);
    assert(clamp_spec((f * s) / s, 0, s) == f);
    if f == s - 1 {
        vstd::arithmetic::div_mod::lemma_fundamental_div_mod_converse(x + 1, s, b + 1, 0);
        assert((x + 1) / s * s == (b + 1) * s);
        vstd::arithmetic::div_mod::lemma_div_multiples_vanish(0, s);
        assert(clamp_spec((0 * s) / s, 0, s) == 0);
        assert(0 * 0 * (3 * s - 2 * 0) == 0) by (nonlinear_arith);
        assert(0 < s * s) by (nonlinear_arith)
            requires
                s >= 1,
        ;
        vstd::arithmetic::div_mod::lemma_div_of0(s * s);
        assert((s - 1) * (s - 1) * (3 * s - 2 * (s - 1)) == (s * s) * (s - 1) + (s * s - 3 * s
            + 2)) by (nonlinear_arith);
        assert(0 <= s * s - 3 * s + 2 < s * s) by (nonlinear_arith)
            requires
                s == 1048576,
        ;
        vstd::arithmetic::div_mod::lemma_fundamental_div_mod_converse(
            (s - 1) * (s - 1) * (3 * s - 2 * (s - 1)),
            s * s,
            s - 1,
            s * s - 3 * s + 2,
        );
        assert(terrace_spec(x, s) == b * s + (s - 1));
        assert(terrace_spec(x + 1, s) == (b + 1) * s);
        assert((b + 1) * s == b * s + s) by (nonlinear_arith);
    } else {
        vstd::arithmetic::div_mod::lemma_fundamental_div_mod_converse(x + 1, s, b, f + 1);
        assert((x + 1) / s * s == b * s);
        vstd::arithmetic::div_mod::lemma_div_multiples_vanish(f + 1, s);
        assert((f + 1) * s == s * (f + 1)) by (nonlinear_arith);
        assert(clamp_spec(((f + 1) * s) / s, 0, s) == f + 1);
        let n1 = f * f * (3 * s - 2 * f);
        let n2 = (f + 1) * (f + 1) * (3 * s - 2 * (f + 1));
        assert(n2 - n1 == 6 * f * (s - f - 1) + 3 * s - 2) by (nonlinear_arith)
            requires
                n1 == f * f * (3 * s - 2 * f),
                n2 == (f + 1) * (f + 1) * (3 * s - 2 * (f + 1)),
        ;
        assert(4 * (f * (s - f - 1)) <= (s - 1) * (s - 1)) by (nonlinear_arith)
            requires
                0 <= f <= s - 1,
        ;
        assert(n2 - n1 <= 2 * (s * s) - 1) by (nonlinear_arith)
            requires
                n2 - n1 == 6 * f * (s - f - 1) + 3 * s - 2,
                4 * (f * (s - f - 1)) <= (s - 1) * (s - 1),
                s == 1048576,
        ;
        let g1 = n1 / (s * s);
        let g2 = n2 / (s * s);
        lemma_fundamental_div_mod(n1, s * s);
        lemma_fundamental_div_mod(n2, s * s);
        assert(0 < s * s) by (nonlinear_arith)
            requires
                s >= 1,
        ;
        lemma_mod_bound(n1, s * s);
        lemma_mod_bound(n2, s * s);
        assert((g2 - g1) * (s * s) == (n2 - n1) + n1 % (s * s) - n2 % (s * s))
            by (nonlinear_arith)
            requires
                n1 == (s * s) * g1 + n1 % (s * s),
                n2 == (s * s) * g2 + n2 % (s * s),
        ;
        assert((g2 - g1) * (s * s) <= 3 * (s * s) - 1);
        assert(g2 - g1 <= 2) by (nonlinear_arith)
            requires
                (g2 - g1) * (s * s) <= 3 * (s * s) - 1,
                s * s >= 1,
        ;
        assert(terrace_spec(x, s) == b * s + g1);
        assert(terrace_spec(x + 1, s) == b * s + g2);
    }
}

/// Parameters of one region's height field, with the seeds of its two
/// gradient-noise sources.
#[derive(Clone, Copy, PartialEq, Eq, Structural, Debug)]
pub struct HeightNoise {
    /// Amplitude of the continuous noise term.
    pub perlin_height: Fx,
    /// Spatial frequency of the continuous noise term.
    pub perlin_scale: Fx,
    /// Seed of the continuous noise source.
    pub perlin_seed: u32,
    /// Amplitude of the terraced term.
    pub terrace_height: Fx,
    /// Number of terrace steps across one unit of noise.
    pub terrace_steps: Fx,
    /// Spatial frequency of the terraced term.
    pub terrace_scale: Fx,
    /// Seed of the terrace noise source.
    pub terrace_seed: u32,
    /// Ramp width of the terrace, in `[0, 1]`.
    pub terrace_smooth_width: Fx,
    /// Constant vertical offset.
    pub offset: Fx,
}

impl HeightNoise {
    /// Parameter ranges under which sampling can neither overflow nor divide
    /// by zero: positive step count, ramp width within one step, and
    /// amplitudes, frequencies and offset of sane magnitude.
    pub open spec fn wf(self) -> bool {
        &&& FX_SCALE as int <= self.terrace_steps.v() <= 1073741824
        &&& 0 <= self.terrace_smooth_width.v() <= FX_SCALE
        &&& -1073741824 <= self.perlin_height.v() <= 1073741824
        &&& -1073741824 <= self.terrace_height.v() <= 1073741824
        &&& -1073741824 <= self.perlin_scale.v() <= 1073741824
        &&& -1073741824 <= self.terrace_scale.v() <= 1073741824
        &&& -35184372088832 <= self.offset.v() <= 35184372088832
    }

    /// A noise sample lies within the slack range the field accepts
    /// (gradient noise stays within `[-1, 1]`; twice that is accepted).
    pub open spec fn noise_in_range(n: int) -> bool {
        -2 * (FX_SCALE as int) <= n <= 2 * (FX_SCALE as int)
    }

    /// The height at a point whose two noise sources read `n1` and `n2`:
    /// `perlin_height * n1 + terrace(n2 * steps) / steps * terrace_height + offset`.
    pub open spec fn sample_spec(self, n1: int, n2: int) -> int {
        let s = FX_SCALE as int;
        let a = (self.perlin_height.v() * n1) / s;
        let tx = (n2 * self.terrace_steps.v()) / s;
        let tv = terrace_spec(tx, self.terrace_smooth_width.v());
        let tq = (tv * s) / self.terrace_steps.v();
        let tb = (tq * self.terrace_height.v()) / s;
        a + tb + self.offset.v()
    }

    /// The two points at which this field's noise sources must be read for a
    /// sample at `p`: `p` scaled by each term's frequency.
    pub fn noise_input_points(&self, px: Fx, py: Fx) -> (r: ((Fx, Fx), (Fx, Fx)))
        requires
            self.wf(),
            -1099511627776 <= px.v() <= 1099511627776,
            -1099511627776 <= py.v() <= 1099511627776,
        ensures
            r.0.0.v() == (px.v() * self.perlin_scale.v()) / (FX_SCALE as int),
            r.0.1.v() == (py.v() * self.perlin_scale.v()) / (FX_SCALE as int),
            r.1.0.v() == (px.v() * self.terrace_scale.v()) / (FX_SCALE as int),
            r.1.1.v() == (py.v() * self.terrace_scale.v()) / (FX_SCALE as int),
    {
        let ghost s = FX_SCALE as int;
        let ghost pm: int = 1099511627776int * 1073741824;
        proof {
            lemma_product_bound(px.v(), self.perlin_scale.v(), 1099511627776, 1073741824);
            lemma_product_bound(py.v(), self.perlin_scale.v(), 1099511627776, 1073741824);
            lemma_product_bound(px.v(), self.terrace_scale.v(), 1099511627776, 1073741824);
            lemma_product_bound(py.v(), self.terrace_scale.v(), 1099511627776, 1073741824);
            lemma_quotient_bound(px.v() * self.perlin_scale.v(), s, pm);
            lemma_quotient_bound(py.v() * self.perlin_scale.v(), s, pm);
            lemma_quotient_bound(px.v() * self.terrace_scale.v(), s, pm);
            lemma_quotient_bound(py.v() * self.terrace_scale.v(), s, pm);
        }
        ((px.mul(self.perlin_scale), py.mul(self.perlin_scale)), (
            px.mul(self.terrace_scale),
            py.mul(self.terrace_scale),
        ))
    }

    /// The height of this field given its two noise samples.
    pub fn sample(&self, n1: Fx, n2: Fx) -> (h: Fx)
        requires
            self.wf(),
            HeightNoise::noise_in_range(n1.v()),
            HeightNoise::noise_in_range(n2.v()),
        ensures
            h.v() == self.sample_spec(n1.v(), n2.v()),
    {
        let ghost s = FX_SCALE as int;
        proof {
            lemma_fx_mul_fits(self.perlin_height.v(), n1.v(), 1073741824, 2 * s, 0x80000000);
        }
        let a: Fx = self.perlin_height.mul(n1);
        proof {
            lemma_fx_mul_fits(n2.v(), self.terrace_steps.v(), 2 * s, 1073741824, 0x80000000);
        }
        let tx: Fx = n2.mul(self.terrace_steps);
        let tv: Fx = smooth_terrace(tx, self.terrace_smooth_width);
        proof {
            lemma_step_below_close(tx.v());
            assert(-0x81000000 <= tv.v() <= 0x81000000);
            lemma_product_bound(tv.v(), s, 0x81000000, s);
            lemma_scaled_quotient_bound(tv.v() * s, self.terrace_steps.v(), 0x81000000);
        }
        let tq: Fx = tv.div(self.terrace_steps);
        proof {
            assert(0x81000001 * 1073741824 <= 0x21000000000 * s);
            lemma_fx_mul_fits(
                tq.v(),
                self.terrace_height.v(),
                0x81000001,
                1073741824,
                0x21000000000,
            );
        }
        let tb: Fx = tq.mul(self.terrace_height);
        a.add(tb).add(self.offset)
    }
}

} // verus!
