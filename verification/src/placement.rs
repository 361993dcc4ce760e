//! Decoration placement: where an object may stand, and how deep it sits.
//!
//! A placement attempt draws a position and a yaw, estimates the terrain
//! slope under the object's footprint from four sampled heights, rejects the
//! spot when the surface normal leans too far from vertical, and finally
//! sinks the object so that no footprint corner floats above the terrain.
//! Everything here is a pure decision over sampled heights; drawing the
//! heights themselves is the caller's business.

use crate::fixed::{
    lemma_div_bound_by, lemma_product_bound, lemma_sqrt_floor_is, lemma_sqrt_floor_props,
    sqrt_floor, Fx, FX_SCALE,
};
use crate::height::clamp_spec;
use vstd::arithmetic::div_mod::{lemma_fundamental_div_mod, lemma_mod_bound};
use vstd::prelude::*;

verus! {

/// One unit of angle on the fixed-point scale just below pi.
pub const FX_PI: i64 = 3294198;

/// Largest magnitude a slope component is allowed before it saturates.
pub const GRAD_LIMIT: i64 = 1073741824;

/// Smallest half-footprint (and smallest orientation epsilon) accepted when
/// estimating slopes, to keep the difference quotient well defined.
pub const SLOPE_EPS_MIN: i64 = 1024;

/// Largest height magnitude accepted by the placement decisions.
pub const HEIGHT_LIMIT: i64 = 35184372088832;

/// Map a random draw into `[lo, hi)` on the fixed-point scale.
pub fn decoration_offset(draw: u64, lo: Fx, hi: Fx) -> (r: Fx)
    requires
        lo.v() < hi.v(),
        -HEIGHT_LIMIT <= lo.v(),
        hi.v() <= HEIGHT_LIMIT,
    ensures
        r.v() == lo.v() + (draw as int) % (hi.v() - lo.v()),
        lo.v() <= r.v() < hi.v(),
{
    let span: u64 = (hi.raw - lo.raw) as u64;
    let m: u64 = draw % span;
    proof {
        lemma_mod_bound(draw as int, span as int);
    }
    Fx { raw: lo.raw + (m as i64) }
}

/// Map a random draw onto a yaw angle in `[-pi, pi)`.
pub fn random_yaw(draw: u64) -> (r: Fx)
    ensures
        r.v() == (draw as int) % (2 * FX_PI as int) - FX_PI as int,
        -FX_PI <= r.v() < FX_PI,
{
    let m: u64 = draw % (2 * 3294198);
    proof {
        lemma_mod_bound(draw as int, 2 * FX_PI as int);
    }
    Fx { raw: (m as i64) - FX_PI }
}

/// One slope component from two heights sampled `half` on either side of the
/// centre: the difference quotient `(ha - hb) / (2 * half)`, saturated into
/// `[-GRAD_LIMIT, GRAD_LIMIT]` as the numeric guard against degenerate
/// footprints.
pub open spec fn gradient_spec(ha: int, hb: int, half: int) -> int {
    clamp_spec(((ha - hb) * (FX_SCALE as int)) / (2 * half), -GRAD_LIMIT as int, GRAD_LIMIT as int)
}

/// The slope under a footprint, from heights at its four edge midpoints.
pub fn slope_gradient(hl: Fx, hr: Fx, hd: Fx, hu: Fx, half_x: Fx, half_z: Fx) -> (g: (Fx, Fx))
    requires
        SLOPE_EPS_MIN as int <= half_x.v() <= HEIGHT_LIMIT,
        SLOPE_EPS_MIN as int <= half_z.v() <= HEIGHT_LIMIT,
        -HEIGHT_LIMIT <= hl.v() <= HEIGHT_LIMIT,
        -HEIGHT_LIMIT <= hr.v() <= HEIGHT_LIMIT,
        -HEIGHT_LIMIT <= hd.v() <= HEIGHT_LIMIT,
        -HEIGHT_LIMIT <= hu.v() <= HEIGHT_LIMIT,
    ensures
        g.0.v() == gradient_spec(hr.v(), hl.v(), half_x.v()),
        g.1.v() == gradient_spec(hu.v(), hd.v(), half_z.v()),
        -GRAD_LIMIT <= g.0.v() <= GRAD_LIMIT,
        -GRAD_LIMIT <= g.1.v() <= GRAD_LIMIT,
{
    let gx: Fx = gradient_component(hr, hl, half_x);
    let gz: Fx = gradient_component(hu, hd, half_z);
    (gx, gz)
}

/// One saturated difference quotient.
fn gradient_component(ha: Fx, hb: Fx, half: Fx) -> (g: Fx)
    requires
        SLOPE_EPS_MIN as int <= half.v() <= HEIGHT_LIMIT,
        -HEIGHT_LIMIT <= ha.v() <= HEIGHT_LIMIT,
        -HEIGHT_LIMIT <= hb.v() <= HEIGHT_LIMIT,
    ensures
        g.v() == gradient_spec(ha.v(), hb.v(), half.v()),
        -GRAD_LIMIT <= g.v() <= GRAD_LIMIT,
{
    let num: Fx = ha.sub(hb);
    let den: Fx = half.add(half);
    proof {
        lemma_product_bound(num.v(), FX_SCALE as int, 2 * HEIGHT_LIMIT as int, FX_SCALE as int);
        lemma_div_bound_by(
            num.v() * (FX_SCALE as int),
            den.v(),
            2 * SLOPE_EPS_MIN as int,
            36028797018963968,
        );
        assert((2 * HEIGHT_LIMIT as int) * (FX_SCALE as int) <= 36028797018963968int * (2
            * SLOPE_EPS_MIN as int));
        assert(den.v() == 2 * half.v());
    }
    num.div(den).clamp(Fx { raw: -GRAD_LIMIT }, Fx { raw: GRAD_LIMIT })
}

/// Squared magnitude of a slope, on the fixed-point scale.
pub open spec fn slope_sq_spec(gx: int, gz: int) -> int {
    (gx * gx) / (FX_SCALE as int) + (gz * gz) / (FX_SCALE as int)
}

/// Whether a surface with slope `(gx, gz)` is flat enough for a decoration.
///
/// The surface normal of such a slope has up-component
/// `1 / sqrt(1 + |g|^2)`; the placement is accepted exactly when that
/// component is at least `0.88 = 22/25`, that is when
/// `484 * (1 + |g|^2) <= 625`, stated here on the fixed-point scale.
pub fn slope_accepts(gx: Fx, gz: Fx) -> (b: bool)
    requires
        -GRAD_LIMIT <= gx.v() <= GRAD_LIMIT,
        -GRAD_LIMIT <= gz.v() <= GRAD_LIMIT,
    ensures
        b == (484 * (FX_SCALE as int + slope_sq_spec(gx.v(), gz.v())) <= 625 * FX_SCALE as int),
{
    let sq: Fx = slope_sq(gx, gz);
    484 * (FX_SCALE + sq.raw) <= 625 * FX_SCALE
}

/// The squared magnitude of a slope.
fn slope_sq(gx: Fx, gz: Fx) -> (sq: Fx)
    requires
        -GRAD_LIMIT <= gx.v() <= GRAD_LIMIT,
        -GRAD_LIMIT <= gz.v() <= GRAD_LIMIT,
    ensures
        sq.v() == slope_sq_spec(gx.v(), gz.v()),
        0 <= sq.v() <= 0x40000000000,
{
    proof {
        assert(0x40000000int * 0x40000000 == 0x10000000000int * 0x100000);
        crate::fixed::lemma_fx_mul_fits(gx.v(), gx.v(), GRAD_LIMIT as int, GRAD_LIMIT as int, 0x10000000000);
        crate::fixed::lemma_fx_mul_fits(gz.v(), gz.v(), GRAD_LIMIT as int, GRAD_LIMIT as int, 0x10000000000);
        assert(gx.v() * gx.v() >= 0) by (nonlinear_arith);
        assert(gz.v() * gz.v() >= 0) by (nonlinear_arith);
        crate::fixed::lemma_div_shrinks(gx.v() * gx.v(), FX_SCALE as int);
        crate::fixed::lemma_div_shrinks(gz.v() * gz.v(), FX_SCALE as int);
    }
    gx.mul(gx).add(gz.mul(gz))
}

/// The unit surface normal over a slope: `(-gx, 1, -gz)` normalized.
///
/// The result is exact fixed-point division by the rounded-down length, so
/// its up-component is always positive.
pub fn surface_normal(gx: Fx, gz: Fx) -> (n: (Fx, Fx, Fx))
    requires
        -GRAD_LIMIT <= gx.v() <= GRAD_LIMIT,
        -GRAD_LIMIT <= gz.v() <= GRAD_LIMIT,
    ensures
        ({
            let s = FX_SCALE as int;
            let len = sqrt_floor((s + slope_sq_spec(gx.v(), gz.v())) * s);
            &&& n.0.v() == (-gx.v() * s) / len
            &&& n.1.v() == (s * s) / len
            &&& n.2.v() == (-gz.v() * s) / len
            &&& n.1.v() > 0
        }),
{
    let ghost s = FX_SCALE as int;
    let sq: Fx = slope_sq(gx, gz);
    let len2: Fx = Fx { raw: FX_SCALE }.add(sq);
    let len: Fx = len2.sqrt();
    proof {
        lemma_sqrt_floor_props(len2.v() * s);
        assert(len.v() * len.v() <= len2.v() * s);
        assert(FX_SCALE as int * FX_SCALE as int <= len2.v() * s) by (nonlinear_arith)
            requires
                len2.v() >= FX_SCALE as int,
                s == FX_SCALE as int,
        ;
        assert(len.v() >= FX_SCALE as int) by {
            if len.v() < FX_SCALE as int {
                lemma_sqrt_floor_is(len2.v() * s, len.v());
                assert((len.v() + 1) * (len.v() + 1) <= (FX_SCALE as int) * (FX_SCALE as int))
                    by (nonlinear_arith)
                    requires
                        0 <= len.v(),
                        len.v() + 1 <= FX_SCALE as int,
                ;
            }
        }
        lemma_product_bound(gx.v(), s, GRAD_LIMIT as int, s);
        lemma_product_bound(gz.v(), s, GRAD_LIMIT as int, s);
        lemma_div_bound_by(-gx.v() * s, len.v(), s, 0x40000000000000);
        lemma_div_bound_by(-gz.v() * s, len.v(), s, 0x40000000000000);
        lemma_div_bound_by(s * s, len.v(), s, 0x10000000000);
        assert(s * s / len.v() > 0) by {
            lemma_fundamental_div_mod(s * s, len.v());
            lemma_mod_bound(s * s, len.v());
            assert(len.v() <= 4294967295);
            let q = s * s / len.v();
            if q <= 0 {
                assert(len.v() * q <= 0) by (nonlinear_arith)
                    requires
                        q <= 0,
                        len.v() > 0,
                ;
                assert(s * s <= 0 + s * s % len.v());
                assert(s * s % len.v() < len.v());
            }
        }
    }
    let nx: Fx = gx.neg().div(len);
    let ny: Fx = Fx { raw: FX_SCALE }.div(len);
    let nz: Fx = gz.neg().div(len);
    (nx, ny, nz)
}

/// The lowest of the centre height and the four corrected edge anchors: the
/// vertical position at which no footprint corner floats above the terrain.
pub open spec fn sink_spec(
    centre: int,
    hl: int,
    hr: int,
    hd: int,
    hu: int,
    vy_right: int,
    vy_up: int,
) -> int {
    let a = if centre <= hl + vy_right {
        centre
    } else {
        hl + vy_right
    };
    let b = if a <= hr - vy_right {
        a
    } else {
        hr - vy_right
    };
    let c = if b <= hd + vy_up {
        b
    } else {
        hd + vy_up
    };
    if c <= hu - vy_up {
        c
    } else {
        hu - vy_up
    }
}

/// Sink phase: lower the anchor to the minimum of the centre height and the
/// four footprint-edge anchors, each corrected by its offset's own vertical
/// component. No corner of the footprint ends up above the terrain, at the
/// cost of the low corner embedding into the ground.
pub fn sink_height(centre: Fx, hl: Fx, hr: Fx, hd: Fx, hu: Fx, vy_right: Fx, vy_up: Fx) -> (y: Fx)
    requires
        -HEIGHT_LIMIT <= centre.v() <= HEIGHT_LIMIT,
        -HEIGHT_LIMIT <= hl.v() <= HEIGHT_LIMIT,
        -HEIGHT_LIMIT <= hr.v() <= HEIGHT_LIMIT,
        -HEIGHT_LIMIT <= hd.v() <= HEIGHT_LIMIT,
        -HEIGHT_LIMIT <= hu.v() <= HEIGHT_LIMIT,
        -HEIGHT_LIMIT <= vy_right.v() <= HEIGHT_LIMIT,
        -HEIGHT_LIMIT <= vy_up.v() <= HEIGHT_LIMIT,
    ensures
        y.v() == sink_spec(centre.v(), hl.v(), hr.v(), hd.v(), hu.v(), vy_right.v(), vy_up.v()),
        y.v() <= centre.v(),
        y.v() <= hl.v() + vy_right.v(),
        y.v() <= hr.v() - vy_right.v(),
        y.v() <= hd.v() + vy_up.v(),
        y.v() <= hu.v() - vy_up.v(),
{
    let d_l: Fx = hl.add(vy_right);
    let d_r: Fx = hr.sub(vy_right);
    let d_d: Fx = hd.add(vy_up);
    let d_u: Fx = hu.sub(vy_up);
    centre.min(d_l).min(d_r).min(d_d).min(d_u)
}

/// Law: on flat ground the sink phase does not sink. When all four edge
/// anchors read the same height as the centre and the footprint's oriented
/// axes have no vertical component, the placed height is exactly the centre
/// height.
pub proof fn lemma_sink_flat(h: int)
    ensures
        sink_spec(h, h, h, h, h, 0, 0) == h,
{
}

} // verus!
