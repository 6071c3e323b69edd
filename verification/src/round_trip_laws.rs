//! That a pixel leads to a point of the plane, and that point back to the pixel.
use crate::calibration::{CameraParams, MatchCalibration};
use crate::double::F64;
use crate::kb4::{growth_at, shown_at};
use crate::lens_laws::{
    fine, lemma_below_power, lemma_length, lemma_near_minus, lemma_near_plus, lemma_near_times,
    lemma_one, lemma_relative, lemma_shown_near, lemma_solved_shown, lemma_tick, mild, near,
    polynomial, slip, tick,
};
use crate::panner_config::ONE;
use crate::plane_laws::{
    aspect_in_reach, close, law_plane_leads_back, lemma_narrow_near, on_extended_plane, value_d,
};
use crate::projection::{
    distorted, fraction, in_camera, length, on_plane, on_quad, side_of, texture, LensSolve,
    SolveStep, UnitLens, MAX_ITERATIONS, ONE_D, ON_AXIS, ZERO_D,
};
use crate::radius_laws::{
    dust, lemma_axis_back, lemma_moved_radius, lemma_scaled, lemma_size_bounded, lemma_size_times,
    lemma_square, lemma_unscaled, lemma_unsquared, lemma_within_radius, part, radius_of,
};
use crate::real_laws::{
    lemma_over, lemma_speck, lemma_times, lemma_val, lemma_val_ordered, size, speck, ulp, val,
};
use crate::rounding::Format;
use crate::single::F32;
use crate::speed_laws::value;
use crate::world::CameraId;
use vstd::arithmetic::power2::{
    lemma2_to64, lemma2_to64_rest, lemma_pow2_adds, lemma_pow2_pos, pow2,
};
use vstd::prelude::*;

verus! {

/// A focal length from a quarter of the frame to all of it.
pub open spec fn ordinary_focal(f: F64) -> bool {
    f.finite() && 4 as real * val(f) >= 1 as real && val(f) <= 1 as real
}

/// A place in the frame.
pub open spec fn in_frame(c: F64) -> bool {
    c.finite() && 0 as real <= val(c) && val(c) <= 1 as real
}

/// A lens with ordinary focal lengths, and its middle in the frame.
pub open spec fn ordinary_lens(lens: UnitLens) -> bool {
    ordinary_focal(lens.fx) && ordinary_focal(lens.fy) && in_frame(lens.cx) && in_frame(lens.cy)
}

/// How much a point of the plane may be off: nine times two to the power -20.
pub open spec fn give() -> real {
    9 as real / 0x10_0000 as real
}

/// How much a point is off then, in focal lengths.
spec fn moved() -> real {
    4 as real * give() + 17 as real * tick()
}

/// A number over a focal length.
proof fn lemma_in_focals(v: F64, w: real, e: real, f: F64, b: real)
    requires
        near(v, w, e),
        ordinary_focal(f),
        b * val(f) == w,
        size(b) <= 1000 as real,
        0 as real <= e && e <= 1 as real,
    ensures
        near(v.over(f), b, 4 as real * e + tick()),
{
    let (a, g) = (val(v), val(f));
    let q = a / g;
    assert(q * g == a) by (nonlinear_arith)
        requires
            q == a / g,
            g > 0 as real,
    ;
    let d = q - b;
    assert(d * g == a - w) by (nonlinear_arith)
        requires
            d == q - b,
            q * g == a,
            b * g == w,
    ;
    lemma_size_times(d, g);
    let sd = size(d);
    lemma_scaled(1 as real, 4 as real * g, sd);
    assert(sd * (4 as real * g) == 4 as real * (sd * g)) by (nonlinear_arith);
    assert(sd <= 4 as real * e);
    lemma_over(v, f);
    lemma_tick(val(v.over(f)), q);
}

/// A pixel seen from the middle, in focal lengths.
proof fn lemma_pixel_ray(x: F64, c: F64, f: F64, b: real)
    requires
        in_frame(x),
        in_frame(c),
        ordinary_focal(f),
        b * val(f) == val(x) - val(c),
    ensures
        near(x.minus(c).over(f), b, 5 as real * tick()),
        size(b) <= 4 as real,
{
    lemma_near_minus(x, val(x), 0 as real, c, val(c), 0 as real);
    lemma_size_times(b, val(f));
    let sb = size(b);
    lemma_scaled(1 as real, 4 as real * val(f), sb);
    assert(sb * (4 as real * val(f)) == 4 as real * (sb * val(f))) by (nonlinear_arith);
    lemma_in_focals(x.minus(c), val(x) - val(c), tick(), f, b);
}

/// The way to the plane on one axis: `a` is where it leads, in focal lengths.
proof fn lemma_to_plane(f: F64, c: F64, dx: F64, scale: F64, a: real)
    requires
        ordinary_focal(f),
        in_frame(c),
        dx.finite(),
        size(val(dx)) <= 3 as real,
        scale.finite(),
        65 as real * val(scale) >= 1 as real,
        a * val(scale) == val(dx),
    ensures
        near(f.times(dx.over(scale)).plus(c), val(f) * a + val(c), 3 as real * tick()),
        size(a) <= 195 as real,
{
    let s = val(scale);
    lemma_size_times(a, s);
    let sa = size(a);
    lemma_scaled(1 as real, 65 as real * s, sa);
    assert(sa * (65 as real * s) == 65 as real * (sa * s)) by (nonlinear_arith);
    let q = val(dx) / s;
    assert(q == a) by (nonlinear_arith)
        requires
            q == val(dx) / s,
            a * s == val(dx),
            s > 0 as real,
    ;
    lemma_over(dx, scale);
    let xs = dx.over(scale);
    lemma_tick(val(xs), a);
    let n = 196 as real;
    assert((1 as real + 0 as real) * n == n) by (nonlinear_arith);
    lemma_near_times(f, val(f), 0 as real, xs, a, tick(), 1 as real, n);
    assert(n * (0 as real) == 0 as real);
    assert(1 as real * tick() == tick()) by (nonlinear_arith);
    let w = f.times(xs);
    lemma_size_bounded(val(f), 1 as real, a, 195 as real);
    lemma_near_plus(w, val(f) * a, 2 as real * tick(), c, val(c), 0 as real);
}

/// The way from the plane on one axis.
proof fn lemma_from_plane(f: F64, c: F64, u: F64, a: real)
    requires
        ordinary_focal(f),
        in_frame(c),
        size(a) <= 195 as real,
        near(u, val(f) * a + val(c), give() + 3 as real * tick()),
    ensures
        near(u.minus(c).over(f), a, moved()),
{
    let fa = val(f) * a;
    lemma_size_bounded(val(f), 1 as real, a, 195 as real);
    lemma_near_minus(u, fa + val(c), give() + 3 as real * tick(), c, val(c), 0 as real);
    let v = u.minus(c);
    assert(near(v, fa, give() + 4 as real * tick()));
    assert(a * val(f) == fa) by (nonlinear_arith)
        requires
            fa == val(f) * a,
    ;
    lemma_in_focals(v, fa, give() + 4 as real * tick(), f, a);
}

/// Products with what is at most one.
proof fn lemma_shrunk(f: real, x: real)
    requires
        0 as real <= f && f <= 1 as real,
    ensures
        size(f * x) <= size(x),
{
    lemma_size_times(f, x);
    lemma_scaled(f, 1 as real, size(x));
    assert(1 as real * size(x) == size(x)) by (nonlinear_arith);
}

/// What rounding does to a product of a small and a large factor: `x` times `k` is
/// at most four, and `d` and `e` are what the factors are off.
proof fn lemma_product_off(g: real, fx: real, q: real, k: real, x: real, d: real, e: real)
    requires
        g == fx + d,
        q == k + e,
        size(fx) <= size(x),
        size(d) <= size(x) * ulp() + speck(),
        size(e) <= size(k) * ulp() + speck(),
        size(x) * size(k) <= 4 as real,
        size(x) <= 200 as real,
        size(k) <= 0x400_0000_0000 as real,
    ensures
        size(g * q - fx * k) <= tick(),
{
    lemma_speck();
    let (w, c) = (ulp(), speck());
    let (sx, sk) = (size(x), size(k));
    assert(w * 0x10_0000_0000_0000 as real == 1 as real) by (nonlinear_arith)
        requires
            w == 1 as real / 0x10_0000_0000_0000 as real,
    ;
    let (xw, kw) = (sx * w, sk * w);
    assert(xw * 0x10_0000_0000_0000 as real == sx && kw * 0x10_0000_0000_0000 as real == sk)
        by (nonlinear_arith)
        requires
            xw == sx * w,
            kw == sk * w,
            w * 0x10_0000_0000_0000 as real == 1 as real,
    ;
    assert(g * q - fx * k == d * k + d * e + fx * e) by (nonlinear_arith)
        requires
            g == fx + d,
            q == k + e,
    ;
    let xk = sx * sk;
    // d k
    let dm = xw + c;
    let em = kw + c;
    lemma_size_bounded(d, dm, k, sk);
    assert(dm * sk * 0x10_0000_0000_0000 as real == xk + (c * sk) * 0x10_0000_0000_0000 as real)
        by (nonlinear_arith)
        requires
            dm == xw + c,
            xw * 0x10_0000_0000_0000 as real == sx,
            xk == sx * sk,
    {
        assert(dm * sk == xw * sk + c * sk) by (nonlinear_arith)
            requires
                dm == xw + c,
        ;
        assert((xw * sk) * 0x10_0000_0000_0000 as real == (xw * 0x10_0000_0000_0000 as real) * sk)
            by (nonlinear_arith);
    }
    lemma_scaled(sk, 0x400_0000_0000 as real, c);
    // fx e
    lemma_size_bounded(fx, sx, e, em);
    assert(sx * em * 0x10_0000_0000_0000 as real == xk + (sx * c) * 0x10_0000_0000_0000 as real)
        by (nonlinear_arith)
        requires
            em == kw + c,
            kw * 0x10_0000_0000_0000 as real == sk,
            xk == sx * sk,
    {
        assert(sx * em == sx * kw + sx * c) by (nonlinear_arith)
            requires
                em == kw + c,
        ;
        assert((sx * kw) * 0x10_0000_0000_0000 as real == sx * (kw * 0x10_0000_0000_0000 as real))
            by (nonlinear_arith);
    }
    lemma_scaled(sx, 200 as real, c);
    // d e
    let (small, part_of) = (1 as real / 0x100_0000_0000 as real, 1 as real / 0x200 as real);
    assert(dm <= small && em <= part_of);
    lemma_size_bounded(d, small, e, part_of);
    assert(small * part_of * 0x2_0000_0000_0000 as real == 1 as real) by (nonlinear_arith)
        requires
            small == 1 as real / 0x100_0000_0000 as real,
            part_of == 1 as real / 0x200 as real,
    ;
    assert(c * sk == sk * c && 200 as real * c == c * 200 as real) by (nonlinear_arith);
}

/// Where one axis is shown: `z` is that in focal lengths.
proof fn lemma_shown_axis(f: F64, c: F64, x: F64, p: F64, r: F64, z: real)
    requires
        ordinary_focal(f),
        in_frame(c),
        x.finite(),
        p.finite(),
        r.finite(),
        size(val(x)) <= 200 as real,
        size(val(p)) <= 3 as real,
        val(r) * 0x100_0000_0000 as real >= 1 as real,
        100 as real * size(val(x)) <= 101 as real * val(r),
        z * val(r) == val(p) * val(x),
    ensures
        near(
            f.times(x).times(p.over(r)).plus(c),
            val(f) * z + val(c),
            3 as real * tick(),
        ),
        size(z) <= 4 as real,
{
    lemma_speck();
    let (vx, vp, vr, vf) = (val(x), val(p), val(r), val(f));
    let k = vp / vr;
    assert(k * vr == vp) by (nonlinear_arith)
        requires
            k == vp / vr,
            vr > 0 as real,
    ;
    let (sx, sk, sp) = (size(vx), size(k), size(vp));
    lemma_size_times(k, vr);
    // k is at most three times two to the power 40
    let c40 = 0x100_0000_0000 as real;
    lemma_scaled(1 as real, vr * c40, sk);
    assert(sk * (vr * c40) == (sk * vr) * c40) by (nonlinear_arith);
    assert(sk <= 3 as real * c40);
    // x times k
    lemma_scaled(100 as real * sx, 101 as real * vr, sk);
    assert(sk * (100 as real * sx) == 100 as real * (sx * sk) && sk * (101 as real * vr) == 101
        as real * (sk * vr)) by (nonlinear_arith);
    assert(sx * sk <= 4 as real);
    assert(z == vx * k) by {
        assert((vx * k) * vr == vp * vx) by (nonlinear_arith)
            requires
                k * vr == vp,
        ;
        lemma_unscaled(z, vx * k, vr);
        lemma_unscaled(vx * k, z, vr);
    }
    lemma_size_times(vx, k);
    // the two factors
    lemma_shrunk(vf, vx);
    lemma_times(f, x);
    let g = f.times(x);
    lemma_relative(val(g), vf * vx);
    lemma_scaled(size(vf * vx), sx, ulp());
    lemma_over(p, r);
    let q = p.over(r);
    lemma_relative(val(q), k);
    lemma_product_off(val(g), vf * vx, val(q), k, vx, val(g) - vf * vx, val(q) - k);
    let fz = vf * z;
    assert((vf * vx) * k == fz) by (nonlinear_arith)
        requires
            z == vx * k,
            fz == vf * z,
    ;
    lemma_shrunk(vf, z);
    lemma_times(g, q);
    let t = g.times(q);
    lemma_tick(val(t), val(g) * val(q));
    lemma_near_plus(t, fz, 2 as real * tick(), c, val(c), 0 as real);
}

/// A radius and its coordinates, all divided by the same number.
proof fn lemma_divided_radius(
    theta: real,
    dx: real,
    dy: real,
    rho: real,
    ax: real,
    ay: real,
    sigma: real,
)
    requires
        radius_of(theta, dx, dy),
        theta == rho * sigma,
        dx == ax * sigma,
        dy == ay * sigma,
        65 as real * sigma >= 1 as real,
    ensures
        size(rho * rho - (ax * ax + ay * ay)) <= part() * (ax * ax + ay * ay) + 4300 as real
            * dust(),
{
    let w = sigma * sigma;
    let (a2, p2) = (ax * ax + ay * ay, rho * rho);
    assert(theta * theta == p2 * w && dx * dx + dy * dy == a2 * w) by {
        assert(theta * theta == (rho * rho) * (sigma * sigma)) by (nonlinear_arith)
            requires
                theta == rho * sigma,
        ;
        assert(dx * dx == (ax * ax) * (sigma * sigma)) by (nonlinear_arith)
            requires
                dx == ax * sigma,
        ;
        assert(dy * dy == (ay * ay) * (sigma * sigma)) by (nonlinear_arith)
            requires
                dy == ay * sigma,
        ;
        assert((ax * ax) * w + (ay * ay) * w == (ax * ax + ay * ay) * w) by (nonlinear_arith);
    }
    let v = 65 as real * sigma;
    lemma_scaled(1 as real, v, v);
    assert(v * v == 4225 as real * w) by (nonlinear_arith)
        requires
            v == 65 as real * sigma,
            w == sigma * sigma,
    ;
    let d = dust();
    assert(d > 0 as real);
    lemma_scaled(1 as real, 4225 as real * w, d);
    let dw = d * w;
    assert(d * (4225 as real * w) == 4225 as real * dw) by (nonlinear_arith)
        requires
            dw == d * w,
    ;
    let t = part() * a2;
    assert(part() * (a2 * w) == t * w) by (nonlinear_arith)
        requires
            t == part() * a2,
    ;
    let most = t + 4300 as real * d;
    assert(most * w == t * w + 4300 as real * dw) by (nonlinear_arith)
        requires
            most == t + 4300 as real * d,
            dw == d * w,
    ;
    let gap = p2 - a2;
    assert(gap * w == p2 * w - a2 * w && (-gap) * w == a2 * w - p2 * w) by (nonlinear_arith)
        requires
            gap == p2 - a2,
    ;
    lemma_unscaled(gap, most, w);
    lemma_unscaled(-gap, most, w);
}

/// How much a pixel may be off in the end, before it is narrowed.
pub open spec fn in_the_end() -> real {
    1 as real / 1040 as real
}

/// One axis of the round trip, from the pixel `x0` to where it is shown.
proof fn lemma_axis(
    f: F64,
    c: F64,
    x0: F64,
    x: F64,
    p: F64,
    r: F64,
    theta: real,
    rho: real,
    sigma: real,
    a: real,
)
    requires
        ordinary_focal(f),
        in_frame(c),
        in_frame(x0),
        sigma > 0 as real,
        100 as real * sigma <= 126 as real,
        theta == rho * sigma,
        rho >= 0 as real,
        theta <= 2 as real,
        100 as real * size(val(x0.minus(c).over(f))) <= 101 as real * theta,
        a * sigma == val(x0.minus(c).over(f)),
        near(x, a, moved()),
        size(val(x)) <= 200 as real,
        near(p, theta, slip()),
        r.finite(),
        rho <= 5 as real * moved() || (rho >= 5 as real * moved() && size(val(r) - rho) <= 2
            as real * moved()),
        val(r) * 0x100_0000_0000 as real >= 1 as real ==> 100 as real * size(val(x)) <= 101
            as real * val(r),
    ensures
        val(r) * 0x100_0000_0000 as real >= 1 as real ==> near(
            f.times(x).times(p.over(r)).plus(c),
            val(x0),
            in_the_end(),
        ),
        rho <= 5 as real * moved() ==> near(c, val(x0), in_the_end()),
{
    let dx = x0.minus(c).over(f);
    let (vf, d, h) = (val(f), val(dx), moved());
    // what the ray is of
    let b = (val(x0) - val(c)) / vf;
    assert(b * vf == val(x0) - val(c)) by (nonlinear_arith)
        requires
            b == (val(x0) - val(c)) / vf,
            vf > 0 as real,
    ;
    lemma_pixel_ray(x0, c, f, b);
    let fd = vf * d;
    assert(vf * (d - b) == fd - (val(x0) - val(c))) by (nonlinear_arith)
        requires
            fd == vf * d,
            b * vf == val(x0) - val(c),
    ;
    lemma_shrunk(vf, d - b);
    if val(r) * 0x100_0000_0000 as real >= 1 as real {
        let z = (val(p) * val(x)) / val(r);
        assert(z * val(r) == val(p) * val(x)) by (nonlinear_arith)
            requires
                z == (val(p) * val(x)) / val(r),
                val(r) > 0 as real,
        ;
        let e = val(x) - a;
        assert(val(x) * sigma - d == e * sigma) by (nonlinear_arith)
            requires
                e == val(x) - a,
                a * sigma == d,
        ;
        lemma_size_times(e, sigma);
        lemma_scaled(size(e), h, sigma);
        lemma_axis_back(d, val(x), theta, rho, sigma, val(r), val(p), slip(), h, z);
        lemma_shown_axis(f, c, x, p, r, z);
        let fz = vf * z;
        assert(vf * (z - d) == fz - fd) by (nonlinear_arith)
            requires
                fz == vf * z,
                fd == vf * d,
        ;
        lemma_shrunk(vf, z - d);
    }
    if rho <= 5 as real * h {
        lemma_scaled(rho, 5 as real * h, sigma);
        lemma_scaled(100 as real * sigma, 126 as real, 5 as real * h);
        assert((5 as real * h) * (100 as real * sigma) == 100 as real * ((5 as real * h) * sigma)
            && (5 as real * h) * 126 as real == 630 as real * h) by (nonlinear_arith);
        lemma_shrunk(vf, d);
    }
}

/// The search for the ray of a pixel, to its end.
pub open spec fn searched(x: F64, y: F64, params: CameraParams) -> LensSolve {
    LensSolve::begun(x, y, params).finished(params.d@)
}

/// A lens search found an angle of at most one and a tenth radians for a pixel that
/// is shown at most two focal lengths from the middle.
pub open spec fn found(s: LensSolve) -> bool {
    &&& s.step == SolveStep::Solved
    &&& size(val(s.theta_d)) <= 2 as real
    &&& s.theta.finite()
    &&& size(val(s.theta)) <= 11 as real / 10 as real
}

/// A tangent of the angle that was found: the lens shows the angle at no more than
/// five quarters of it, and at no less than a sixty-fourth of it.
pub open spec fn fair_tangent(s: LensSolve, tangent: F64) -> bool {
    &&& tangent.finite()
    &&& 4 as real * val(s.theta_d) <= 5 as real * val(tangent)
    &&& val(tangent) <= 64 as real * val(s.theta_d)
}

/// The scale between what the lens shows and the plane.
proof fn lemma_scale(s: LensSolve, tangent: F64) -> (scale: F64)
    requires
        found(s),
        fair_tangent(s, tangent),
        s.theta_d.finite(),
        val(s.theta_d) > 0 as real,
    ensures
        scale.finite(),
        65 as real * val(scale) >= 1 as real,
        100 as real * val(scale) <= 126 as real,
        s.plane_point(tangent) == Some(
            (
                s.lens.fx.times(s.dx.over(scale)).plus(s.lens.cx),
                s.lens.fy.times(s.dy.over(scale)).plus(s.lens.cy),
            ),
        ),
{
    if s.theta.magnitude().below(F64 { bits: ON_AXIS }) {
        lemma_one();
        F64 { bits: ONE_D }
    } else {
        let (d, t) = (val(s.theta_d), val(tangent));
        let q = d / t;
        lemma_quotient(d, t);
        lemma_regroup(4 as real, q, t);
        lemma_regroup(64 as real, q, t);
        lemma_unscaled(4 as real * q, 5 as real, t);
        lemma_unscaled(1 as real, 64 as real * q, t);
        lemma_over(s.theta_d, tangent);
        lemma_tick(val(s.theta_d.over(tangent)), q);
        s.theta_d.over(tangent)
    }
}

/// A quotient times its divisor.
pub proof fn lemma_quotient(a: real, b: real)
    requires
        b > 0 as real,
    ensures
        (a / b) * b == a,
{
    assert((a / b) * b == a) by (nonlinear_arith)
        requires
            b > 0 as real,
    ;
}

/// Factors in another order.
pub proof fn lemma_regroup(n: real, a: real, b: real)
    ensures
        (n * a) * b == n * (a * b),
        1 as real * b == b,
{
    assert((n * a) * b == n * (a * b) && 1 as real * b == b) by (nonlinear_arith);
}

/// A solved search keeps what it began with.
proof fn lemma_keeps(s: LensSolve, k: Seq<F64>)
    ensures
        s.finished(k).lens == s.lens,
        s.finished(k).dx == s.dx,
        s.finished(k).dy == s.dy,
        s.finished(k).theta_d == s.theta_d,
        s.step != SolveStep::Evaluate ==> s.finished(k) == s,
    decreases s.left(),
{
    if s.step == SolveStep::Evaluate && s.iterations < MAX_ITERATIONS {
        lemma_keeps(s.stepped(shown_at(s.theta, k), growth_at(s.theta, k)), k);
    }
}

/// The radius on the plane is at most 130.
proof fn lemma_rho(rho: real, sigma: real, td: real)
    requires
        rho * sigma == td,
        0 as real <= td && td <= 2 as real,
        65 as real * sigma >= 1 as real,
    ensures
        0 as real <= rho && rho <= 130 as real,
{
    lemma_size_times(rho, sigma);
    let sr = size(rho);
    lemma_scaled(1 as real, 65 as real * sigma, sr);
    assert(sr * (65 as real * sigma) == 65 as real * (sr * sigma)) by (nonlinear_arith);
    if rho < 0 as real {
        assert((0 as real) * sigma == 0 as real) by (nonlinear_arith);
        lemma_unscaled(0 as real, rho, sigma);
    }
}

/// A distance that does not lie on the axis is at least two to the power -40.
proof fn lemma_axis_bound(x: F64)
    requires
        x.finite(),
        val(x) >= 0 as real,
        !x.below(F64 { bits: ON_AXIS }),
    ensures
        val(x) * 0x100_0000_0000 as real >= 1 as real,
{
    let axis = F64 { bits: ON_AXIS };
    lemma2_to64();
    lemma2_to64_rest();
    lemma_below_power(axis, 40);
    lemma_val(axis);
    lemma_val_ordered(x, axis);
    let (a, b, c) = (val(x), val(axis), pow2(40) as real);
    lemma_scaled(b, a, c);
}

/// A distance that lies on the axis is at most two to the power -39.
proof fn lemma_off_axis(x: F64)
    requires
        x.finite(),
        x.below(F64 { bits: ON_AXIS }),
    ensures
        val(x) * 0x80_0000_0000 as real <= 1 as real,
{
    let axis = F64 { bits: ON_AXIS };
    lemma2_to64();
    lemma2_to64_rest();
    lemma_below_power(axis, 39);
    lemma_val(axis);
    lemma_val_ordered(x, axis);
    let (a, b, c) = (val(x), val(axis), pow2(39) as real);
    lemma_scaled(a, b, c);
}

/// What is known of where a pixel is seen from the middle: `td` is its distance.
proof fn lemma_seen(x: F64, y: F64, lens: UnitLens)
    requires
        ordinary_lens(lens),
        in_frame(x),
        in_frame(y),
        ({
            let (dx, dy) = lens.ray(x, y);
            val(length(dx, dy)) <= 2 as real && !length(dx, dy).below(F64 { bits: ON_AXIS })
        }),
    ensures
        ({
            let (dx, dy) = lens.ray(x, y);
            let td = val(length(dx, dy));
            &&& dx.finite() && dy.finite() && length(dx, dy).finite()
            &&& radius_of(td, val(dx), val(dy))
            &&& td * 0x100_0000_0000 as real >= 1 as real
            &&& 100 as real * size(val(dx)) <= 101 as real * td
            &&& 100 as real * size(val(dy)) <= 101 as real * td
        }),
{
    let (dx, dy) = lens.ray(x, y);
    let bx = (val(x) - val(lens.cx)) / val(lens.fx);
    lemma_quotient(val(x) - val(lens.cx), val(lens.fx));
    lemma_pixel_ray(x, lens.cx, lens.fx, bx);
    let by = (val(y) - val(lens.cy)) / val(lens.fy);
    lemma_quotient(val(y) - val(lens.cy), val(lens.fy));
    lemma_pixel_ray(y, lens.cy, lens.fy, by);
    lemma_length(dx, dy);
    lemma_axis_bound(length(dx, dy));
    lemma_within_radius(val(length(dx, dy)), val(dx), val(dy));
}

/// What is known of a point of the plane that is close to where a pixel led: `rho`
/// is the distance there, `px` and `py` are where the point is seen.
proof fn lemma_met(
    dx: F64,
    dy: F64,
    td: real,
    lens: UnitLens,
    scale: F64,
    u: F64,
    v: F64,
    rho: real,
    ax: real,
    ay: real,
)
    requires
        ordinary_lens(lens),
        dx.finite(),
        dy.finite(),
        radius_of(td, val(dx), val(dy)),
        td <= 2 as real,
        100 as real * size(val(dx)) <= 101 as real * td,
        100 as real * size(val(dy)) <= 101 as real * td,
        scale.finite(),
        65 as real * val(scale) >= 1 as real,
        rho * val(scale) == td,
        ax * val(scale) == val(dx),
        ay * val(scale) == val(dy),
        near(u, val(lens.fx.times(dx.over(scale)).plus(lens.cx)), give()),
        near(v, val(lens.fy.times(dy.over(scale)).plus(lens.cy)), give()),
    ensures
        ({
            let (px, py) = lens.ray(u, v);
            let r = length(px, py);
            &&& near(px, ax, moved()) && near(py, ay, moved())
            &&& size(val(px)) <= 200 as real && size(val(py)) <= 200 as real
            &&& r.finite()
            &&& radius_of(val(r), val(px), val(py))
            &&& rho >= 0 as real
            &&& rho <= 5 as real * moved() || (rho >= 5 as real * moved() && size(val(r) - rho)
                <= 2 as real * moved())
        }),
{
    lemma_to_plane(lens.fx, lens.cx, dx, scale, ax);
    lemma_to_plane(lens.fy, lens.cy, dy, scale, ay);
    lemma_from_plane(lens.fx, lens.cx, u, ax);
    lemma_from_plane(lens.fy, lens.cy, v, ay);
    let (px, py) = lens.ray(u, v);
    lemma_length(px, py);
    lemma_divided_radius(td, val(dx), val(dy), rho, ax, ay, val(scale));
    lemma_rho(rho, val(scale), td);
    if rho >= 5 as real * moved() {
        lemma_moved_radius(rho, ax, ay, val(length(px, py)), val(px), val(py), moved());
    }
}

/// One coordinate of where a point of the plane is shown, the lens showing its
/// angle at `p`: the middle where it lies on the axis.
spec fn shown_coordinate(f: F64, c: F64, x: F64, p: F64, r: F64) -> F64 {
    if r.below(F64 { bits: ON_AXIS }) {
        c
    } else {
        f.times(x).times(p.over(r)).plus(c)
    }
}

/// The round trip with the place `p` at which the lens shows the angle.
proof fn lemma_shown_back(
    x: F64,
    y: F64,
    lens: UnitLens,
    scale: F64,
    u: F64,
    v: F64,
    p: F64,
)
    requires
        ordinary_lens(lens),
        in_frame(x),
        in_frame(y),
        ({
            let (dx, dy) = lens.ray(x, y);
            let td = length(dx, dy);
            &&& val(td) <= 2 as real && !td.below(F64 { bits: ON_AXIS })
            &&& near(p, val(td), slip())
            &&& near(u, val(lens.fx.times(dx.over(scale)).plus(lens.cx)), give())
            &&& near(v, val(lens.fy.times(dy.over(scale)).plus(lens.cy)), give())
        }),
        scale.finite(),
        65 as real * val(scale) >= 1 as real,
        100 as real * val(scale) <= 126 as real,
    ensures
        ({
            let (px, py) = lens.ray(u, v);
            let r = length(px, py);
            &&& near(shown_coordinate(lens.fx, lens.cx, px, p, r), val(x), in_the_end())
            &&& near(shown_coordinate(lens.fy, lens.cy, py, p, r), val(y), in_the_end())
        }),
{
    let (dx, dy) = lens.ray(x, y);
    let td = val(length(dx, dy));
    lemma_seen(x, y, lens);
    let sigma = val(scale);
    let (rho, ax, ay) = (td / sigma, val(dx) / sigma, val(dy) / sigma);
    lemma_quotient(td, sigma);
    lemma_quotient(val(dx), sigma);
    lemma_quotient(val(dy), sigma);
    lemma_met(dx, dy, td, lens, scale, u, v, rho, ax, ay);
    let (px, py) = lens.ray(u, v);
    let r = length(px, py);
    if val(r) * 0x100_0000_0000 as real >= 1 as real {
        lemma_within_radius(val(r), val(px), val(py));
    }
    lemma_axis(lens.fx, lens.cx, x, px, p, r, td, rho, sigma, ax);
    lemma_axis(lens.fy, lens.cy, y, py, p, r, td, rho, sigma, ay);
    if r.below(F64 { bits: ON_AXIS }) {
        lemma_off_axis(r);
    } else {
        lemma_axis_bound(r);
    }
}

/// The round trip before it is narrowed to single precision.
proof fn lemma_distorted_back(
    x: F64,
    y: F64,
    params: CameraParams,
    tangent: F64,
    u: F64,
    v: F64,
    theta: F64,
)
    requires
        ordinary_lens(UnitLens::of(params)),
        mild(params.d@),
        in_frame(x),
        in_frame(y),
        found(searched(x, y, params)),
        fair_tangent(searched(x, y, params), tangent),
        searched(x, y, params).plane_point(tangent) matches Some(uv) ==> near(
            u,
            val(uv.0),
            give(),
        ) && near(v, val(uv.1), give()),
        near(theta, val(searched(x, y, params).theta), fine()),
    ensures
        searched(x, y, params).plane_point(tangent) is Some,
        near(distorted(u, v, params, theta).0, val(x), in_the_end()),
        near(distorted(u, v, params, theta).1, val(y), in_the_end()),
{
    let begun = LensSolve::begun(x, y, params);
    let s = searched(x, y, params);
    let lens = UnitLens::of(params);
    lemma_keeps(begun, params.d@);
    assert(begun.step == SolveStep::Evaluate);
    lemma_seen(x, y, lens);
    let scale = lemma_scale(s, tangent);
    lemma_solved_shown(begun, params.d@, theta);
    let p = shown_at(theta, params.d@);
    lemma_shown_back(x, y, lens, scale, u, v, p);
}

/// The value of a finite number in single precision.
pub open spec fn single_val(x: F32) -> real {
    value(x) as real / pow2(149) as real
}

/// What is lost when a number of at most two is narrowed.
pub proof fn lemma_narrowed(x: F64)
    requires
        x.finite(),
        size(val(x)) <= 2 as real,
    ensures
        x.narrow().finite(),
        0x40_0000 as real * size(single_val(x.narrow()) - val(x)) <= 1 as real,
{
    reveal(F64::narrow);
    lemma_speck();
    lemma_val(x);
    lemma2_to64();
    lemma_pow2_adds(149, 925);
    lemma_pow2_adds(22, 1052);
    lemma_pow2_pos(149);
    lemma_pow2_pos(925);
    let (u, h, g) = (pow2(1074) as int, pow2(925) as int, pow2(149) as int);
    let n = x.parts().size(Format::Double);
    let (c, w) = (size(val(x)), u as real);
    assert(c * w == n as real) by {
        assert((n as real * speck()) * w == n as real * (speck() * w)) by (nonlinear_arith);
        assert(n as real * (1 as real) == n as real);
    }
    lemma_scaled(c, 2 as real, w);
    assert(n <= 2 * u);
    lemma_narrow_near(x.parts());
    let y = x.narrow();
    let (m, k) = (value(y), value_d(x));
    let (s, v) = (single_val(y), val(x));
    lemma_quotient(m as real, g as real);
    let mh = m * h;
    assert(mh as real == m as real * h as real) by (nonlinear_arith)
        requires
            mh == m * h,
    ;
    assert(w == g as real * h as real) by (nonlinear_arith)
        requires
            w == u as real,
            u == g * h,
    ;
    let d = s - v;
    assert(d * w == mh as real - k as real) by {
        assert(s * w == (s * g as real) * h as real) by (nonlinear_arith)
            requires
                w == g as real * h as real,
        ;
        assert(d * w == s * w - v * w) by (nonlinear_arith)
            requires
                d == s - v,
        ;
    }
    lemma_size_times(d, w);
    let e = 0x40_0000 as real * size(d);
    lemma_regroup(0x40_0000 as real, size(d), w);
    lemma_unscaled(e, 1 as real, w);
}

/// A pixel off the edge of the frame by at least a thousandth.
pub open spec fn inside(x: F64) -> bool {
    x.finite() && 1 as real <= 1000 as real * val(x) && 1000 as real * val(x) <= 999 as real
}

/// A place close to a pixel off the edge lies in the frame, and is close to it
/// also in single precision.
proof fn lemma_shown_inside(q: F64, x: F64)
    requires
        inside(x),
        near(q, val(x), in_the_end()),
    ensures
        fraction(q),
        1000 as real * size(single_val(q.narrow()) - val(x)) <= 1 as real,
{
    lemma_one();
    let zero = F64 { bits: ZERO_D };
    lemma_val(zero);
    lemma_val_ordered(zero, q);
    lemma_val_ordered(q, F64 { bits: ONE_D });
    lemma_narrowed(q);
}

/// A distance at most two to the power -39 has coordinates of at most twice that.
proof fn lemma_tiny(td: real, x: real, y: real)
    requires
        radius_of(td, x, y),
        td * 0x80_0000_0000 as real <= 1 as real,
    ensures
        size(x) * 0x40_0000_0000 as real <= 1 as real,
        size(y) * 0x40_0000_0000 as real <= 1 as real,
{
    let total = x * x + y * y;
    let t = part() * total;
    assert(t * 0x1_0000_0000_0000 as real == total) by (nonlinear_arith)
        requires
            t == part() * total,
            part() == 1 as real / 0x1_0000_0000_0000 as real,
    ;
    lemma_square(x);
    lemma_square(y);
    let c = 0x80_0000_0000 as real;
    let w = td * c;
    lemma_scaled(w, 1 as real, w);
    assert(w * w == (td * td) * 0x4000_0000_0000_0000_0000 as real) by (nonlinear_arith)
        requires
            w == td * 0x80_0000_0000 as real,
    ;
    assert(0 as real * c == 0 as real && td * c >= 0 as real * c) by {
        lemma_scaled(0 as real, td, c);
        assert(0 as real * c == 0 as real) by (nonlinear_arith);
    }
    assert(w * w <= 1 as real);
    let (a, b, d) = (size(x), size(y), 0x40_0000_0000 as real);
    let (p, q) = (a * d, b * d);
    assert(p * p == (a * a) * 0x1000_0000_0000_0000_0000 as real && q * q == (b * b)
        * 0x1000_0000_0000_0000_0000 as real) by (nonlinear_arith)
        requires
            p == a * 0x40_0000_0000 as real,
            q == b * 0x40_0000_0000 as real,
    ;
    assert((1 as real) * (1 as real) == 1 as real);
    lemma_unsquared(p, 1 as real);
    lemma_unsquared(q, 1 as real);
}

/// One axis of the round trip of a pixel in the middle.
proof fn lemma_middle_axis(f: F64, c: F64, x0: F64, x: F64, p: F64, r: F64)
    requires
        ordinary_focal(f),
        in_frame(c),
        in_frame(x0),
        size(val(x0.minus(c).over(f))) * 0x40_0000_0000 as real <= 1 as real,
        near(x, 0 as real, moved()),
        near(p, 0 as real, slip()),
        r.finite(),
        val(r) * 0x100_0000_0000 as real >= 1 as real ==> 100 as real * size(val(x)) <= 101
            as real * val(r),
    ensures
        near(c, val(x0), in_the_end()),
        val(r) * 0x100_0000_0000 as real >= 1 as real ==> near(
            f.times(x).times(p.over(r)).plus(c),
            val(x0),
            in_the_end(),
        ),
{
    let d = val(x0.minus(c).over(f));
    let (vf, vr) = (val(f), val(r));
    let b = (val(x0) - val(c)) / vf;
    lemma_quotient(val(x0) - val(c), vf);
    lemma_pixel_ray(x0, c, f, b);
    lemma_shrunk(vf, b);
    assert(vf * b == b * vf) by (nonlinear_arith);
    if vr * 0x100_0000_0000 as real >= 1 as real {
        let z = (val(p) * val(x)) / vr;
        lemma_quotient(val(p) * val(x), vr);
        lemma_shown_axis(f, c, x, p, r, z);
        // z is at most p
        lemma_size_times(z, vr);
        lemma_size_times(val(p), val(x));
        lemma_scaled(100 as real * size(val(x)), 101 as real * vr, size(val(p)));
        let (a, e) = (100 as real * size(z), 101 as real * size(val(p)));
        lemma_regroup(100 as real, size(z), vr);
        lemma_regroup(101 as real, size(val(p)), vr);
        assert(size(val(p)) * (100 as real * size(val(x))) == 100 as real * (size(val(p)) * size(
            val(x),
        )) && size(val(p)) * (101 as real * vr) == 101 as real * (size(val(p)) * vr))
            by (nonlinear_arith);
        lemma_unscaled(a, e, vr);
        lemma_shrunk(vf, z);
    }
}

/// The round trip of a pixel in the middle.
proof fn lemma_middle_back(
    x: F64,
    y: F64,
    params: CameraParams,
    tangent: F64,
    u: F64,
    v: F64,
    theta: F64,
)
    requires
        ordinary_lens(UnitLens::of(params)),
        mild(params.d@),
        in_frame(x),
        in_frame(y),
        searched(x, y, params).step == SolveStep::Center,
        searched(x, y, params).plane_point(tangent) matches Some(uv) ==> near(
            u,
            val(uv.0),
            give(),
        ) && near(v, val(uv.1), give()),
        near(theta, val(searched(x, y, params).theta), fine()),
    ensures
        searched(x, y, params).plane_point(tangent) is Some,
        near(distorted(u, v, params, theta).0, val(x), in_the_end()),
        near(distorted(u, v, params, theta).1, val(y), in_the_end()),
{
    let begun = LensSolve::begun(x, y, params);
    let lens = UnitLens::of(params);
    lemma_keeps(begun, params.d@);
    lemma_center_kept(begun, params.d@);
    let (dx, dy) = lens.ray(x, y);
    let bx = (val(x) - val(lens.cx)) / val(lens.fx);
    lemma_quotient(val(x) - val(lens.cx), val(lens.fx));
    lemma_pixel_ray(x, lens.cx, lens.fx, bx);
    let by = (val(y) - val(lens.cy)) / val(lens.fy);
    lemma_quotient(val(y) - val(lens.cy), val(lens.fy));
    lemma_pixel_ray(y, lens.cy, lens.fy, by);
    lemma_length(dx, dy);
    let td = length(dx, dy);
    lemma_off_axis(td);
    lemma_tiny(val(td), val(dx), val(dy));
    // the plane
    let zero = 0 as real;
    assert(val(lens.fx) * zero == zero && val(lens.fy) * zero == zero);
    lemma_from_plane(lens.fx, lens.cx, u, zero);
    lemma_from_plane(lens.fy, lens.cy, v, zero);
    let (px, py) = lens.ray(u, v);
    lemma_length(px, py);
    let r = length(px, py);
    // the lens
    let d = fine() + 1 as real / 0x80_0000_0000 as real;
    assert(near(theta, zero, d));
    lemma_shown_near(theta, params.d@, zero, d);
    let p = shown_at(theta, params.d@);
    lemma_polynomial_zero(params.d@);
    if val(r) * 0x100_0000_0000 as real >= 1 as real {
        lemma_within_radius(val(r), val(px), val(py));
    }
    lemma_middle_axis(lens.fx, lens.cx, x, px, p, r);
    lemma_middle_axis(lens.fy, lens.cy, y, py, p, r);
    if !r.below(F64 { bits: ON_AXIS }) {
        lemma_axis_bound(r);
    }
}

/// A search that ends in the middle began there.
proof fn lemma_center_kept(s: LensSolve, k: Seq<F64>)
    requires
        s.finished(k).step == SolveStep::Center,
    ensures
        s.step == SolveStep::Center,
        s.finished(k) == s,
    decreases s.left(),
{
    if s.step == SolveStep::Evaluate && s.iterations < MAX_ITERATIONS {
        lemma_center_kept(
            s.stepped(shown_at(s.theta, k), growth_at(s.theta, k)),
            k,
        );
    }
}

/// The polynomial of no angle is nothing.
proof fn lemma_polynomial_zero(k: Seq<F64>)
    ensures
        polynomial(0 as real, k) == 0 as real,
{
    let zero = 0 as real;
    let t2 = zero * zero;
    let t4 = t2 * t2;
    let y = 1 as real + val(k[0]) * t2 + val(k[1]) * t4 + val(k[2]) * (t4 * t2) + val(k[3]) * (t4
        * t4);
    assert(zero * y == zero) by (nonlinear_arith)
        requires
            zero == 0 as real,
    ;
}

/// A pixel of one of the cameras leads to a point of the camera's plane; and that
/// point, or one that is off by no more than nine times two to the power -20, leads
/// back to the pixel within a thousandth of the frame. `tangent` is that of the angle
/// that the lens search found, and `theta` the angle of the point, which is to come
/// within a fourteen-thousandth of the one found: tangents and arctangents are the
/// caller's.
pub proof fn law_pixel_leads_back(
    x: F64,
    y: F64,
    params: CameraParams,
    tangent: F64,
    u: F64,
    v: F64,
    theta: F64,
)
    requires
        ordinary_lens(UnitLens::of(params)),
        mild(params.d@),
        inside(x),
        inside(y),
        searched(x, y, params).step == SolveStep::Center || (found(searched(x, y, params))
            && fair_tangent(searched(x, y, params), tangent)),
        searched(x, y, params).plane_point(tangent) matches Some(uv) ==> near(
            u,
            val(uv.0),
            give(),
        ) && near(v, val(uv.1), give()),
        near(theta, val(searched(x, y, params).theta), fine()),
        fraction(texture(u)),
        fraction(texture(v)),
    ensures
        searched(x, y, params).plane_point(tangent) is Some,
        in_camera(u, v, params, theta) matches Some(p) && 1000 as real * size(
            single_val(p.0) - val(x),
        ) <= 1 as real && 1000 as real * size(single_val(p.1) - val(y)) <= 1 as real,
{
    if searched(x, y, params).step == SolveStep::Center {
        lemma_middle_back(x, y, params, tangent, u, v, theta);
    } else {
        lemma_distorted_back(x, y, params, tangent, u, v, theta);
    }
    let q = distorted(u, v, params, theta);
    lemma_shown_inside(q.0, x);
    lemma_shown_inside(q.1, y);
}

/// How much a point of the quad may be off, in the plane's coordinates: two to the
/// power -20.
pub open spec fn spare() -> real {
    1 as real / 0x10_0000 as real
}

/// What is close in units is close.
proof fn lemma_close(a: F64, b: F64)
    requires
        close(a, b),
    ensures
        near(a, val(b), 8 as real * spare()),
{
    lemma_val(a);
    lemma_val(b);
    lemma_speck();
    let (m, n, w) = (value_d(a), value_d(b), pow2(1074) as real);
    let d = val(a) - val(b);
    assert(d * w == m as real - n as real) by (nonlinear_arith)
        requires
            d == val(a) - val(b),
            val(a) * w == m as real,
            val(b) * w == n as real,
    ;
    lemma_size_times(d, w);
    let e = 0x2_0000 as real * size(d);
    lemma_regroup(0x2_0000 as real, size(d), w);
    lemma_unscaled(e, 1 as real, w);
}

/// The way of a pixel to the panorama and back: it leads to a point of the camera's
/// quad, as `camera_to_panorama` has it; and the point `hit` at which the ray there
/// meets the quad, which is to come within two to the power -20 of it in the
/// plane's coordinates, leads back to the pixel within a thousandth of the frame, as
/// `panorama_to_camera` has it.
pub proof fn law_camera_leads_back(
    camera: CameraId,
    x: F32,
    y: F32,
    calibration: MatchCalibration,
    tangent: F64,
    aspect: F32,
    hit: (F32, F32),
    theta: F64,
)
    requires
        ({
            let params = side_of(calibration, camera);
            let s = searched(x.wide(), y.wide(), params);
            let (u, v) = on_plane(hit, F32 { bits: ONE }, aspect);
            &&& ordinary_lens(UnitLens::of(params))
            &&& mild(params.d@)
            &&& inside(x.wide()) && inside(y.wide())
            &&& s.step == SolveStep::Center || (found(s) && fair_tangent(s, tangent))
            &&& aspect_in_reach(aspect)
            &&& s.plane_point(tangent) matches Some(uv) ==> {
                let there = on_plane(on_quad(uv, aspect), F32 { bits: ONE }, aspect);
                &&& on_extended_plane(uv.0) && on_extended_plane(uv.1)
                &&& near(u, val(there.0), spare()) && near(v, val(there.1), spare())
            }
            &&& fraction(texture(u)) && fraction(texture(v))
            &&& near(theta, val(s.theta), fine())
        }),
    ensures
        ({
            let params = side_of(calibration, camera);
            let (u, v) = on_plane(hit, F32 { bits: ONE }, aspect);
            &&& searched(x.wide(), y.wide(), params).plane_point(tangent) is Some
            &&& in_camera(u, v, params, theta) matches Some(p) && 1000 as real * size(
                single_val(p.0) - val(x.wide()),
            ) <= 1 as real && 1000 as real * size(single_val(p.1) - val(y.wide())) <= 1 as real
        }),
{
    let params = side_of(calibration, camera);
    let s = searched(x.wide(), y.wide(), params);
    let (u, v) = on_plane(hit, F32 { bits: ONE }, aspect);
    if let Some(uv) = s.plane_point(tangent) {
        let there = on_plane(on_quad(uv, aspect), F32 { bits: ONE }, aspect);
        law_plane_leads_back(uv, aspect);
        lemma_close(there.0, uv.0);
        lemma_close(there.1, uv.1);
    }
    law_pixel_leads_back(x.wide(), y.wide(), params, tangent, u, v, theta);
}

} // verus!
