//! Which way up a plane lies on the quad of its camera.
use crate::lens_laws;
use crate::algebra::{lemma_nothing, lemma_spread_out, lemma_three};
use crate::double::F64;
use crate::near_laws::{
    lemma_last_place, lemma_nigh_minus, lemma_nigh_plus, lemma_notch, lemma_relative, nigh, notch,
};
use crate::plane_laws::{lemma_coordinate, on_extended_plane, value_d};
use crate::projection::{on_plane, on_quad, HALF_D, TWO, TWO_D};
use crate::radius_laws::{lemma_scaled, lemma_size_times, lemma_unscaled};
use crate::real_laws::{self, size};
use crate::real_single_laws::{lemma_over, lemma_speck, lemma_times, speck, ulp, val};
use crate::round_trip_laws::{lemma_narrowed, lemma_quotient};
use crate::single::F32;
use crate::value_laws::{lemma_small_constants, lemma_wide};
use crate::viewport::HALF;
use vstd::arithmetic::power2::{lemma_pow2_pos, pow2};
use vstd::prelude::*;

verus! {

/// Two to the power -12.
pub open spec fn hair() -> real {
    1 as real / 0x1000 as real
}

/// The ratio of the sides of a plane, or a width, of ordinary size.
pub open spec fn ordinary_side(x: F32) -> bool {
    x.finite() && 1 as real <= val(x) * 0x10_0000 as real && val(x) <= 0x10_0000 as real
}

/// The value of a coordinate of the plane.
proof fn lemma_coordinate_real(x: F64)
    requires
        on_extended_plane(x),
    ensures
        x.finite(),
        size(real_laws::val(x)) <= 2 as real,
{
    lemma_coordinate(x);
    lemma_pow2_pos(1074);
    real_laws::lemma_val(x);
    let (v, u) = (real_laws::val(x), pow2(1074) as real);
    assert(v * u == value_d(x) as real);
    lemma_unscaled(v, 2 as real, u);
    lemma_nothing(u);
    lemma_spread_out(0 as real, v, u);
    lemma_unscaled(0 as real - v, 2 as real, u);
}

/// Where a coordinate stands on the texture.
proof fn lemma_on_texture(x: F64)
    requires
        on_extended_plane(x),
    ensures
        ({
            let c = x.plus(F64 { bits: HALF_D }).over(F64 { bits: TWO_D }).narrow();
            let v = real_laws::val(x);
            size(v) <= 2 as real && nigh(
                c,
                (v + 1 as real / 2 as real) / 2 as real,
                2 as real * notch(),
            )
        }),
{
    let half = F64 { bits: HALF_D };
    let two = F64 { bits: TWO_D };
    let v = real_laws::val(x);
    let a = x.plus(half);
    lemma_small_constants();
    lemma_coordinate_real(x);
    lens_laws::lemma_near_plus(
        x,
        v,
        0 as real,
        half,
        1 as real / 2 as real,
        0 as real,
    );
    real_laws::lemma_over(a, two);
    lens_laws::lemma_tick(real_laws::val(a.over(two)), real_laws::val(a) / 2 as real);
    lemma_narrowed(a.over(two));
}

/// Where on the quad a point of the plane lies: to the right by half of what its
/// first coordinate is beyond the middle, and up, in units of the quad's height,
/// by half of what its second coordinate is short of the middle. So the middle
/// of the plane lies at the origin, and the top of the picture is up.
pub proof fn law_plane_lies_upright(uv: (F64, F64), aspect: F32)
    requires
        on_extended_plane(uv.0),
        on_extended_plane(uv.1),
        ordinary_side(aspect),
    ensures
        ({
            let (x, y) = on_quad(uv, aspect);
            let middle = 1 as real / 2 as real;
            &&& x.finite() && y.finite()
            &&& size(val(x) - (real_laws::val(uv.0) - middle) / 2 as real) <= hair()
            &&& size(val(y) * val(aspect) - (middle - real_laws::val(uv.1)) / 2 as real) <= hair()
        }),
{
    let half = F32 { bits: HALF };
    let m = 1 as real / 2 as real;
    let (p, q) = (real_laws::val(uv.0), real_laws::val(uv.1));
    let u = uv.0.plus(F64 { bits: HALF_D }).over(F64 { bits: TWO_D }).narrow();
    let v = uv.1.plus(F64 { bits: HALF_D }).over(F64 { bits: TWO_D }).narrow();
    lemma_small_constants();
    lemma_on_texture(uv.0);
    lemma_on_texture(uv.1);
    let (e, z) = (2 as real * notch(), 0 as real);
    lemma_nigh_minus(u, (p + m) / 2 as real, e, half, m, z);
    lemma_nigh_minus(half, m, z, v, (q + m) / 2 as real, e);
    let d = half.minus(v);
    lemma_divided(d, aspect);
}

/// A number of at most two over a side, times the side.
proof fn lemma_divided(d: F32, side: F32)
    requires
        d.finite(),
        size(val(d)) <= 4 as real,
        ordinary_side(side),
    ensures
        d.over(side).finite(),
        size(val(d.over(side)) * val(side) - val(d)) <= notch(),
        size(val(d) / val(side)) <= 0x40_0000 as real,
{
    lemma_speck();
    let (x, a, w, k) = (val(d), val(side), ulp(), speck());
    let t = x / a;
    lemma_quotient(x, a);
    lemma_size_times(t, a);
    let n = 0x10_0000 as real;
    lemma_scaled(1 as real, a * n, size(t));
    lemma_three(size(t), a, n);
    lemma_nothing(size(t));
    lemma_over(d, side);
    let r = val(d.over(side));
    lemma_relative(r, t);
    let g = r - t;
    lemma_spread_out(r, t, a);
    lemma_size_times(g, a);
    lemma_scaled(size(g), size(t) * w + k, a);
    lemma_spread_out(size(t) * w, k, a);
    lemma_three(size(t), w, a);
    lemma_last_place(size(x));
    lemma_scaled(a, n, k);
    assert(k * a <= k * n);
}

/// Of two points of the plane, the one higher up in the picture lies higher on
/// the quad, and the one farther right lies farther right.
pub proof fn law_order_on_the_quad(a: (F64, F64), b: (F64, F64), aspect: F32)
    requires
        on_extended_plane(a.0),
        on_extended_plane(a.1),
        on_extended_plane(b.0),
        on_extended_plane(b.1),
        ordinary_side(aspect),
    ensures
        ({
            let (p, q) = (on_quad(a, aspect), on_quad(b, aspect));
            let gap = 5 as real * hair();
            &&& real_laws::val(a.0) + gap <= real_laws::val(b.0) ==> val(p.0) < val(q.0)
            &&& real_laws::val(a.1) + gap <= real_laws::val(b.1) ==> val(p.1) > val(q.1)
        }),
{
    law_plane_lies_upright(a, aspect);
    law_plane_lies_upright(b, aspect);
    let (p, q) = (on_quad(a, aspect), on_quad(b, aspect));
    if val(p.1) <= val(q.1) {
        lemma_scaled(val(p.1), val(q.1), val(aspect));
    }
}

/// A quotient of at most two is close to the exact one.
proof fn lemma_in_widths(x: F32, width: F32)
    requires
        x.finite(),
        ordinary_side(width),
        size(val(x)) <= 2 as real * val(width),
    ensures
        nigh(x.over(width), val(x) / val(width), notch()),
        size(val(x) / val(width)) <= 2 as real,
{
    let t = val(x) / val(width);
    lemma_quotient(val(x), val(width));
    lemma_size_times(t, val(width));
    lemma_unscaled(size(t), 2 as real, val(width));
    lemma_over(x, width);
    lemma_notch(val(x.over(width)), t);
}

/// A quotient of numbers that are close.
proof fn lemma_close_in_widths(m: F32, exact: real, width: F32)
    requires
        m.finite(),
        ordinary_side(width),
        size(exact) <= val(width),
        size(val(m) - exact) <= notch() * val(width),
    ensures
        nigh(m.over(width), exact / val(width), 2 as real * notch()),
        size(exact / val(width)) <= 1 as real,
{
    let a = val(width);
    let (s, t) = (val(m) / a, exact / a);
    lemma_quotient(val(m), a);
    lemma_quotient(exact, a);
    lemma_size_times(t, a);
    lemma_nothing(a);
    lemma_unscaled(size(t), 1 as real, a);
    lemma_spread_out(s, t, a);
    lemma_size_times(s - t, a);
    lemma_unscaled(size(s - t), notch(), a);
    lemma_over(m, width);
    lemma_notch(val(m.over(width)), s);
}

/// Doubled, and moved by a half.
proof fn lemma_to_plane(c: F32, t: real)
    requires
        nigh(c, t, 4 as real * notch()),
        size(t) <= 3 as real,
    ensures
        nigh(
            c.times(F32 { bits: TWO }).minus(F32 { bits: HALF }),
            2 as real * t - 1 as real / 2 as real,
            hair(),
        ),
{
    lemma_small_constants();
    let two = F32 { bits: TWO };
    lemma_times(c, two);
    lemma_notch(val(c.times(two)), val(c) * 2 as real);
    lemma_nigh_minus(
        c.times(two),
        2 as real * t,
        9 as real * notch(),
        F32 { bits: HALF },
        1 as real / 2 as real,
        0 as real,
    );
}

/// Where on the plane a point of the quad lies: right of the middle by twice its
/// distance to the right in quad widths, and above the middle, which is towards
/// lesser coordinates, by twice its height in quad heights.
pub proof fn law_quad_lies_upright(local: (F32, F32), width: F32, aspect: F32)
    requires
        local.0.finite(),
        local.1.finite(),
        ordinary_side(width),
        ordinary_side(aspect),
        size(val(local.0)) <= 2 as real * val(width),
        size(val(local.1) * val(aspect)) <= val(width),
    ensures
        ({
            let (u, v) = on_plane(local, width, aspect);
            let middle = 1 as real / 2 as real;
            &&& u.finite() && v.finite()
            &&& size(
                real_laws::val(u) - (middle + 2 as real * (val(local.0) / val(width))),
            ) <= hair()
            &&& size(
                real_laws::val(v) - (middle - 2 as real * ((val(local.1) * val(aspect)) / val(
                    width,
                ))),
            ) <= hair()
        }),
{
    lemma_small_constants();
    lemma_speck();
    let half = F32 { bits: HALF };
    let two = F32 { bits: TWO };
    let h = 1 as real / 2 as real;
    lemma_in_widths(local.0, width);
    let t = val(local.0) / val(width);
    lemma_nigh_plus(local.0.over(width), t, notch(), half, h, 0 as real);
    lemma_to_plane(local.0.over(width).plus(half), t + h);
    lemma_wide(local.0.over(width).plus(half).times(two).minus(half));
    let exact = val(local.1) * val(aspect);
    lemma_times(local.1, aspect);
    let m = local.1.times(aspect);
    lemma_relative(val(m), exact);
    lemma_last_place(size(exact));
    lemma_close_in_widths(m, exact, width);
    let s = exact / val(width);
    lemma_nigh_minus(half, h, 0 as real, m.over(width), s, 2 as real * notch());
    lemma_to_plane(half.minus(m.over(width)), h - s);
    lemma_wide(half.minus(m.over(width)).times(two).minus(half));
}

} // verus!
