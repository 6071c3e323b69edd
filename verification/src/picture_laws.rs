//! How a lens, a cylinder and a border show the world: which side is which, and
//! by how much.
use crate::algebra::{lemma_nothing, lemma_spread_out, lemma_swap, lemma_three};
use crate::calibration::CameraParams;
use crate::cost_laws::law_mean_times_count;
use crate::double::F64;
use crate::kb4::shown_at;
use crate::lens_laws::{lemma_tick, tick};
use crate::near_laws::{
    lemma_last_place, lemma_nigh_minus, lemma_nigh_plus, lemma_nigh_times, lemma_notch,
    lemma_relative, nigh, notch,
};
use crate::projection::{
    border_sample, distorted, extent_of, length, met, upright, CylindricalProjectionConfig,
    LensSolve, SolveStep, UnitLens, HALF_PI, ON_AXIS, PARALLEL,
};
use crate::radius_laws::{lemma_scaled, lemma_size_times, lemma_square, lemma_unscaled};
use crate::real_laws::{self, size};
use crate::real_single_laws::{self, val};
use crate::round_trip_laws::{lemma_narrowed, lemma_quotient};
use crate::rounding::{law_ratio_rounds, lemma_rung_in_binade, Format};
use crate::single::F32;
use crate::value_laws::{lemma_small_constants, lemma_whole_single};
use crate::viewport::HALF;
use crate::world::ViewportPosition;
use vstd::arithmetic::power2::{
    lemma2_to64, lemma2_to64_rest, lemma_pow2_adds, lemma_pow2_pos, pow2,
};
use vstd::prelude::*;

verus! {

/// Where a point of the frame lies on the cylinder: around it in proportion to
/// how far across the frame it is, with the middle of the frame at a quarter
/// turn; and over the middle by how far above the middle of the frame it is, in
/// painted heights. So the top of the frame is up.
pub proof fn law_cylinder_is_upright(c: CylindricalProjectionConfig, x: F32, y: F32)
    requires
        x.finite() && y.finite() && c.angular_sweep_rad.finite() && c.video_height.finite(),
        size(val(x)) <= 2 as real && size(val(y)) <= 2 as real,
        size(val(c.angular_sweep_rad)) <= 8 as real && size(val(c.video_height)) <= 8 as real,
    ensures
        ({
            let (angle, height) = c.painted(x, y);
            let middle = 1 as real / 2 as real;
            let quarter = val(F32 { bits: HALF_PI });
            &&& nigh(
                angle,
                quarter + (val(x) - middle) * val(c.angular_sweep_rad),
                8 as real * notch(),
            )
            &&& nigh(height, (middle - val(y)) * val(c.video_height), 16 as real * notch())
        }),
{
    lemma_small_constants();
    lemma_quarter();
    let (half, one, quarter) = (
        F32 { bits: HALF },
        F32 { bits: 0x3F80_0000 },
        F32 { bits: HALF_PI },
    );
    let (s, h, m) = (c.angular_sweep_rad, c.video_height, 1 as real / 2 as real);
    let (a, b, p, q) = (val(s), val(h), val(x), val(y));
    lemma_nothing(a);
    lemma_nothing(b);
    lemma_nothing(m);
    lemma_nothing(8 as real);
    lemma_nothing(2 as real);
    lemma_size_times(a, m);
    lemma_size_times(b, m);
    lemma_size_times(p, a);
    lemma_scaled(size(p), 2 as real, size(a));
    lemma_nigh_times(s, a, 0 as real, half, m, 0 as real, 8 as real, 1 as real);
    lemma_nigh_times(h, b, 0 as real, half, m, 0 as real, 8 as real, 1 as real);
    lemma_nigh_times(x, p, 0 as real, s, a, 0 as real, 2 as real, 8 as real);
    lemma_nigh_minus(quarter, val(quarter), 0 as real, s.times(half), a * m, notch());
    lemma_nigh_plus(
        c.theta_start(),
        val(quarter) - a * m,
        2 as real * notch(),
        x.times(s),
        p * a,
        notch(),
    );
    lemma_spread_out(p, m, a);
    lemma_swap(m, a);
    lemma_nigh_minus(one, 1 as real, 0 as real, y, q, 0 as real);
    let up = one.minus(y);
    lemma_nigh_times(up, 1 as real - q, notch(), h, b, 0 as real, 3 as real, 8 as real);
    lemma_nothing(3 as real);
    lemma_size_times(1 as real - q, b);
    lemma_scaled(size(1 as real - q), 3 as real, size(b));
    lemma_nigh_minus(
        up.times(h),
        (1 as real - q) * b,
        9 as real * notch(),
        h.times(half),
        b * m,
        notch(),
    );
    lemma_spread_out(1 as real - q, m, b);
    lemma_swap(m, b);
}

/// A quarter turn is a number of at most two.
proof fn lemma_quarter()
    ensures
        (F32 { bits: HALF_PI }).finite(),
        size(val(F32 { bits: HALF_PI })) <= 2 as real,
{
    let (q, two) = (F32 { bits: HALF_PI }, F32 { bits: 0x4000_0000 });
    lemma_small_constants();
    real_single_laws::lemma_val(q);
    real_single_laws::lemma_val_ordered(q, two);
}

/// The samples of the border stand on the four edges of the frame, at equal
/// steps from corner to corner.
pub proof fn law_border_goes_along_the_edges(i: int)
    requires
        0 <= i <= 64,
    ensures
        ({
            let (zero, one) = (F32 { bits: 0 }, F32 { bits: 0x3F80_0000 });
            let t = border_sample(4 * i).0;
            &&& nigh(t, i as real / 64 as real, notch())
            &&& border_sample(4 * i) == (t, zero)
            &&& border_sample(4 * i + 1) == (t, one)
            &&& border_sample(4 * i + 2) == (zero, t)
            &&& border_sample(4 * i + 3) == (one, t)
        }),
{
    assert((4 * i) / 4 == i && (4 * i + 1) / 4 == i && (4 * i + 2) / 4 == i && (4 * i + 3) / 4
        == i);
    assert((4 * i) % 4 == 0 && (4 * i + 1) % 4 == 1 && (4 * i + 2) % 4 == 2 && (4 * i + 3) % 4
        == 3);
    lemma_whole_single(i as nat);
    lemma_whole_single(64);
    let (a, b) = (F32::of_whole(i as nat), F32::of_whole(64));
    real_single_laws::lemma_over(a, b);
    lemma_notch(val(a.over(b)), i as real / 64 as real);
}

/// The extent of positions is no larger than it has to be: each of its four ends
/// is at one of them.
pub proof fn law_extent_touches_positions(positions: Seq<ViewportPosition>)
    requires
        positions.len() > 0,
        forall|i: int|
            0 <= i < positions.len() ==> (#[trigger] positions[i]).yaw.finite()
                && positions[i].pitch.finite(),
    ensures
        ({
            let e = extent_of(positions);
            &&& exists|i: int| 0 <= i < positions.len() && (#[trigger] positions[i]).yaw == (e.0).0
            &&& exists|i: int| 0 <= i < positions.len() && (#[trigger] positions[i]).yaw == (e.0).1
            &&& exists|i: int|
                0 <= i < positions.len() && (#[trigger] positions[i]).pitch == (e.1).0
            &&& exists|i: int|
                0 <= i < positions.len() && (#[trigger] positions[i]).pitch == (e.1).1
        }),
    decreases positions.len(),
{
    let rest = positions.drop_last();
    let last = positions[positions.len() - 1];
    assert(last.yaw.finite());
    assert(positions.last() == last);
    if rest.len() > 0 {
        assert forall|i: int| 0 <= i < rest.len() implies (#[trigger] rest[i]).yaw.finite()
            && rest[i].pitch.finite() by {
            assert(rest[i] == positions[i]);
        }
        law_extent_touches_positions(rest);
        let e = extent_of(rest);
        let a = choose|i: int| 0 <= i < rest.len() && (#[trigger] rest[i]).yaw == (e.0).0;
        let b = choose|i: int| 0 <= i < rest.len() && (#[trigger] rest[i]).yaw == (e.0).1;
        let c = choose|i: int| 0 <= i < rest.len() && (#[trigger] rest[i]).pitch == (e.1).0;
        let d = choose|i: int| 0 <= i < rest.len() && (#[trigger] rest[i]).pitch == (e.1).1;
        assert(positions[a] == rest[a] && positions[b] == rest[b]);
        assert(positions[c] == rest[c] && positions[d] == rest[d]);
    } else {
        let e = extent_of(rest);
        assert((e.0).0 == (F32 { bits: 0x7F80_0000 }) && (e.0).1 == (F32 { bits: 0xFF80_0000 }));
    }
}

/// The lens of a camera in fractions of its frame: its lengths across are over
/// the width, and its lengths down over the height.
pub proof fn law_unit_lens_is_in_fractions(params: CameraParams)
    requires
        params.width > 0 && params.height > 0,
        params.fx.finite() && params.fy.finite() && params.cx.finite() && params.cy.finite(),
        size(real_laws::val(params.fx)) <= 0x100_0000_0000 as real,
        size(real_laws::val(params.fy)) <= 0x100_0000_0000 as real,
        size(real_laws::val(params.cx)) <= 0x100_0000_0000 as real,
        size(real_laws::val(params.cy)) <= 0x100_0000_0000 as real,
    ensures
        ({
            let u = UnitLens::of(params);
            let n = 0x4_0000_0000_0000 as real;
            let (w, h) = (params.width as real, params.height as real);
            &&& u.fx.finite() && u.fy.finite() && u.cx.finite() && u.cy.finite()
            &&& n * size(real_laws::val(u.fx) * w - real_laws::val(params.fx)) <= size(
                real_laws::val(params.fx),
            ) + 1 as real
            &&& n * size(real_laws::val(u.fy) * h - real_laws::val(params.fy)) <= size(
                real_laws::val(params.fy),
            ) + 1 as real
            &&& n * size(real_laws::val(u.cx) * w - real_laws::val(params.cx)) <= size(
                real_laws::val(params.cx),
            ) + 1 as real
            &&& n * size(real_laws::val(u.cy) * h - real_laws::val(params.cy)) <= size(
                real_laws::val(params.cy),
            ) + 1 as real
        }),
{
    law_mean_times_count(params.width as nat, params.fx);
    law_mean_times_count(params.height as nat, params.fy);
    law_mean_times_count(params.width as nat, params.cx);
    law_mean_times_count(params.height as nat, params.cy);
}

/// A focal length, in fractions of a frame, of ordinary size.
pub open spec fn usual_focal(f: F64) -> bool {
    f.finite() && 1 as real <= 64 as real * real_laws::val(f) && real_laws::val(f) <= 8 as real
}

/// A coordinate of ordinary size.
pub open spec fn usual(x: F64) -> bool {
    x.finite() && size(real_laws::val(x)) <= 8 as real
}

/// A point as seen from the optical axis: times the focal length it is the offset
/// from the principal point, across by the one and down by the other.
pub proof fn law_ray_is_the_offset(lens: UnitLens, x: F64, y: F64)
    requires
        usual_focal(lens.fx) && usual_focal(lens.fy),
        usual(lens.cx) && usual(lens.cy) && usual(x) && usual(y),
    ensures
        ({
            let (a, b) = lens.ray(x, y);
            &&& a.finite() && b.finite()
            &&& size(
                real_laws::val(a) * real_laws::val(lens.fx) - (real_laws::val(x) - real_laws::val(
                    lens.cx,
                )),
            ) <= 10 as real * tick()
            &&& size(
                real_laws::val(b) * real_laws::val(lens.fy) - (real_laws::val(y) - real_laws::val(
                    lens.cy,
                )),
            ) <= 10 as real * tick()
        }),
{
    lemma_one_ray(x, lens.cx, lens.fx);
    lemma_one_ray(y, lens.cy, lens.fy);
}

/// One coordinate of a ray.
proof fn lemma_one_ray(x: F64, c: F64, f: F64)
    requires
        usual_focal(f),
        usual(c) && usual(x),
    ensures
        ({
            let a = x.minus(c).over(f);
            &&& a.finite()
            &&& size(
                real_laws::val(a) * real_laws::val(f) - (real_laws::val(x) - real_laws::val(c)),
            ) <= 10 as real * tick()
        }),
{
    let (d, v) = (real_laws::val(x) - real_laws::val(c), real_laws::val(f));
    real_laws::lemma_minus(x, c);
    let m = x.minus(c);
    lemma_tick(real_laws::val(m), d);
    let t = real_laws::val(m) / v;
    lemma_quotient(real_laws::val(m), v);
    lemma_size_times(t, v);
    lemma_scaled(1 as real / 64 as real, v, size(t));
    lemma_three(size(t), 1 as real / 64 as real, 64 as real);
    lemma_nothing(size(t));
    real_laws::lemma_over(m, f);
    let r = real_laws::val(m.over(f));
    lemma_tick(r, t);
    lemma_spread_out(r, t, v);
    lemma_size_times(r - t, v);
    lemma_scaled(size(r - t), tick(), v);
    lemma_scaled(v, 8 as real, tick());
}

/// A lens shows a point on the side of the axis where it is, and at the distance
/// that its angle is shown at: across and down, the offset of the picture from
/// the principal point is to the focal length times the shown distance as the
/// point is to its own distance from the axis.
pub proof fn law_lens_keeps_sides(u: F64, v: F64, params: CameraParams, theta: F64)
    requires
        ({
            let lens = UnitLens::of(params);
            let (x, y) = lens.ray(u, v);
            let r = length(x, y);
            &&& usual_focal(lens.fx) && usual_focal(lens.fy)
            &&& usual(lens.cx) && usual(lens.cy) && usual(x) && usual(y) && usual(r)
            &&& 1 as real <= 4 as real * real_laws::val(r)
            &&& !r.below(F64 { bits: ON_AXIS })
            &&& usual(shown_at(theta, params.d@))
        }),
    ensures
        ({
            let lens = UnitLens::of(params);
            let (x, y) = lens.ray(u, v);
            let r = real_laws::val(length(x, y));
            let far = real_laws::val(shown_at(theta, params.d@));
            let p = distorted(u, v, params, theta);
            &&& p.0.finite() && p.1.finite()
            &&& size(
                (real_laws::val(p.0) - real_laws::val(lens.cx)) * r - (real_laws::val(lens.fx)
                    * real_laws::val(x)) * far,
            ) <= 900 as real * tick()
            &&& size(
                (real_laws::val(p.1) - real_laws::val(lens.cy)) * r - (real_laws::val(lens.fy)
                    * real_laws::val(y)) * far,
            ) <= 900 as real * tick()
        }),
{
    let lens = UnitLens::of(params);
    let (x, y) = lens.ray(u, v);
    let r = length(x, y);
    let far = shown_at(theta, params.d@);
    lemma_one_shown(lens.fx, lens.cx, x, far, r);
    lemma_one_shown(lens.fy, lens.cy, y, far, r);
}

/// One coordinate of a picture.
proof fn lemma_one_shown(f: F64, c: F64, x: F64, far: F64, r: F64)
    requires
        usual_focal(f),
        usual(c) && usual(x) && usual(far) && usual(r),
        1 as real <= 4 as real * real_laws::val(r),
    ensures
        ({
            let p = f.times(x).times(far.over(r)).plus(c);
            &&& p.finite()
            &&& size(
                (real_laws::val(p) - real_laws::val(c)) * real_laws::val(r) - (real_laws::val(f)
                    * real_laws::val(x)) * real_laws::val(far),
            ) <= 900 as real * tick()
        }),
{
    let (a, b, w, q) = (
        real_laws::val(f),
        real_laws::val(x),
        real_laws::val(far),
        real_laws::val(r),
    );
    let t = w / q;
    lemma_quotient(w, q);
    lemma_size_times(t, q);
    lemma_scaled(1 as real / 4 as real, q, size(t));
    lemma_three(size(t), 1 as real / 4 as real, 4 as real);
    lemma_nothing(size(t));
    real_laws::lemma_over(far, r);
    let s = real_laws::val(far.over(r));
    lemma_tick(s, t);
    let m = a * b;
    lemma_size_times(a, b);
    lemma_scaled(size(a), 8 as real, size(b));
    real_laws::lemma_times(f, x);
    let n = real_laws::val(f.times(x));
    lemma_tick(n, m);
    lemma_size_times(n, s);
    lemma_scaled(size(n), 65 as real, size(s));
    real_laws::lemma_times(f.times(x), far.over(r));
    let o = f.times(x).times(far.over(r));
    lemma_tick(real_laws::val(o), n * s);
    // The two losses of the product.
    lemma_spread_out(n, m, s);
    lemma_spread_out(s, t, m);
    lemma_size_times(n - m, s);
    lemma_size_times(m, s - t);
    lemma_scaled(size(n - m), tick(), size(s));
    lemma_scaled(size(s), 33 as real, tick());
    lemma_scaled(size(s - t), tick(), size(m));
    lemma_scaled(size(m), 64 as real, tick());
    lemma_size_times(m, t);
    lemma_scaled(size(m), 64 as real, size(t));
    assert(size(n * s - m * t) <= 97 as real * tick());
    real_laws::lemma_plus(o, c);
    let p = real_laws::val(o.plus(c));
    lemma_tick(p, real_laws::val(o) + real_laws::val(c));
    let d = p - real_laws::val(c);
    lemma_spread_out(d, m * t, q);
    lemma_three(m, t, q);
    lemma_size_times(d - m * t, q);
    lemma_scaled(size(d - m * t), 99 as real * tick(), q);
    lemma_scaled(q, 8 as real, 99 as real * tick());
}

/// A solved search leads to a point on the side of the axis where its picture
/// is: times the scale, the offset of the point from the principal point is the
/// focal length times the offset of the picture in focal lengths.
pub proof fn law_plane_point_keeps_sides(s: LensSolve, tangent: F64)
    requires
        s.step == SolveStep::Solved,
        usual_focal(s.lens.fx) && usual_focal(s.lens.fy),
        usual(s.lens.cx) && usual(s.lens.cy) && usual(s.dx) && usual(s.dy),
        !s.theta.magnitude().below(F64 { bits: ON_AXIS }),
        usual(s.theta_d.over(tangent)),
        1 as real <= 16 as real * real_laws::val(s.theta_d.over(tangent)),
    ensures
        s.plane_point(tangent) is Some,
        ({
            let p = s.plane_point(tangent)->0;
            let scale = real_laws::val(s.theta_d.over(tangent));
            &&& p.0.finite() && p.1.finite()
            &&& size(
                (real_laws::val(p.0) - real_laws::val(s.lens.cx)) * scale - real_laws::val(
                    s.lens.fx,
                ) * real_laws::val(s.dx),
            ) <= 900 as real * tick()
            &&& size(
                (real_laws::val(p.1) - real_laws::val(s.lens.cy)) * scale - real_laws::val(
                    s.lens.fy,
                ) * real_laws::val(s.dy),
            ) <= 900 as real * tick()
        }),
{
    lemma_one_led(s.lens.fx, s.lens.cx, s.dx, s.theta_d.over(tangent));
    lemma_one_led(s.lens.fy, s.lens.cy, s.dy, s.theta_d.over(tangent));
}

/// One coordinate of a point of the plane.
proof fn lemma_one_led(f: F64, c: F64, x: F64, scale: F64)
    requires
        usual_focal(f),
        usual(c) && usual(x) && usual(scale),
        1 as real <= 16 as real * real_laws::val(scale),
    ensures
        ({
            let p = f.times(x.over(scale)).plus(c);
            &&& p.finite()
            &&& size(
                (real_laws::val(p) - real_laws::val(c)) * real_laws::val(scale) - real_laws::val(f)
                    * real_laws::val(x),
            ) <= 900 as real * tick()
        }),
{
    let (a, b, q) = (real_laws::val(f), real_laws::val(x), real_laws::val(scale));
    let t = b / q;
    lemma_quotient(b, q);
    lemma_size_times(t, q);
    lemma_scaled(1 as real / 16 as real, q, size(t));
    lemma_three(size(t), 1 as real / 16 as real, 16 as real);
    lemma_nothing(size(t));
    real_laws::lemma_over(x, scale);
    let s = real_laws::val(x.over(scale));
    lemma_tick(s, t);
    lemma_size_times(a, s);
    lemma_scaled(size(s), 129 as real, size(a));
    lemma_scaled(size(a), 8 as real, 129 as real);
    real_laws::lemma_times(f, x.over(scale));
    let o = f.times(x.over(scale));
    lemma_tick(real_laws::val(o), a * s);
    lemma_spread_out(s, t, a);
    lemma_size_times(a, s - t);
    lemma_scaled(size(s - t), tick(), size(a));
    lemma_scaled(size(a), 8 as real, tick());
    real_laws::lemma_plus(o, c);
    let p = real_laws::val(o.plus(c));
    lemma_tick(p, real_laws::val(o) + real_laws::val(c));
    let d = p - real_laws::val(c);
    lemma_spread_out(d, a * t, q);
    lemma_three(a, t, q);
    lemma_size_times(d - a * t, q);
    lemma_scaled(size(d - a * t), 10 as real * tick(), q);
    lemma_scaled(q, 8 as real, 10 as real * tick());
}

/// The direction of a tilted ray: its part ahead is the cosine of the tilt, and
/// its parts to the right and up are the sine times those of the azimuth, which
/// is measured downwards.
pub proof fn law_tilted_ray_points_up(sin: F64, cos: F64, across: F64, down: F64)
    requires
        sin.finite() && cos.finite() && across.finite() && down.finite(),
        size(real_laws::val(sin)) <= 1 as real && size(real_laws::val(cos)) <= 1 as real,
        size(real_laws::val(across)) <= 1 as real && size(real_laws::val(down)) <= 1 as real,
    ensures
        ({
            let d = upright(sin, cos, across, down);
            &&& nigh(d.0, real_laws::val(sin) * real_laws::val(across), notch())
            &&& nigh(d.1, -(real_laws::val(sin) * real_laws::val(down)), notch())
            &&& nigh(d.2, real_laws::val(cos), notch())
        }),
{
    let s = real_laws::val(sin);
    lemma_size_times(s, real_laws::val(across));
    lemma_size_times(s, real_laws::val(down));
    lemma_scaled(size(s), 1 as real, size(real_laws::val(across)));
    lemma_scaled(size(s), 1 as real, size(real_laws::val(down)));
    lemma_nothing(size(real_laws::val(across)));
    lemma_nothing(size(real_laws::val(down)));
    real_laws::lemma_times(sin, across);
    real_laws::lemma_times(sin, down);
    lemma_tick(real_laws::val(sin.times(across)), s * real_laws::val(across));
    lemma_tick(real_laws::val(sin.times(down)), s * real_laws::val(down));
    real_laws::lemma_val(sin.times(down));
    lemma_narrowed(sin.times(across));
    lemma_narrowed(sin.times(down).negated());
    lemma_narrowed(cos);
}

/// A ray meets a plane at the way along the normal over its slant, and only
/// ahead: where the two have the same sign and the ray does not run along the
/// plane.
pub proof fn law_plane_is_met_ahead(reach: F32, slant: F32)
    requires
        reach.finite() && slant.finite(),
        size(val(reach)) <= 16 as real,
        1 as real <= 4096 as real * size(val(slant)) && size(val(slant)) <= 16 as real,
    ensures
        met(reach, slant) is Some ==> {
            let t = met(reach, slant)->0;
            &&& t.finite() && val(t) > 0 as real
            &&& size(val(t) * val(slant) - val(reach)) <= 16 as real * notch()
            &&& val(reach) * val(slant) > 0 as real
        },
        val(reach) * val(slant) > notch() ==> met(reach, slant) is Some,
        val(reach) * val(slant) < 0 as real ==> met(reach, slant) is None,
{
    let (zero, least) = (F32 { bits: 0 }, F32 { bits: PARALLEL });
    real_single_laws::lemma_speck();
    let (a, b) = (val(reach), val(slant));
    lemma_millionth();
    real_single_laws::lemma_val(zero);
    real_single_laws::lemma_val(slant);
    real_single_laws::lemma_val_ordered(slant.magnitude(), least);
    let q = a / b;
    assert(q * b == a) by {
        if b > 0 as real {
            lemma_quotient(a, b);
        } else {
            lemma_quotient(a, -b);
            lemma_negative_quotient(a, b);
        }
    }
    lemma_size_times(q, b);
    lemma_scaled(1 as real / 4096 as real, size(b), size(q));
    lemma_three(size(q), 1 as real / 4096 as real, 4096 as real);
    lemma_nothing(size(q));
    real_single_laws::lemma_over(reach, slant);
    let t = reach.over(slant);
    real_single_laws::lemma_val_ordered(t, zero);
    lemma_relative(val(t), q);
    lemma_last_place(size(q));
    let d = val(t) - q;
    lemma_spread_out(val(t), q, b);
    lemma_size_times(d, b);
    lemma_scaled(size(d), size(q) * real_single_laws::ulp() + real_single_laws::speck(), size(b));
    lemma_spread_out(size(q) * real_single_laws::ulp(), real_single_laws::speck(), size(b));
    lemma_three(size(q), real_single_laws::ulp(), size(b));
    lemma_last_place(size(a));
    lemma_scaled(size(b), 16 as real, real_single_laws::speck());
    lemma_signs(q, b);
    lemma_swap(a, b);
    lemma_three(q, b, b);
    lemma_sign_of_quotient(reach, slant, q);
    if a * b > notch() {
        let (c, least_q) = (b * b, notch() / 256 as real);
        lemma_square(b);
        lemma_scaled(size(b), 16 as real, size(b));
        if q <= least_q {
            lemma_scaled(q, least_q, c);
            lemma_scaled(c, 256 as real, least_q);
        }
    }
}

/// One millionth is a small number.
proof fn lemma_millionth()
    ensures
        (F32 { bits: PARALLEL }).finite(),
        val(F32 { bits: PARALLEL }) * 8192 as real <= 1 as real,
{
    let (x, c) = (F32 { bits: PARALLEL }, F32 { bits: 0x3900_0000 });
    real_single_laws::lemma_val_ordered(x, c);
    real_single_laws::lemma_speck();
    lemma2_to64();
    lemma2_to64_rest();
    lemma_rung_in_binade(23, 113, 0x80_0000);
    lemma_pow2_adds(23, 113);
    lemma_pow2_adds(13, 136);
    lemma_pow2_pos(136);
    real_single_laws::lemma_val(c);
    let h = pow2(136) as real;
    lemma_three(val(c), 0x2000 as real, h);
    lemma_nothing(h);
    lemma_unscaled(val(c) * 0x2000 as real, 1 as real, h);
}

/// A quotient by a negative number.
proof fn lemma_negative_quotient(a: real, b: real)
    requires
        b < 0 as real,
    ensures
        (a / b) * b == a,
{
    assert((a / b) * b == a) by (nonlinear_arith)
        requires
            b < 0 as real,
    ;
}

/// The sign of a product.
proof fn lemma_signs(q: real, b: real)
    ensures
        q > 0 as real && b != 0 as real ==> (q * b) * b > 0 as real,
        q < 0 as real && b != 0 as real ==> (q * b) * b < 0 as real,
        q == 0 as real ==> (q * b) * b == 0 as real,
{
    let c = b * b;
    lemma_three(q, b, b);
    lemma_nothing(c);
    lemma_square(b);
    if b != 0 as real {
        assert(c > 0 as real) by (nonlinear_arith)
            requires
                c == b * b,
                b != 0 as real,
        ;
        if q > 0 as real {
            assert(q * c > 0 as real) by (nonlinear_arith)
                requires
                    q > 0 as real,
                    c > 0 as real,
            ;
        }
        if q < 0 as real {
            assert(q * c < 0 as real) by (nonlinear_arith)
                requires
                    q < 0 as real,
                    c > 0 as real,
            ;
        }
    }
}

/// A rounded quotient has the sign of the exact one or none, and one that is not
/// tiny keeps its sign.
proof fn lemma_sign_of_quotient(reach: F32, slant: F32, q: real)
    requires
        reach.finite() && slant.finite() && reach.over(slant).finite(),
        val(slant) != 0 as real,
        q * val(slant) == val(reach),
        size(val(slant)) <= 16 as real,
    ensures
        val(reach.over(slant)) > 0 as real ==> q > 0 as real,
        val(reach.over(slant)) < 0 as real ==> q < 0 as real,
{
    reveal(F32::over);
    real_single_laws::lemma_val(reach);
    real_single_laws::lemma_val(slant);
    let t = reach.over(slant);
    real_single_laws::lemma_val(t);
    lemma_nothing(val(slant));
    let (n, m) = (
        reach.parts().size(Format::Single),
        slant.parts().size(Format::Single),
    );
    lemma_pow2_pos(149);
    law_ratio_rounds(
        Format::Single,
        n * pow2(149),
        m,
    );
    lemma_sign_split(q, val(slant));
}

/// The sign of a factor from those of the product and of the other.
proof fn lemma_sign_split(q: real, b: real)
    ensures
        q * b > 0 as real && b > 0 as real ==> q > 0 as real,
        q * b > 0 as real && b < 0 as real ==> q < 0 as real,
        q * b < 0 as real && b > 0 as real ==> q < 0 as real,
        q * b < 0 as real && b < 0 as real ==> q > 0 as real,
{
    lemma_nothing(b);
    if b > 0 as real {
        if q <= 0 as real {
            lemma_scaled(q, 0 as real, b);
        }
        if q >= 0 as real {
            lemma_scaled(0 as real, q, b);
        }
    } else if b < 0 as real {
        lemma_spread_out(0 as real, b, q);
        lemma_nothing(q);
        if q <= 0 as real {
            lemma_scaled(q, 0 as real, -b);
        }
        if q >= 0 as real {
            lemma_scaled(0 as real, q, -b);
        }
        lemma_nothing(-b);
        assert(q * (-b) == -(q * b)) by (nonlinear_arith);
    }
}

} // verus!
