//! What is seen of the world: where a point is shown, how far the lens reaches,
//! and what is close to the group.
use crate::real_single_laws;
use crate::algebra::{lemma_spread_out, lemma_three, lemma_ulp};
use crate::calibration::CameraParams;
use crate::cost_laws::law_mean_times_count;
use crate::double::F64;
use crate::field_panner::{Cluster, FieldPanner};
use crate::follow_laws::lemma_error_length;
use crate::kb4::shown_at;
use crate::lens_laws::{lemma_relative, lemma_tick, tick};
use crate::miss_laws::lemma_any_length;
use crate::near_laws::{lemma_notch, notch};
use crate::projection::{
    at_camera, distorted, in_camera, length, pictured, reached, UnitLens, ON_AXIS,
};
use crate::radius_laws::{dust, lemma_scaled, lemma_size_times, lemma_unscaled, part, radius_of};
use crate::real_laws::{
    lemma_over, lemma_plus, lemma_speck, lemma_times, lemma_val_ordered, rounds, size, val,
};
use crate::round_trip_laws::lemma_quotient;
use crate::single::F32;
use crate::world::TrackedEntity;
use vstd::prelude::*;

verus! {

/// The distance of a point from the origin: its square is the sum of the squares
/// of its coordinates, up to rounding.
pub proof fn law_distance_from_the_origin(x: F64, y: F64)
    requires
        x.finite() && y.finite(),
        size(val(x)) <= 0x1_0000_0000 as real && size(val(y)) <= 0x1_0000_0000 as real,
    ensures
        length(x, y).finite(),
        radius_of(val(length(x, y)), val(x), val(y)),
{
    lemma_any_length(x, y);
}

/// A point of the frame is within the reach of the lens if its distance from the
/// axis, across and down together, is at most the reach; and else it is not.
pub proof fn law_reach_is_radial(x: F32, y: F32, camera: CameraParams, reach: F64)
    requires
        reach.finite() && val(reach) >= 0 as real,
        ({
            let (a, b) = UnitLens::of(camera).ray(x.wide(), y.wide());
            a.finite() && b.finite() && size(val(a)) <= 0x1_0000 as real && size(val(b))
                <= 0x1_0000 as real
        }),
    ensures
        ({
            let (a, b) = UnitLens::of(camera).ray(x.wide(), y.wide());
            let (sum, r) = (val(a) * val(a) + val(b) * val(b), val(reach));
            &&& reached(x, y, camera, reach) ==> sum <= r * r + part() * sum + dust()
            &&& !reached(x, y, camera, reach) ==> r * r <= sum + part() * sum + dust()
        }),
{
    let (a, b) = UnitLens::of(camera).ray(x.wide(), y.wide());
    lemma_any_length(a, b);
    let d = length(a, b);
    lemma_val_ordered(reach, d);
    let (r, m) = (val(reach), val(d));
    if reached(x, y, camera, reach) {
        lemma_scaled(m, r, m);
        lemma_scaled(m, r, r);
    } else {
        lemma_scaled(r, m, r);
        lemma_scaled(r, m, m);
    }
}

/// The followed ball is near the group if its distance from it, in yaw and pitch
/// together, is below the bound; and else it is not.
pub proof fn law_ball_near_is_radial(p: FieldPanner, b: TrackedEntity, c: Cluster)
    requires
        b.yaw.finite() && b.pitch.finite() && c.yaw.finite() && c.pitch.finite(),
        size(real_single_laws::val(b.yaw)) <= 1 as real,
        size(real_single_laws::val(b.pitch)) <= 1 as real,
        size(real_single_laws::val(c.yaw)) <= 1 as real,
        size(real_single_laws::val(c.pitch)) <= 1 as real,
        p.config.ball_max_dist_from_cluster.finite(),
        real_single_laws::val(p.config.ball_max_dist_from_cluster) >= 0 as real,
    ensures
        ({
            let dy = real_single_laws::val(b.yaw) - real_single_laws::val(c.yaw);
            let dp = real_single_laws::val(b.pitch) - real_single_laws::val(c.pitch);
            let m = real_single_laws::val(p.config.ball_max_dist_from_cluster);
            let e = 40 as real * notch();
            &&& p.ball_near(Some(b), Some(c)) ==> dy * dy + dp * dp <= m * m + e
            &&& !p.ball_near(Some(b), Some(c)) ==> m * m <= dy * dy + dp * dp + e
        }),
        !p.ball_near(None, Some(c)) && !p.ball_near(Some(b), None),
{
    let (x, y) = (b.yaw.minus(c.yaw), b.pitch.minus(c.pitch));
    lemma_near_offset(b.yaw, c.yaw);
    lemma_near_offset(b.pitch, c.pitch);
    lemma_error_length(x, y);
    let d = x.times(x).plus(y.times(y)).root();
    let bound = p.config.ball_max_dist_from_cluster;
    real_single_laws::lemma_val_ordered(d, bound);
    let (r, m) = (real_single_laws::val(bound), real_single_laws::val(d));
    if p.ball_near(Some(b), Some(c)) {
        lemma_scaled(m, r, m);
        lemma_scaled(m, r, r);
    } else {
        lemma_scaled(r, m, r);
        lemma_scaled(r, m, m);
    }
}

/// The square of a rounded offset.
proof fn lemma_near_offset(a: F32, b: F32)
    requires
        a.finite() && b.finite(),
        size(real_single_laws::val(a)) <= 1 as real && size(real_single_laws::val(b)) <= 1 as real,
    ensures
        ({
            let (o, d) = (
                real_single_laws::val(a.minus(b)),
                real_single_laws::val(a) - real_single_laws::val(b),
            );
            &&& a.minus(b).finite()
            &&& size(o) <= 4 as real
            &&& size(o * o - d * d) <= 11 as real * notch()
        }),
{
    let (e, d) = (
        real_single_laws::val(a.minus(b)),
        real_single_laws::val(a) - real_single_laws::val(b),
    );
    real_single_laws::lemma_minus(a, b);
    lemma_notch(e, d);
    lemma_spread_out(e, d, e);
    lemma_spread_out(e, d, d);
    assert(e * e - d * d == (e - d) * e + d * (e - d));
    lemma_size_times(e - d, e);
    lemma_size_times(d, e - d);
    lemma_scaled(size(e - d), notch(), size(e));
    lemma_scaled(size(e), 5 as real, notch());
    lemma_scaled(size(e - d), notch(), size(d));
    lemma_scaled(size(d), 4 as real, notch());
}

/// A camera with a frame of ordinary size, in pixels.
pub open spec fn usual_pixels(x: F64) -> bool {
    x.finite() && size(val(x)) <= 8192 as real
}

/// Where a point is shown: on the side of the axis where it is, with the offset
/// from the principal point, in pixels, to the focal length times the shown
/// distance as the point's own offset is to its distance from the axis. It is
/// shown exactly when its angle is from zero to the widest one.
pub proof fn law_point_is_shown_on_its_side(
    x: F64,
    y: F64,
    theta: F64,
    params: CameraParams,
    widest: F64,
)
    requires
        params.width > 0 && params.height > 0,
        usual_pixels(params.fx) && usual_pixels(params.fy),
        usual_pixels(params.cx) && usual_pixels(params.cy),
        x.finite() && y.finite() && length(x, y).finite(),
        1 as real <= 4 as real * val(length(x, y)) && val(length(x, y)) <= 64 as real,
        size(val(x)) <= 2 as real * val(length(x, y)),
        size(val(y)) <= 2 as real * val(length(x, y)),
        !length(x, y).below(F64 { bits: ON_AXIS }),
        shown_at(theta, params.d@).finite(),
        size(val(shown_at(theta, params.d@))) <= 8 as real,
    ensures
        pictured(x, y, theta, params, widest) is Some <==> (F64 { bits: 0 }).at_most(theta)
            && theta.at_most(widest),
        pictured(x, y, theta, params, widest) matches Some(p) ==> {
            let r = val(length(x, y));
            let far = val(shown_at(theta, params.d@));
            let (w, h) = (params.width as real, params.height as real);
            &&& p.0.finite() && p.1.finite()
            &&& 0x1_0000 as real * size(
                (val(p.0) * w - val(params.cx)) * r - val(params.fx) * (far * val(x)),
            ) <= 1 as real
            &&& 0x1_0000 as real * size(
                (val(p.1) * h - val(params.cy)) * r - val(params.fy) * (far * val(y)),
            ) <= 1 as real
        },
{
    let r = length(x, y);
    let far = shown_at(theta, params.d@);
    lemma_one_pixel(params.fx, params.cx, x, far, r, params.width);
    lemma_one_pixel(params.fy, params.cy, y, far, r, params.height);
}

/// Where along an axis a direction is shown, in focal lengths.
proof fn lemma_shown_part(x: F64, far: F64, r: F64)
    requires
        x.finite() && far.finite() && r.finite(),
        1 as real <= 4 as real * val(r) && val(r) <= 64 as real,
        size(val(x)) <= 2 as real * val(r),
        size(val(far)) <= 8 as real,
    ensures
        ({
            let s = far.times(x).over(r);
            &&& s.finite()
            &&& size(val(s)) <= 18 as real
            &&& size(val(s) * val(r) - val(far) * val(x)) <= 65 as real * tick()
        }),
{
    let (a, b, q) = (val(far), val(x), val(r));
    lemma_size_times(a, b);
    lemma_scaled(size(a), 8 as real, size(b));
    lemma_times(far, x);
    let m = val(far.times(x));
    lemma_tick(m, a * b);
    let t = m / q;
    lemma_quotient(m, q);
    lemma_size_times(t, q);
    lemma_unscaled(size(t), 17 as real, q);
    lemma_over(far.times(x), r);
    let s = val(far.times(x).over(r));
    lemma_tick(s, t);
    lemma_spread_out(s, t, q);
    lemma_size_times(s - t, q);
    lemma_scaled(size(s - t), tick(), q);
    lemma_scaled(q, 64 as real, tick());
}

/// What is lost when a number of pixels of at most two to the power 18 is rounded.
proof fn lemma_pixel_rounds(r: real, exact: real)
    requires
        rounds(r, exact),
        size(exact) <= 0x4_0000 as real,
    ensures
        0x1_0000_0000 as real * size(r - exact) <= 1 as real,
{
    lemma_speck();
    lemma_relative(r, exact);
    lemma_ulp(size(exact));
}

/// One coordinate of where a point is shown.
proof fn lemma_one_pixel(f: F64, c: F64, x: F64, far: F64, r: F64, extent: u32)
    requires
        extent > 0,
        usual_pixels(f) && usual_pixels(c),
        x.finite() && far.finite() && r.finite(),
        1 as real <= 4 as real * val(r) && val(r) <= 64 as real,
        size(val(x)) <= 2 as real * val(r),
        size(val(far)) <= 8 as real,
    ensures
        ({
            let p = f.times(far.times(x).over(r)).plus(c).over(F64::of_whole(extent as nat));
            &&& p.finite()
            &&& 0x1_0000 as real * size(
                (val(p) * extent as real - val(c)) * val(r) - val(f) * (val(far) * val(x)),
            ) <= 1 as real
        }),
{
    lemma_shown_part(x, far, r);
    let s = far.times(x).over(r);
    let (a, v, q, g) = (val(f), val(s), val(r), val(far) * val(x));
    lemma_size_times(a, v);
    lemma_scaled(size(a), 8192 as real, size(v));
    lemma_times(f, s);
    let m = f.times(s);
    lemma_pixel_rounds(val(m), a * v);
    lemma_plus(m, c);
    let b = m.plus(c);
    lemma_pixel_rounds(val(b), val(m) + val(c));
    lemma_over_extent(b, extent);
    let k = val(b.over(F64::of_whole(extent as nat))) * extent as real - val(c);
    assert(0x2000_0000 as real * size(k - a * v) <= 1 as real);
    lemma_spread_out(k, a * v, q);
    lemma_three(a, v, q);
    lemma_spread_out(v * q, g, a);
    lemma_size_times(k - a * v, q);
    lemma_scaled(size(k - a * v), 1 as real / 0x2000_0000 as real, q);
    lemma_scaled(q, 64 as real, 1 as real / 0x2000_0000 as real);
    lemma_size_times(a, v * q - g);
    lemma_scaled(size(a), 8192 as real, size(v * q - g));
}

/// A number of pixels over an extent, times the extent.
proof fn lemma_over_extent(b: F64, extent: u32)
    requires
        b.finite(),
        size(val(b)) <= 0x4_0000 as real,
        extent > 0,
    ensures
        b.over(F64::of_whole(extent as nat)).finite(),
        0x4000_0000 as real * size(
            val(b.over(F64::of_whole(extent as nat))) * extent as real - val(b),
        ) <= 1 as real,
{
    law_mean_times_count(extent as nat, b);
}

/// A point of the plane is shown in the frame exactly when it lies on the texture
/// and its picture lies in the frame; and it is shown where the lens shows it.
pub proof fn law_shown_in_the_frame(u: F64, v: F64, params: CameraParams, theta: F64)
    ensures
        ({
            let (zero, one) = (F64 { bits: 0 }, F64 { bits: 0x3FF0_0000_0000_0000 });
            let half = F64 { bits: 0x3FE0_0000_0000_0000 };
            let (a, b) = (u.plus(half).times(half), v.plus(half).times(half));
            let p = distorted(u, v, params, theta);
            &&& in_camera(u, v, params, theta) is Some <==> zero.at_most(a) && a.at_most(one)
                && zero.at_most(b) && b.at_most(one) && zero.at_most(p.0) && p.0.at_most(one)
                && zero.at_most(p.1) && p.1.at_most(one)
            &&& in_camera(u, v, params, theta) matches Some(q) ==> q.0 == p.0.narrow() && q.1
                == p.1.narrow()
        }),
{
}

/// A point is at the camera itself exactly when it is close to the axis and
/// neither ahead nor behind.
pub proof fn law_at_the_camera(x: F64, y: F64, z: F64)
    ensures
        at_camera(x, y, z) <==> length(x, y).below(F64 { bits: 0x3D71_9799_812D_EA11 })
            && z.magnitude().below(F64 { bits: 0x3D71_9799_812D_EA11 }),
{
}

} // verus!
