//! What the outline of a panorama is made of, and which calibrations are sound.
use crate::algebra::{lemma_nothing, lemma_spread_out};
use crate::calibration::{
    calibration_fault, camera_fault, CameraParams, Fault, MatchCalibration, PlaneLayout,
};
use crate::double::F64;
use crate::near_laws::{
    lemma_nigh_minus, lemma_nigh_plus, lemma_nigh_times, lemma_notch, nigh, notch,
};
use crate::radius_laws::{lemma_scaled, lemma_size_times, lemma_unscaled};
use crate::real_laws::size;
use crate::real_single_laws::{lemma_minus, lemma_over, lemma_val, lemma_val_ordered, val};
use crate::round_trip_laws::lemma_quotient;
use crate::single::F32;
use crate::value_laws::{lemma_small_constants, lemma_whole_single};
use crate::viewport::{
    bin, bin_width, edge_step, highest, lowest, outline_of, outline_sample, slice, Axis, Outline,
    PanoramaExtent, EDGE_FAR, EDGE_NEAR,
};
use crate::world::{CameraId, ViewportPosition};
use vstd::prelude::*;

verus! {

/// The outline is where the samples lie that lie anywhere, in order, yaw before
/// pitch.
pub proof fn law_outline_is_what_lies_somewhere(positions: Seq<Option<ViewportPosition>>)
    ensures
        outline_of(positions) == positions.filter(
            |p: Option<ViewportPosition>| p is Some,
        ).map_values(|p: Option<ViewportPosition>| (p->0.yaw, p->0.pitch)),
    decreases positions.len(),
{
    reveal(Seq::filter);
    if positions.len() > 0 {
        law_outline_is_what_lies_somewhere(positions.drop_last());
    }
    assert(outline_of(positions) =~= positions.filter(
        |p: Option<ViewportPosition>| p is Some,
    ).map_values(|p: Option<ViewportPosition>| (p->0.yaw, p->0.pitch)));
}

/// A bin holds the points from its lower end on and below its upper end on the
/// crossing axis; for bins of yaw that is the pitch, and the other way round.
pub proof fn law_bin_is_a_slice(points: Seq<Outline>, axis: Axis, n: int)
    ensures
        ({
            let lo = lowest(points, axis.crossing()).plus(
                F32::of_whole(n as nat).times(bin_width(points, axis)),
            );
            let hi = lo.plus(bin_width(points, axis));
            &&& axis == Axis::Yaw ==> bin(points, axis, n) == points.filter(
                |p: Outline| lo.at_most(p.1) && p.1.below(hi),
            )
            &&& axis == Axis::Pitch ==> bin(points, axis, n) == points.filter(
                |p: Outline| lo.at_most(p.0) && p.0.below(hi),
            )
        }),
{
    let lo = lowest(points, axis.crossing()).plus(
        F32::of_whole(n as nat).times(bin_width(points, axis)),
    );
    let hi = lo.plus(bin_width(points, axis));
    lemma_slice(points, lo, hi);
}

/// A slice is what lies within its ends.
proof fn lemma_slice(points: Seq<Outline>, lo: F32, hi: F32)
    ensures
        slice(points, Axis::Pitch, lo, hi) == points.filter(
            |p: Outline| lo.at_most(p.1) && p.1.below(hi),
        ),
        slice(points, Axis::Yaw, lo, hi) == points.filter(
            |p: Outline| lo.at_most(p.0) && p.0.below(hi),
        ),
    decreases points.len(),
{
    reveal(Seq::filter);
    if points.len() > 0 {
        lemma_slice(points.drop_last(), lo, hi);
    }
    assert(slice(points, Axis::Pitch, lo, hi) =~= points.filter(
        |p: Outline| lo.at_most(p.1) && p.1.below(hi),
    ));
    assert(slice(points, Axis::Yaw, lo, hi) =~= points.filter(
        |p: Outline| lo.at_most(p.0) && p.0.below(hi),
    ));
}

/// The coordinate of a point on an axis: yaw is the first and pitch the second.
pub open spec fn coordinate(p: Outline, axis: Axis) -> F32 {
    if axis == Axis::Yaw {
        p.0
    } else {
        p.1
    }
}

/// The lowest and the highest coordinate of finite points bound all of them, and
/// each is one of them.
pub proof fn law_extremes_are_of_points(points: Seq<Outline>, axis: Axis)
    requires
        points.len() > 0,
        forall|i: int| 0 <= i < points.len() ==> coordinate(#[trigger] points[i], axis).finite(),
    ensures
        ({
            let (lo, hi) = (lowest(points, axis), highest(points, axis));
            &&& lo.finite() && hi.finite()
            &&& forall|i: int|
                0 <= i < points.len() ==> lo.at_most(coordinate(#[trigger] points[i], axis))
                    && coordinate(points[i], axis).at_most(hi)
            &&& exists|i: int|
                0 <= i < points.len() && coordinate(#[trigger] points[i], axis).same(lo)
            &&& exists|i: int|
                0 <= i < points.len() && coordinate(#[trigger] points[i], axis).same(hi)
        }),
    decreases points.len(),
{
    let rest = points.drop_last();
    let last = points[points.len() - 1];
    assert(coordinate(last, axis).finite());
    assert(points.last() == last);
    if rest.len() > 0 {
        assert forall|i: int| 0 <= i < rest.len() implies coordinate(
            #[trigger] rest[i],
            axis,
        ).finite() by {
            assert(rest[i] == points[i]);
        }
        law_extremes_are_of_points(rest, axis);
        assert forall|i: int| 0 <= i < points.len() implies lowest(points, axis).at_most(
            coordinate(#[trigger] points[i], axis),
        ) && coordinate(points[i], axis).at_most(highest(points, axis)) by {
            if i < rest.len() {
                assert(rest[i] == points[i]);
            }
        }
        let a = choose|i: int|
            0 <= i < rest.len() && coordinate(#[trigger] rest[i], axis).same(lowest(rest, axis));
        let b = choose|i: int|
            0 <= i < rest.len() && coordinate(#[trigger] rest[i], axis).same(highest(rest, axis));
        assert(points[a] == rest[a] && points[b] == rest[b]);
    } else {
        assert(lowest(rest, axis) == (F32 { bits: 0x7F7F_FFFF }));
        assert(highest(rest, axis) == (F32 { bits: 0xFF7F_FFFF }));
    }
}

/// The samples of the outline go along the four edges of the left frame and then
/// of the right one, in equal steps from near one corner to near the other.
pub proof fn law_outline_goes_along_the_edges(right: bool, i: int)
    requires
        0 <= i <= 40,
    ensures
        ({
            let n = 4 * i + if right {
                164int
            } else {
                0
            };
            let camera = if right {
                CameraId::Right
            } else {
                CameraId::Left
            };
            let (lo, hi) = (F32 { bits: 0x3CA3_D70A }, F32 { bits: 0x3F7A_E148 });
            let t = outline_sample(n).2;
            &&& nigh(
                t,
                val(lo) + (val(hi) - val(lo)) * (i as real / 40 as real),
                8 as real * notch(),
            )
            &&& outline_sample(n) == (camera, lo, t)
            &&& outline_sample(n + 1) == (camera, hi, t)
            &&& outline_sample(n + 2) == (camera, t, lo)
            &&& outline_sample(n + 3) == (camera, t, hi)
        }),
{
    let n = 4 * i + if right {
        164int
    } else {
        0
    };
    assert(n % 164 == 4 * i && (n + 1) % 164 == 4 * i + 1 && (n + 2) % 164 == 4 * i + 2 && (n + 3)
        % 164 == 4 * i + 3);
    assert(n % 4 == 0 && (n + 1) % 4 == 1 && (n + 2) % 4 == 2 && (n + 3) % 4 == 3);
    assert((4 * i) / 4 == i && (4 * i + 1) / 4 == i && (4 * i + 2) / 4 == i && (4 * i + 3) / 4
        == i);
    lemma_edge_step(i);
}

/// One step along an edge.
proof fn lemma_edge_step(i: int)
    requires
        0 <= i <= 40,
    ensures
        nigh(
            edge_step(i),
            val(F32 { bits: EDGE_NEAR }) + (val(F32 { bits: EDGE_FAR }) - val(
                F32 { bits: EDGE_NEAR },
            )) * (i as real / 40 as real),
            8 as real * notch(),
        ),
{
    let (lo, hi, one) = (
        F32 { bits: EDGE_NEAR },
        F32 { bits: EDGE_FAR },
        F32 { bits: 0x3F80_0000 },
    );
    lemma_small_constants();
    lemma_val(lo);
    lemma_val(hi);
    lemma_val_ordered(lo, one);
    lemma_val_ordered(hi, one);
    lemma_whole_single(i as nat);
    lemma_whole_single(40);
    let (a, b) = (F32::of_whole(i as nat), F32::of_whole(40));
    let t = i as real / 40 as real;
    lemma_over(a, b);
    lemma_notch(val(a.over(b)), t);
    let d = val(hi) - val(lo);
    lemma_nigh_minus(hi, val(hi), 0 as real, lo, val(lo), 0 as real);
    lemma_nigh_times(
        hi.minus(lo),
        d,
        notch(),
        a.over(b),
        t,
        notch(),
        1 as real,
        2 as real,
    );
    lemma_nothing(notch());
    lemma_size_times(d, t);
    lemma_scaled(size(d), 1 as real, t);
    lemma_nothing(t);
    lemma_nigh_plus(
        lo,
        val(lo),
        0 as real,
        hi.minus(lo).times(a.over(b)),
        d * t,
        4 as real * notch(),
    );
}

/// The lens and the frame of a camera make sense: a frame of one to 8192 pixels
/// each way, focal lengths above the least one, and everything finite.
pub open spec fn sound_camera(p: CameraParams) -> bool {
    let least = F64 { bits: 0x3EB0_C6F7_A0B5_ED8D };
    &&& 1 <= p.width <= 8192 && 1 <= p.height <= 8192
    &&& p.fx.finite() && p.fy.finite() && least.below(p.fx) && least.below(p.fy)
    &&& p.cx.finite() && p.cy.finite()
    &&& p.d@[0].finite() && p.d@[1].finite() && p.d@[2].finite() && p.d@[3].finite()
}

/// The layout of the planes makes sense: the cameras stand apart, the planes
/// meet between them, and everything is finite.
pub open spec fn sound_layout(l: PlaneLayout) -> bool {
    let least = F64 { bits: 0x3EB0_C6F7_A0B5_ED8D };
    let (zero, one) = (F64 { bits: 0 }, F64 { bits: 0x3FF0_0000_0000_0000 });
    &&& l.camera_axis_offset.finite() && least.below(l.camera_axis_offset)
    &&& l.intersect.finite() && zero.at_most(l.intersect) && l.intersect.at_most(one)
    &&& l.x_ty.finite() && l.x_rz.finite() && l.x_rx.finite() && l.z_rx.finite()
    &&& l.z_rz.finite()
}

/// A calibration is accepted exactly when both its cameras and its layout make
/// sense, everything else is finite, and the frames are at most a hundred
/// thousand apart.
pub proof fn law_sound_calibrations_are_accepted(c: MatchCalibration)
    ensures
        calibration_fault(c) is None <==> {
            &&& sound_camera(c.left) && sound_camera(c.right) && sound_layout(c.layout)
            &&& c.rig_tilt.finite() && c.rig_roll.finite()
            &&& c.blend_width.finite() && c.lens_correction_amount.finite()
            &&& -100_000 <= c.sync_offset <= 100_000
        },
{
}

/// What is reported of a camera: a frame without pixels before one that is too
/// large, then the focal lengths, then the rest; each with its own name and
/// value; and the left camera before the right one.
pub proof fn law_fault_names_its_field(c: MatchCalibration, p: CameraParams, name: Seq<char>)
    ensures
        p.width == 0 ==> camera_fault(p, name) == Some(
            Fault::ZeroDimension { camera: name, field: "width"@, value: 0 },
        ),
        p.width > 0 && p.height == 0 ==> camera_fault(p, name) == Some(
            Fault::ZeroDimension { camera: name, field: "height"@, value: 0 },
        ),
        p.width > 8192 && p.height > 0 ==> camera_fault(p, name) == Some(
            Fault::DimensionTooLarge { camera: name, field: "width"@, value: p.width, max: 8192 },
        ),
        1 <= p.width <= 8192 && p.height > 8192 ==> camera_fault(p, name) == Some(
            Fault::DimensionTooLarge { camera: name, field: "height"@, value: p.height, max: 8192 },
        ),
        1 <= p.width <= 8192 && 1 <= p.height <= 8192 && !p.fx.finite() ==> (camera_fault(p, name)
            matches Some(Fault::NonFiniteFloat { field, .. }) && field == name + ".fx"@),
        1 <= p.width <= 8192 && 1 <= p.height <= 8192 && p.fx.finite() && p.fx.at_most(
            F64 { bits: 0x3EB0_C6F7_A0B5_ED8D },
        ) ==> (camera_fault(p, name) matches Some(Fault::FocalLengthTooSmall { field, value, .. })
            && field == name + ".fx"@ && value == p.fx),
        !sound_camera(c.left) ==> calibration_fault(c) == camera_fault(c.left, "left"@),
        sound_camera(c.left) && !sound_camera(c.right) ==> calibration_fault(c) == camera_fault(
            c.right,
            "right"@,
        ),
{
}

/// Where in an extent an angle lies: its offset from the lower end over the
/// extent, sideways by the one and up and down by the other.
pub proof fn law_fractions_are_of_the_extent(e: PanoramaExtent, yaw: F32, pitch: F32)
    requires
        in_extent(e.yaw_min, e.yaw_max, yaw),
        in_extent(e.pitch_min, e.pitch_max, pitch),
    ensures
        e.fractions(yaw, pitch) is Some,
        ({
            let f = e.fractions(yaw, pitch)->0;
            &&& f.0.finite() && f.1.finite()
            &&& size(
                val(f.0) * (val(e.yaw_max) - val(e.yaw_min)) - (val(yaw) - val(e.yaw_min)),
            ) <= 24 as real * notch()
            &&& size(
                val(f.1) * (val(e.pitch_max) - val(e.pitch_min)) - (val(pitch) - val(e.pitch_min)),
            ) <= 24 as real * notch()
        }),
{
    let zero = F32 { bits: 0 };
    lemma_val(zero);
    lemma_one_fraction(e.yaw_min, e.yaw_max, yaw);
    lemma_one_fraction(e.pitch_min, e.pitch_max, pitch);
    lemma_val_ordered(zero, e.width());
    lemma_val_ordered(zero, e.height());
}

/// An angle within or near an extent of ordinary size.
pub open spec fn in_extent(lo: F32, hi: F32, x: F32) -> bool {
    &&& lo.finite() && hi.finite() && x.finite()
    &&& size(val(lo)) <= 4 as real && size(val(hi)) <= 4 as real
    &&& 1 as real <= 64 as real * (val(hi) - val(lo))
    &&& size(val(x) - val(lo)) <= 2 as real * (val(hi) - val(lo))
}

/// One of the two fractions.
proof fn lemma_one_fraction(lo: F32, hi: F32, x: F32)
    requires
        in_extent(lo, hi, x),
    ensures
        hi.minus(lo).finite(),
        val(hi.minus(lo)) > 0 as real,
        x.minus(lo).over(hi.minus(lo)).finite(),
        size(
            val(x.minus(lo).over(hi.minus(lo))) * (val(hi) - val(lo)) - (val(x) - val(lo)),
        ) <= 24 as real * notch(),
{
    let (w, d) = (val(hi) - val(lo), val(x) - val(lo));
    lemma_minus(hi, lo);
    lemma_minus(x, lo);
    let (a, b) = (x.minus(lo), hi.minus(lo));
    lemma_notch(val(b), w);
    lemma_notch(val(a), d);
    let (m, v) = (val(a), val(b));
    let t = m / v;
    lemma_quotient(m, v);
    lemma_size_times(t, v);
    lemma_unscaled(size(t), 3 as real, v);
    lemma_over(a, b);
    let f = val(a.over(b));
    lemma_notch(f, t);
    lemma_spread_out(f, t, v);
    lemma_spread_out(w, v, f);
    lemma_size_times(f - t, v);
    lemma_size_times(f, w - v);
    lemma_scaled(size(f - t), notch(), v);
    lemma_scaled(v, 9 as real, notch());
    lemma_scaled(size(f), 4 as real, size(w - v));
}

} // verus!
