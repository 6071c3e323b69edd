//! What holds of the matching of a frame pair, seen from outside.
use crate::real_single_laws;
use crate::algebra::{lemma_nothing, lemma_spread_out, lemma_three, lemma_ulp};
use crate::double::F64;
use crate::lens_laws::lemma_relative;
use crate::radius_laws::{lemma_scaled, lemma_size_times};
use crate::real_laws::{lemma_over, lemma_speck, size, speck, ulp, val};
use crate::round_trip_laws::lemma_quotient;
use crate::single::F32;
use crate::stereo::{
    left_region, right_region, sides_cross, swapped, CalibrationConfig, FeaturePair, PairAction,
    PairEvent, PairMatching, PairStage,
};
use crate::value_laws::{lemma_whole, lemma_wide};
use vstd::prelude::*;

verus! {

/// A place across a frame, in pixels.
pub open spec fn ordinary_pixel(x: F32) -> bool {
    x.finite() && size(real_single_laws::val(x)) <= 0x100_0000_0000 as real
}

/// A pixel over the width of its frame, times that width, is the pixel.
proof fn lemma_fraction_of_width(x: F32, width: u32)
    requires
        ordinary_pixel(x),
        width > 0,
    ensures
        ({
            let n = x.wide().over(F64::of_whole(width as nat));
            &&& n.finite()
            &&& 0x4_0000_0000_0000 as real * size(
                val(n) * width as real - real_single_laws::val(x),
            ) <= size(real_single_laws::val(x)) + 1 as real
        }),
{
    lemma_speck();
    lemma_wide(x);
    lemma_whole(width as nat);
    let (a, b) = (x.wide(), F64::of_whole(width as nat));
    let (v, f) = (val(a), width as real);
    let (w, k) = (ulp(), speck());
    let ratio = v / f;
    lemma_quotient(v, f);
    lemma_size_times(ratio, f);
    lemma_scaled(1 as real, f, size(ratio));
    lemma_nothing(size(ratio));
    lemma_over(a, b);
    let r = val(a.over(b));
    lemma_relative(r, ratio);
    let d = r - ratio;
    lemma_spread_out(r, ratio, f);
    lemma_spread_out(size(ratio) * w, k, f);
    lemma_three(size(ratio), w, f);
    lemma_size_times(d, f);
    lemma_scaled(size(d), size(ratio) * w + k, f);
    lemma_ulp(size(v));
    lemma_scaled(f, 0x1_0000_0000 as real, k);
    assert(k * f <= k * 0x1_0000_0000 as real);
}

/// A feature that both cameras saw lies on the left plane where the right
/// camera saw it, and on the right plane where the left camera did; and how far
/// across the frame it was seen is that camera's pixel over that camera's width.
pub proof fn law_sides_keep_their_camera(pair: FeaturePair, lw: u32, rw: u32)
    requires
        lw > 0,
        rw > 0,
        ordinary_pixel(pair.left.x),
        ordinary_pixel(pair.right.x),
    ensures
        ({
            let p = swapped(pair, lw, rw);
            &&& p.left@[0] == pair.right.plane_x && p.left@[1] == pair.right.plane_y
            &&& p.right@[0] == pair.left.plane_x && p.right@[1] == pair.left.plane_y
            &&& p.left_pixel_nx.finite() && p.right_pixel_nx.finite()
            &&& 0x4_0000_0000_0000 as real * size(
                val(p.left_pixel_nx) * rw as real - real_single_laws::val(pair.right.x),
            ) <= size(real_single_laws::val(pair.right.x)) + 1 as real
            &&& 0x4_0000_0000_0000 as real * size(
                val(p.right_pixel_nx) * lw as real - real_single_laws::val(pair.left.x),
            ) <= size(real_single_laws::val(pair.left.x)) + 1 as real
        }),
{
    lemma_fraction_of_width(pair.right.x, rw);
    lemma_fraction_of_width(pair.left.x, lw);
}

/// Exchanging the two cameras exchanges the two sides of a matched point.
pub proof fn law_exchanged_cameras_exchange_sides(pair: FeaturePair, lw: u32, rw: u32)
    ensures
        ({
            let p = swapped(pair, lw, rw);
            let q = swapped(FeaturePair { left: pair.right, right: pair.left }, rw, lw);
            &&& q.left == p.right && q.right == p.left
            &&& q.left_pixel_nx == p.right_pixel_nx
            &&& q.right_pixel_nx == p.left_pixel_nx
        }),
{
}

/// The two regions mirror each other: what one leaves out at its outer edge the
/// other leaves out at the opposite one, and both span the same rows.
pub proof fn law_regions_mirror(c: CalibrationConfig)
    ensures
        ({
            let (l, r) = (left_region(c), right_region(c));
            let one = F32 { bits: 0x3F80_0000 };
            &&& l.x_max == one.minus(r.x_min) && r.x_max == one.minus(l.x_min)
            &&& l.y_min == r.y_min && l.y_max == r.y_max
            &&& l.x_min == c.matching.spatial_x_threshold.narrow()
            &&& r.x_min == c.matching.spatial_x_inner.narrow()
            &&& l.y_min == c.akaze.detect_y_min.narrow()
            &&& l.y_max == c.akaze.detect_y_max.narrow()
        }),
{
}

/// Whether a frame pair goes on to the next stage is a matter of how much it
/// has: both frames have features, at least as many descriptors match as are
/// asked for, and at least as many survive; then the survivors, all of them and
/// in order, are handed on with their sides crossed.
pub proof fn law_enough_goes_on(
    m: PairMatching,
    event: PairEvent,
    next: PairMatching,
    action: Option<PairAction>,
)
    requires
        m.leads(event, next, action),
    ensures
        m.stage == PairStage::Detecting ==> (event matches PairEvent::Detected {
            keypoints_left,
            keypoints_right,
            descriptors_left,
            descriptors_right,
        } ==> {
            &&& keypoints_left > 0 && keypoints_right > 0 <==> action == Some(PairAction::Match)
            &&& keypoints_left == 0 || keypoints_right == 0 <==> action == Some(PairAction::Skip)
            &&& next.keypoints_left == keypoints_left && next.keypoints_right == keypoints_right
            &&& next.min_descriptors <= descriptors_left && next.min_descriptors
                <= descriptors_right
            &&& next.min_descriptors == descriptors_left || next.min_descriptors
                == descriptors_right
        }),
        m.stage == PairStage::Matching ==> (event matches PairEvent::Matched { raw } ==> {
            &&& raw >= m.min_matches <==> action == Some(PairAction::Reject)
            &&& raw < m.min_matches <==> action == Some(PairAction::Skip)
            &&& next.post_ratio_test == raw
        }),
        m.stage == PairStage::Rejecting ==> (event matches PairEvent::Rejected {
            spatial,
            inliers,
        } ==> {
            &&& next.post_spatial_filter == spatial
            &&& inliers is None ==> action == Some(PairAction::Skip)
            &&& inliers matches Some(pairs) ==> {
                &&& next.post_ransac == pairs.len()
                &&& pairs.len() >= m.min_matches <==> action is Some && action->0 is Filter
                &&& pairs.len() < m.min_matches <==> action == Some(PairAction::Skip)
                &&& pairs.len() >= m.min_matches ==> sides_cross(
                    pairs@,
                    action->0->Filter_0@,
                    m.left_width,
                    m.right_width,
                )
            }
        }),
        m.stage == PairStage::Filtering ==> (event matches PairEvent::Filtered(points) ==> (action
            matches Some(PairAction::Keep(f)) && f.points@ == points@ && f.post_ransac
            == m.post_ransac && f.post_ratio_test == m.post_ratio_test && f.post_spatial_filter
            == m.post_spatial_filter && f.keypoints_left == m.keypoints_left && f.keypoints_right
            == m.keypoints_right && f.min_descriptors == m.min_descriptors)),
        next.min_matches == m.min_matches && next.left_width == m.left_width && next.right_width
            == m.right_width,
        m.stage == PairStage::Done ==> action is None && next == m,
{
}

} // verus!
