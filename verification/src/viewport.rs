//! How far the virtual camera may turn before the picture's edge comes into
//! view.
use crate::double::F64;
use crate::single::F32;
use crate::world::{CameraId, ViewportPosition};
use vstd::prelude::*;

verus! {

/// The largest finite number.
pub const LARGEST: u32 = 0x7F7F_FFFF;

/// The lowest finite number.
pub const LOWEST: u32 = 0xFF7F_FFFF;

/// One half.
pub const HALF: u32 = 0x3F00_0000;

/// How near to a frame's edge its outline is sampled.
pub const EDGE_NEAR: u32 = 0x3CA3_D70A;

/// The opposite edge of `EDGE_NEAR`.
pub const EDGE_FAR: u32 = 0x3F7A_E148;

/// Into how many steps each edge is divided.
pub const EDGE_STEPS: u32 = 40;

/// Into how many bins the outline is sorted.
pub const BINS: u32 = 20;

/// With fewer points a bin says nothing.
pub const POINTS_PER_BIN: usize = 4;

/// A point of the outline: yaw, then pitch.
pub type Outline = (F32, F32);

/// Yaw or pitch.
#[derive(Clone, Copy, Debug, PartialEq, Eq, Structural)]
pub enum Axis {
    Yaw,
    Pitch,
}

impl Axis {
    /// The other of the two.
    pub open spec fn crossing(self) -> Axis {
        match self {
            Axis::Yaw => Axis::Pitch,
            Axis::Pitch => Axis::Yaw,
        }
    }

    /// A point's coordinate on this axis.
    pub open spec fn part(self, p: Outline) -> F32 {
        match self {
            Axis::Yaw => p.0,
            Axis::Pitch => p.1,
        }
    }

    fn other(self) -> (r: Axis)
        ensures
            r == self.crossing(),
    {
        match self {
            Axis::Yaw => Axis::Pitch,
            Axis::Pitch => Axis::Yaw,
        }
    }

    fn of(self, p: &Outline) -> (r: F32)
        ensures
            r == self.part(*p),
    {
        match self {
            Axis::Yaw => p.0,
            Axis::Pitch => p.1,
        }
    }
}

/// The `i`-th step along an edge.
pub open spec fn edge_step(i: int) -> F32 {
    let lo = F32 { bits: EDGE_NEAR };
    let hi = F32 { bits: EDGE_FAR };
    lo.plus(hi.minus(lo).times(F32::of_whole(i as nat).over(F32::of_whole(EDGE_STEPS as nat))))
}

/// Which camera the `n`-th sample of the outline is of, and where in its frame
/// it lies: the four edges of the left frame step by step, then those of the
/// right one.
pub open spec fn outline_sample(n: int) -> (CameraId, F32, F32) {
    let per_camera = 4 * (EDGE_STEPS + 1);
    let camera = if n < per_camera {
        CameraId::Left
    } else {
        CameraId::Right
    };
    let t = edge_step((n % per_camera) / 4);
    let lo = F32 { bits: EDGE_NEAR };
    let hi = F32 { bits: EDGE_FAR };
    if n % 4 == 0 {
        (camera, lo, t)
    } else if n % 4 == 1 {
        (camera, hi, t)
    } else if n % 4 == 2 {
        (camera, t, lo)
    } else {
        (camera, t, hi)
    }
}

/// The samples of both frames' edges that make the outline.
pub fn outline_samples() -> (r: Vec<(CameraId, F32, F32)>)
    ensures
        r@ == Seq::new(328, |n: int| outline_sample(n)),
{
    let lo = F32::from_bits(EDGE_NEAR);
    let hi = F32::from_bits(EDGE_FAR);
    let mut samples: Vec<(CameraId, F32, F32)> = Vec::new();
    let mut right: u32 = 0;
    while right < 2
        invariant
            right <= 2,
            lo == (F32 { bits: EDGE_NEAR }),
            hi == (F32 { bits: EDGE_FAR }),
            samples@.len() == 164 * right,
            forall|n: int| 0 <= n < samples@.len() ==> #[trigger] samples@[n] == outline_sample(n),
        decreases 2 - right,
    {
        let camera = if right == 0 {
            CameraId::Left
        } else {
            CameraId::Right
        };
        let mut i: u32 = 0;
        while i <= EDGE_STEPS
            invariant
                right < 2,
                i <= EDGE_STEPS + 1,
                lo == (F32 { bits: EDGE_NEAR }),
                hi == (F32 { bits: EDGE_FAR }),
                camera == (if right == 0 {
                    CameraId::Left
                } else {
                    CameraId::Right
                }),
                samples@.len() == 164 * right + 4 * i,
                forall|n: int|
                    0 <= n < samples@.len() ==> #[trigger] samples@[n] == outline_sample(n),
            decreases EDGE_STEPS + 1 - i,
        {
            let step = F32::from_whole(i as u64).div(F32::from_whole(EDGE_STEPS as u64));
            let t = lo.add(hi.sub(lo).mul(step));
            assert(t == edge_step(i as int));
            proof {
                let n = 164 * right + 4 * i;
                assert(forall|k: int|
                    0 <= k < 4 ==> #[trigger] ((n + k) % 4) == k && ((n + k) % 164) / 4 == i);
                assert(outline_sample(n + 0) == (camera, lo, t));
                assert(outline_sample(n + 1) == (camera, hi, t));
                assert(outline_sample(n + 2) == (camera, t, lo));
                assert(outline_sample(n + 3) == (camera, t, hi));
            }
            samples.push((camera, lo, t));
            samples.push((camera, hi, t));
            samples.push((camera, t, lo));
            samples.push((camera, t, hi));
            i += 1;
        }
        right += 1;
    }
    assert(samples@ =~= Seq::new(328, |n: int| outline_sample(n)));
    samples
}

/// The outline: where the samples lie in the panorama, without those that
/// lie nowhere.
pub open spec fn outline_of(positions: Seq<Option<ViewportPosition>>) -> Seq<Outline>
    decreases positions.len(),
{
    if positions.len() == 0 {
        seq![]
    } else {
        let before = outline_of(positions.drop_last());
        match positions.last() {
            Some(p) => before.push((p.yaw, p.pitch)),
            None => before,
        }
    }
}

/// The lowest coordinate of the points on an axis.
pub open spec fn lowest(points: Seq<Outline>, axis: Axis) -> F32
    decreases points.len(),
{
    if points.len() == 0 {
        F32 { bits: LARGEST }
    } else {
        lowest(points.drop_last(), axis).lesser(axis.part(points.last()))
    }
}

/// The highest coordinate of the points on an axis.
pub open spec fn highest(points: Seq<Outline>, axis: Axis) -> F32
    decreases points.len(),
{
    if points.len() == 0 {
        F32 { bits: LOWEST }
    } else {
        highest(points.drop_last(), axis).greater(axis.part(points.last()))
    }
}

/// The points from `lo` on and below `hi` on an axis.
pub open spec fn slice(points: Seq<Outline>, axis: Axis, lo: F32, hi: F32) -> Seq<Outline>
    decreases points.len(),
{
    if points.len() == 0 {
        seq![]
    } else {
        let before = slice(points.drop_last(), axis, lo, hi);
        let x = axis.part(points.last());
        if lo.at_most(x) && x.below(hi) {
            before.push(points.last())
        } else {
            before
        }
    }
}

/// How wide a bin across the axis is.
pub open spec fn bin_width(points: Seq<Outline>, axis: Axis) -> F32 {
    let across = axis.crossing();
    highest(points, across).minus(lowest(points, across)).over(F32::of_whole(BINS as nat))
}

/// The points of the `n`-th bin across the axis.
pub open spec fn bin(points: Seq<Outline>, axis: Axis, n: int) -> Seq<Outline> {
    let across = axis.crossing();
    let width = bin_width(points, axis);
    let lo = lowest(points, across).plus(F32::of_whole(n as nat).times(width));
    slice(points, across, lo, lo.plus(width))
}

/// How far one may turn on an axis for the sake of the first `n` bins, if the
/// view reaches `margin` to each side.
pub open spec fn limits(points: Seq<Outline>, axis: Axis, margin: F32, n: nat) -> (F32, F32)
    decreases n,
{
    if n == 0 {
        (F32 { bits: LOWEST }, F32 { bits: LARGEST })
    } else {
        let before = limits(points, axis, margin, (n - 1) as nat);
        let b = bin(points, axis, n - 1);
        if b.len() < POINTS_PER_BIN {
            before
        } else {
            (
                before.0.greater(lowest(b, axis).plus(margin)),
                before.1.lesser(highest(b, axis).minus(margin)),
            )
        }
    }
}

/// How far one may turn on an axis: the limits of all bins, and those of the
/// whole outline where no bin limits.
pub open spec fn reach(points: Seq<Outline>, axis: Axis, margin: F32) -> (F32, F32) {
    let (lo, hi) = limits(points, axis, margin, BINS as nat);
    (
        if lo.same(F32 { bits: LOWEST }) {
            lowest(points, axis).plus(margin)
        } else {
            lo
        },
        if hi.same(F32 { bits: LARGEST }) {
            highest(points, axis).minus(margin)
        } else {
            hi
        },
    )
}

/// How far one may turn on an axis, or the middle where nothing is left.
pub open spec fn range(points: Seq<Outline>, axis: Axis, margin: F32) -> (F32, F32) {
    let (lo, hi) = reach(points, axis, margin);
    if hi.below(lo) {
        let middle = lo.plus(hi).times(F32 { bits: HALF });
        (middle, middle)
    } else {
        (lo, hi)
    }
}

/// How far the virtual camera may turn so that no black edge is seen.
#[derive(Clone, Copy, Debug, PartialEq, Eq, Structural)]
pub struct ViewportBounds {
    pub min_yaw: F32,
    pub max_yaw: F32,
    pub min_pitch: F32,
    pub max_pitch: F32,
}

/// The bounds that an outline leaves to a view of the given half angles.
pub open spec fn bounds_of(points: Seq<Outline>, half_h: F32, half_v: F32) -> ViewportBounds {
    if points.len() == 0 {
        let zero = F32 { bits: 0 };
        ViewportBounds { min_yaw: zero, max_yaw: zero, min_pitch: zero, max_pitch: zero }
    } else {
        let yaw = range(points, Axis::Yaw, half_h);
        let pitch = range(points, Axis::Pitch, half_v);
        ViewportBounds {
            min_yaw: yaw.0,
            max_yaw: yaw.1,
            min_pitch: pitch.0,
            max_pitch: pitch.1,
        }
    }
}

fn extremes_of(points: &Vec<Outline>, axis: Axis) -> (r: (F32, F32))
    ensures
        r == (lowest(points@, axis), highest(points@, axis)),
{
    let mut lo = F32::from_bits(LARGEST);
    let mut hi = F32::from_bits(LOWEST);
    let mut i: usize = 0;
    while i < points.len()
        invariant
            i <= points@.len(),
            lo == lowest(points@.take(i as int), axis),
            hi == highest(points@.take(i as int), axis),
        decreases points@.len() - i,
    {
        assert(points@.take(i + 1).drop_last() =~= points@.take(i as int));
        let x = axis.of(&points[i]);
        lo = lo.min(x);
        hi = hi.max(x);
        i += 1;
    }
    assert(points@.take(i as int) =~= points@);
    (lo, hi)
}

fn slice_of(points: &Vec<Outline>, axis: Axis, lo: F32, hi: F32) -> (r: Vec<Outline>)
    ensures
        r@ == slice(points@, axis, lo, hi),
{
    let mut kept: Vec<Outline> = Vec::new();
    let mut i: usize = 0;
    assert(points@.take(0) =~= seq![]);
    while i < points.len()
        invariant
            i <= points@.len(),
            kept@ == slice(points@.take(i as int), axis, lo, hi),
        decreases points@.len() - i,
    {
        assert(points@.take(i + 1).drop_last() =~= points@.take(i as int));
        let x = axis.of(&points[i]);
        if lo.le(x) && x.lt(hi) {
            kept.push(points[i]);
        }
        i += 1;
    }
    assert(points@.take(i as int) =~= points@);
    kept
}

fn range_of(points: &Vec<Outline>, axis: Axis, margin: F32) -> (r: (F32, F32))
    ensures
        r == range(points@, axis, margin),
{
    let across = axis.other();
    let whole = extremes_of(points, axis);
    let crossed = extremes_of(points, across);
    let width = crossed.1.sub(crossed.0).div(F32::from_whole(BINS as u64));
    let mut lo = F32::from_bits(LOWEST);
    let mut hi = F32::from_bits(LARGEST);
    let mut n: u32 = 0;
    while n < BINS
        invariant
            n <= BINS,
            across == axis.crossing(),
            crossed.0 == lowest(points@, across),
            width == bin_width(points@, axis),
            (lo, hi) == limits(points@, axis, margin, n as nat),
        decreases BINS - n,
    {
        let from = crossed.0.add(F32::from_whole(n as u64).mul(width));
        let b = slice_of(points, across, from, from.add(width));
        assert(b@ == bin(points@, axis, n as int));
        if b.len() >= POINTS_PER_BIN {
            let e = extremes_of(&b, axis);
            lo = lo.max(e.0.add(margin));
            hi = hi.min(e.1.sub(margin));
        }
        n += 1;
    }
    let bottom = F32::from_bits(LOWEST);
    let top = F32::from_bits(LARGEST);
    if lo.le(bottom) && bottom.le(lo) {
        lo = whole.0.add(margin);
    }
    if hi.le(top) && top.le(hi) {
        hi = whole.1.sub(margin);
    }
    if hi.lt(lo) {
        let middle = lo.add(hi).mul(F32::from_bits(HALF));
        (middle, middle)
    } else {
        (lo, hi)
    }
}

/// Half the vertical angle of view, in radians.
pub fn half_view(fov_degrees: F32) -> (r: F32)
    ensures
        r == fov_degrees.times(F32 { bits: HALF }).radians(),
{
    fov_degrees.mul(F32::from_bits(HALF)).to_radians()
}

/// The bounds within which a view stays inside the picture. `positions` says
/// where each of `outline_samples` lies in the panorama; `corner_hfov` and
/// `corner_vfov` say how far the view's corners reach sideways and up or down.
pub fn viewport_bounds(
    positions: &Vec<Option<ViewportPosition>>,
    corner_hfov: F32,
    corner_vfov: F32,
) -> (r: ViewportBounds)
    ensures
        r == bounds_of(outline_of(positions@), corner_hfov, corner_vfov),
{
    let mut points: Vec<Outline> = Vec::new();
    let mut i: usize = 0;
    assert(positions@.take(0) =~= seq![]);
    while i < positions.len()
        invariant
            i <= positions@.len(),
            points@ == outline_of(positions@.take(i as int)),
        decreases positions@.len() - i,
    {
        assert(positions@.take(i + 1).drop_last() =~= positions@.take(i as int));
        match positions[i] {
            Some(p) => {
                points.push((p.yaw, p.pitch));
            },
            None => {},
        }
        i += 1;
    }
    assert(positions@.take(i as int) =~= positions@);
    if points.len() == 0 {
        let zero = F32::from_bits(0);
        return ViewportBounds { min_yaw: zero, max_yaw: zero, min_pitch: zero, max_pitch: zero };
    }
    let yaw = range_of(&points, Axis::Yaw, corner_hfov);
    let pitch = range_of(&points, Axis::Pitch, corner_vfov);
    ViewportBounds { min_yaw: yaw.0, max_yaw: yaw.1, min_pitch: pitch.0, max_pitch: pitch.1 }
}

impl ViewportBounds {
    /// Both ranges can be clamped to.
    pub open spec fn proper(self) -> bool {
        self.min_yaw.at_most(self.max_yaw) && self.min_pitch.at_most(self.max_pitch)
    }

    /// The position in these bounds that is closest to the given one.
    pub open spec fn closest(self, p: ViewportPosition) -> ViewportPosition {
        ViewportPosition {
            yaw: p.yaw.clamped(self.min_yaw, self.max_yaw),
            pitch: p.pitch.clamped(self.min_pitch, self.max_pitch),
            fov_degrees: p.fov_degrees,
        }
    }

    /// Moves a position into these bounds.
    pub fn clamp(&self, position: ViewportPosition) -> (r: ViewportPosition)
        requires
            self.proper(),
        ensures
            r == self.closest(position),
    {
        ViewportPosition {
            yaw: position.yaw.clamp(self.min_yaw, self.max_yaw),
            pitch: position.pitch.clamp(self.min_pitch, self.max_pitch),
            fov_degrees: position.fov_degrees,
        }
    }
}

/// The bounds are never inverted, whatever the outline and the view.
pub proof fn law_bounds_not_inverted(points: Seq<Outline>, half_h: F32, half_v: F32)
    ensures
        ({
            let b = bounds_of(points, half_h, half_v);
            !b.max_yaw.below(b.min_yaw) && !b.max_pitch.below(b.min_pitch)
        }),
{
}

/// No bin with enough points is overrun: the limits on an axis never let the
/// view's side pass the bin's lowest or highest point.
pub proof fn law_limits_keep_to_bins(
    points: Seq<Outline>,
    axis: Axis,
    margin: F32,
    n: nat,
    k: int,
)
    requires
        0 <= k < n,
        bin(points, axis, k).len() >= POINTS_PER_BIN,
    ensures
        ({
            let (lo, hi) = limits(points, axis, margin, n);
            let b = bin(points, axis, k);
            &&& !lo.below(lowest(b, axis).plus(margin))
            &&& !highest(b, axis).minus(margin).below(hi)
        }),
    decreases n,
{
    if k < n - 1 {
        law_limits_keep_to_bins(points, axis, margin, (n - 1) as nat, k);
        lemma_limits_are_numbers(points, axis, margin, (n - 1) as nat);
    } else {
        lemma_limits_are_numbers(points, axis, margin, (n - 1) as nat);
    }
}

proof fn lemma_limits_are_numbers(points: Seq<Outline>, axis: Axis, margin: F32, n: nat)
    ensures
        !limits(points, axis, margin, n).0.nan(),
        !limits(points, axis, margin, n).1.nan(),
    decreases n,
{
    if n > 0 {
        lemma_limits_are_numbers(points, axis, margin, (n - 1) as nat);
    }
}

/// A clamped position lies within the bounds, keeps its angle of view, and is
/// left alone by a second clamping.
pub proof fn law_clamped_lies_within(b: ViewportBounds, p: ViewportPosition)
    requires
        b.proper(),
        !p.yaw.nan(),
        !p.pitch.nan(),
    ensures
        ({
            let q = b.closest(p);
            &&& b.min_yaw.at_most(q.yaw) && q.yaw.at_most(b.max_yaw)
            &&& b.min_pitch.at_most(q.pitch) && q.pitch.at_most(b.max_pitch)
            &&& q.fov_degrees == p.fov_degrees
            &&& b.closest(q) == q
        }),
{
}

/// What part of the panorama there is, in radians.
#[derive(Clone, Copy, Debug, PartialEq, Eq, Structural)]
pub struct PanoramaExtent {
    pub yaw_min: F32,
    pub yaw_max: F32,
    pub pitch_min: F32,
    pub pitch_max: F32,
}

impl PanoramaExtent {
    /// The extent sideways.
    pub open spec fn width(self) -> F32 {
        self.yaw_max.minus(self.yaw_min)
    }

    /// The extent up and down.
    pub open spec fn height(self) -> F32 {
        self.pitch_max.minus(self.pitch_min)
    }

    /// A position as fractions of the extent, which must not be empty.
    pub open spec fn fractions(self, yaw: F32, pitch: F32) -> Option<(F32, F32)> {
        let zero = F32 { bits: 0 };
        if zero.below(self.width()) && zero.below(self.height()) {
            Some(
                (
                    yaw.minus(self.yaw_min).over(self.width()),
                    pitch.minus(self.pitch_min).over(self.height()),
                ),
            )
        } else {
            None
        }
    }

    /// The extent sideways.
    pub fn yaw_span(&self) -> (r: F32)
        ensures
            r == self.width(),
    {
        self.yaw_max.sub(self.yaw_min)
    }

    /// The extent up and down.
    pub fn pitch_span(&self) -> (r: F32)
        ensures
            r == self.height(),
    {
        self.pitch_max.sub(self.pitch_min)
    }

    /// A position as fractions of the extent; none where the extent is empty.
    pub fn normalize(&self, yaw: F32, pitch: F32) -> (r: Option<(F32, F32)>)
        ensures
            r == self.fractions(yaw, pitch),
    {
        let zero = F32::from_bits(0);
        let width = self.yaw_span();
        let height = self.pitch_span();
        if zero.lt(width) && zero.lt(height) {
            Some((yaw.sub(self.yaw_min).div(width), pitch.sub(self.pitch_min).div(height)))
        } else {
            None
        }
    }
}

/// The edge from `a` to `b` is crossed on the way from `p` to the right.
pub open spec fn crosses(p: [F64; 2], a: [F64; 2], b: [F64; 2]) -> bool {
    &&& p[1].below(a[1]) != p[1].below(b[1])
    &&& p[0].below(
        b[0].minus(a[0]).times(p[1].minus(a[1])).over(b[1].minus(a[1])).plus(a[0]),
    )
}

/// How many of the first `n` edges are crossed on the way from `p` to the
/// right; the edge of each vertex comes from the one before, that of the first
/// from the last.
pub open spec fn crossings(p: [F64; 2], polygon: Seq<[F64; 2]>, n: nat) -> nat
    decreases n,
{
    if n == 0 {
        0
    } else {
        let before = if n == 1 {
            polygon.last()
        } else {
            polygon[n - 2]
        };
        crossings(p, polygon, (n - 1) as nat) + if crosses(p, polygon[n - 1], before) {
            1nat
        } else {
            0nat
        }
    }
}

/// A point is inside where an odd number of edges is crossed.
pub open spec fn inside(p: [F64; 2], polygon: Seq<[F64; 2]>) -> bool {
    polygon.len() >= 3 && crossings(p, polygon, polygon.len()) % 2 == 1
}

/// Whether a point lies inside a polygon; nothing lies inside fewer than three
/// vertices.
pub fn point_in_polygon(point: [F64; 2], polygon: &[[F64; 2]]) -> (r: bool)
    ensures
        r == inside(point, polygon@),
{
    let n = polygon.len();
    if n < 3 {
        return false;
    }
    let mut odd = false;
    let mut before = polygon[n - 1];
    let mut i: usize = 0;
    while i < n
        invariant
            i <= n,
            n == polygon@.len(),
            n >= 3,
            before == (if i == 0 {
                polygon@.last()
            } else {
                polygon@[i - 1]
            }),
            odd == (crossings(point, polygon@, i as nat) % 2 == 1),
        decreases n - i,
    {
        let a = polygon[i];
        if point[1].lt(a[1]) != point[1].lt(before[1]) {
            let x = before[0].sub(a[0]).mul(point[1].sub(a[1])).div(before[1].sub(a[1])).add(a[0]);
            if point[0].lt(x) {
                odd = !odd;
            }
        }
        before = a;
        i += 1;
    }
    odd
}

/// What lies at or above the height of every vertex is outside.
pub proof fn law_nothing_inside_above(p: [F64; 2], polygon: Seq<[F64; 2]>)
    requires
        forall|i: int| 0 <= i < polygon.len() ==> !p[1].below((#[trigger] polygon[i])[1]),
    ensures
        !inside(p, polygon),
{
    lemma_nothing_crossed(p, polygon, polygon.len());
}

proof fn lemma_nothing_crossed(p: [F64; 2], polygon: Seq<[F64; 2]>, n: nat)
    requires
        forall|i: int| 0 <= i < polygon.len() ==> !p[1].below((#[trigger] polygon[i])[1]),
        n <= polygon.len(),
    ensures
        crossings(p, polygon, n) == 0,
    decreases n,
{
    if n > 0 {
        lemma_nothing_crossed(p, polygon, (n - 1) as nat);
        let before = if n == 1 {
            polygon.last()
        } else {
            polygon[n - 2]
        };
        assert(!p[1].below(polygon[n - 1][1]));
        assert(!p[1].below(before[1]));
    }
}

} // verus!
