//! That a view that reaches further may turn less, and a lens that reaches less
//! far shows less.
use crate::calibration::CameraParams;
use crate::chase_laws::lemma_times_commutes;
use crate::double::F64;
use crate::projection::{border_sample, extent_of, reached, reached_positions};
use crate::rounding::{
    law_ratio_rounds, law_rounding_monotone, lemma_rung_ascends, lemma_rung_zero, rung, Format,
};
use crate::single::F32;
use crate::size_laws::{
    lemma_doubles, lemma_power_rung, lemma_product_within, lemma_sum_within, lemma_within_value,
    within,
};
use crate::speed_laws::{far, lemma_product_close, lemma_sum_close, magnitude, value};
use crate::viewport::{
    bin, bin_width, bounds_of, highest, limits, lowest, range, reach, slice, Axis, Outline,
    ViewportBounds, BINS, HALF, LARGEST, LOWEST, POINTS_PER_BIN,
};
use crate::world::ViewportPosition;
use vstd::arithmetic::power2::{
    lemma2_to64, lemma_pow2_adds, lemma_pow2_pos, lemma_pow2_strictly_increases, pow2,
};
use vstd::prelude::*;

verus! {

/// Numbers in order have values in order.
proof fn lemma_values_ordered(a: F32, b: F32)
    requires
        a.finite(),
        b.finite(),
        a.place() <= b.place(),
    ensures
        a.parts().value(Format::Single) <= b.parts().value(Format::Single),
{
    let (x, y) = (a.parts(), b.parts());
    lemma_rung_zero(23);
    if x.key > 0 {
        lemma_rung_ascends(23, 0, x.key as int);
    }
    if y.key > 0 {
        lemma_rung_ascends(23, 0, y.key as int);
    }
    if x.key < y.key {
        lemma_rung_ascends(23, x.key as int, y.key as int);
    }
    if y.key < x.key {
        lemma_rung_ascends(23, y.key as int, x.key as int);
    }
}

/// Sums keep the order of what is added: of two summands on either side, the
/// greater give the greater sum, or the same.
pub proof fn law_sum_keeps_order(a: F32, b: F32, c: F32, d: F32)
    requires
        a.at_most(b),
        c.at_most(d),
        c.finite(),
        d.finite(),
    ensures
        a.plus(c).at_most(b.plus(d)),
{
    reveal(F32::plus);
    let n = a.parts().value(Format::Single) + c.parts().value(Format::Single);
    let m = b.parts().value(Format::Single) + d.parts().value(Format::Single);
    law_ratio_rounds(Format::Single, n, 1);
    law_ratio_rounds(Format::Single, -n, 1);
    law_ratio_rounds(Format::Single, m, 1);
    law_ratio_rounds(Format::Single, -m, 1);
    if a.finite() && b.finite() {
        lemma_values_ordered(a, b);
        lemma_values_ordered(c, d);
        law_rounding_monotone(Format::Single, n, m, 1);
        law_rounding_monotone(Format::Single, -m, -n, 1);
    }
}

/// Extremes are numbers, and the extremes of a slice lie within those of the
/// whole.
proof fn lemma_slice_within(points: Seq<Outline>, across: Axis, axis: Axis, lo: F32, hi: F32)
    ensures
        lowest(points, axis).at_most(lowest(slice(points, across, lo, hi), axis)),
        highest(slice(points, across, lo, hi), axis).at_most(highest(points, axis)),
    decreases points.len(),
{
    if points.len() > 0 {
        let before = slice(points.drop_last(), across, lo, hi);
        lemma_slice_within(points.drop_last(), across, axis, lo, hi);
        assert(before.push(points.last()).drop_last() =~= before);
    }
}

/// The limits are numbers; and on either side they are the widest there are, or
/// at least as narrow as those of the whole outline.
proof fn lemma_limits_or_widest(points: Seq<Outline>, axis: Axis, margin: F32, n: nat)
    requires
        margin.finite(),
    ensures
        ({
            let (lo, hi) = limits(points, axis, margin, n);
            let (bottom, top) = (F32 { bits: LOWEST }, F32 { bits: LARGEST });
            &&& bottom.at_most(lo)
            &&& hi.at_most(top)
            &&& lo.same(bottom) || lowest(points, axis).plus(margin).at_most(lo)
            &&& hi.same(top) || hi.at_most(highest(points, axis).minus(margin))
        }),
    decreases n,
{
    if n > 0 {
        lemma_limits_or_widest(points, axis, margin, (n - 1) as nat);
        let across = axis.crossing();
        let b = bin(points, axis, n - 1);
        let width = bin_width(points, axis);
        let lo = lowest(points, across).plus(F32::of_whole((n - 1) as nat).times(width));
        lemma_slice_within(points, across, axis, lo, lo.plus(width));
        law_sum_keeps_order(lowest(points, axis), lowest(b, axis), margin, margin);
        let back = margin.negated();
        law_sum_keeps_order(highest(b, axis), highest(points, axis), back, back);
    }
}

/// A view that reaches further is limited at least as much by every bin.
proof fn lemma_limits_tighten(points: Seq<Outline>, axis: Axis, near: F32, far: F32, n: nat)
    requires
        near.finite(),
        far.finite(),
        near.at_most(far),
    ensures
        limits(points, axis, near, n).0.at_most(limits(points, axis, far, n).0),
        limits(points, axis, far, n).1.at_most(limits(points, axis, near, n).1),
    decreases n,
{
    if n > 0 {
        lemma_limits_tighten(points, axis, near, far, (n - 1) as nat);
        let across = axis.crossing();
        let b = bin(points, axis, n - 1);
        let width = bin_width(points, axis);
        let lo = lowest(points, across).plus(F32::of_whole((n - 1) as nat).times(width));
        lemma_slice_within(points, across, axis, lo, lo.plus(width));
        law_sum_keeps_order(lowest(b, axis), lowest(b, axis), near, far);
        law_sum_keeps_order(highest(b, axis), highest(b, axis), far.negated(), near.negated());
    }
}

/// A wider view may turn no further than a narrower one: as long as it can turn
/// at all, its range lies within the other's.
pub proof fn law_wider_view_turns_less(points: Seq<Outline>, axis: Axis, near: F32, far: F32)
    requires
        near.finite(),
        far.finite(),
        near.at_most(far),
        !reach(points, axis, far).1.below(reach(points, axis, far).0),
    ensures
        range(points, axis, near).0.at_most(range(points, axis, far).0),
        range(points, axis, far).1.at_most(range(points, axis, near).1),
{
    let n = BINS as nat;
    lemma_limits_or_widest(points, axis, near, n);
    lemma_limits_or_widest(points, axis, far, n);
    lemma_limits_tighten(points, axis, near, far, n);
    lemma_slice_within(points, axis, axis, F32 { bits: 0 }, F32 { bits: 0 });
    law_sum_keeps_order(lowest(points, axis), lowest(points, axis), near, far);
    law_sum_keeps_order(
        highest(points, axis),
        highest(points, axis),
        far.negated(),
        near.negated(),
    );
}

/// The angles of an outline are finite, and at most four.
pub open spec fn near_outline(points: Seq<Outline>) -> bool {
    forall|i: int| 0 <= i < points.len() ==> near_point(#[trigger] points[i])
}

/// The angles of a point are finite, and at most four.
pub open spec fn near_point(p: Outline) -> bool {
    p.0.finite() && within(p.0, 2) && p.1.finite() && within(p.1, 2)
}

/// The extremes of an outline lie where its points do.
proof fn lemma_near_extremes(points: Seq<Outline>, axis: Axis)
    requires
        near_outline(points),
        points.len() > 0,
    ensures
        lowest(points, axis).finite() && within(lowest(points, axis), 2),
        highest(points, axis).finite() && within(highest(points, axis), 2),
    decreases points.len(),
{
    let rest = points.drop_last();
    assert(near_point(points[points.len() - 1]));
    if rest.len() > 0 {
        assert forall|i: int| 0 <= i < rest.len() implies near_point(#[trigger] rest[i]) by {
            assert(rest[i] == points[i]);
        }
        lemma_near_extremes(rest, axis);
    } else {
        assert(lowest(rest, axis) == (F32 { bits: LARGEST }));
        assert(highest(rest, axis) == (F32 { bits: LOWEST }));
    }
}

/// A slice of an outline lies where the outline does.
proof fn lemma_near_slice(points: Seq<Outline>, axis: Axis, lo: F32, hi: F32)
    requires
        near_outline(points),
    ensures
        near_outline(slice(points, axis, lo, hi)),
    decreases points.len(),
{
    if points.len() > 0 {
        let rest = points.drop_last();
        assert forall|i: int| 0 <= i < rest.len() implies near_point(#[trigger] rest[i]) by {
            assert(rest[i] == points[i]);
        }
        lemma_near_slice(rest, axis, lo, hi);
        assert(near_point(points[points.len() - 1]));
        let (before, now) = (slice(rest, axis, lo, hi), slice(points, axis, lo, hi));
        assert forall|i: int| 0 <= i < now.len() implies near_point(#[trigger] now[i]) by {
            if i < before.len() {
                assert(now[i] == before[i]);
            }
        }
    }
}

/// What the first `n` bins limit, whatever the view reaches.
spec fn edges(points: Seq<Outline>, axis: Axis, n: nat) -> (F32, F32)
    decreases n,
{
    if n == 0 {
        (F32 { bits: LOWEST }, F32 { bits: LARGEST })
    } else {
        let before = edges(points, axis, (n - 1) as nat);
        let b = bin(points, axis, n - 1);
        if b.len() < POINTS_PER_BIN {
            before
        } else {
            (before.0.greater(lowest(b, axis)), before.1.lesser(highest(b, axis)))
        }
    }
}

/// A limit lies a margin off an edge, but for rounding.
spec fn follows(limit: F32, edge: F32, margin: int) -> bool {
    &&& limit.finite() && within(limit, 3)
    &&& edge.finite() && within(edge, 2)
    &&& magnitude(value(limit) - (value(edge) + margin)) <= pow2(129)
}

/// An edge moved by a margin.
proof fn lemma_moved_edge(x: F32, m: F32)
    requires
        x.finite(),
        within(x, 2),
        m.finite(),
        within(m, 1),
    ensures
        follows(x.plus(m), x, value(m)),
{
    lemma_within_value(x, 2);
    lemma_within_value(m, 1);
    lemma_within_value(m, 2);
    lemma_doubles(1);
    lemma_doubles(2);
    lemma_sum_within(x, m, 2);
    lemma_power_rung(127);
    lemma_pow2_strictly_increases(152, 276);
    lemma_sum_close(x, m);
    lemma_within_value(x.plus(m), 3);
    lemma2_to64();
    lemma_pow2_adds(23, 129);
    lemma_pow2_pos(128);
    lemma_pow2_adds(1, 128);
}

/// The greater and the lesser of two numbers, as values.
proof fn lemma_greater_value(a: F32, b: F32)
    requires
        a.finite(),
        b.finite(),
    ensures
        value(a.greater(b)) == if value(a) < value(b) {
            value(b)
        } else {
            value(a)
        },
        value(a.lesser(b)) == if value(b) < value(a) {
            value(b)
        } else {
            value(a)
        },
{
    if a.place() <= b.place() {
        lemma_values_ordered(a, b);
    }
    if b.place() <= a.place() {
        lemma_values_ordered(b, a);
    }
}

/// The limits of all bins follow their edges.
proof fn lemma_limits_follow(points: Seq<Outline>, axis: Axis, margin: F32, n: nat)
    requires
        near_outline(points),
        margin.finite(),
        within(margin, 1),
    ensures
        ({
            let (l, e) = (limits(points, axis, margin, n), edges(points, axis, n));
            let (bottom, top) = (F32 { bits: LOWEST }, F32 { bits: LARGEST });
            &&& (l.0 == bottom && e.0 == bottom) || follows(l.0, e.0, value(margin))
            &&& (l.1 == top && e.1 == top) || follows(l.1, e.1, -value(margin))
        }),
    decreases n,
{
    if n > 0 {
        lemma_limits_follow(points, axis, margin, (n - 1) as nat);
        let across = axis.crossing();
        let width = bin_width(points, axis);
        let lo = lowest(points, across).plus(F32::of_whole((n - 1) as nat).times(width));
        let b = bin(points, axis, n - 1);
        lemma_near_slice(points, across, lo, lo.plus(width));
        if b.len() >= POINTS_PER_BIN {
            lemma_near_extremes(b, axis);
            let back = margin.negated();
            assert(value(back) == -value(margin));
            lemma_moved_edge(lowest(b, axis), margin);
            lemma_moved_edge(highest(b, axis), back);
            let (l, e) = (
                limits(points, axis, margin, (n - 1) as nat),
                edges(points, axis, (n - 1) as nat),
            );
            lemma_greater_value(l.0, lowest(b, axis).plus(margin));
            lemma_greater_value(e.0, lowest(b, axis));
            lemma_greater_value(l.1, highest(b, axis).minus(margin));
            lemma_greater_value(e.1, highest(b, axis));
        }
    }
}

/// The edges of all bins, and those of the whole outline where no bin limits.
spec fn rims(points: Seq<Outline>, axis: Axis) -> (F32, F32) {
    let (lo, hi) = edges(points, axis, BINS as nat);
    (
        if lo == (F32 { bits: LOWEST }) {
            lowest(points, axis)
        } else {
            lo
        },
        if hi == (F32 { bits: LARGEST }) {
            highest(points, axis)
        } else {
            hi
        },
    )
}

/// How far one may turn follows the rims.
proof fn lemma_reach_follows(points: Seq<Outline>, axis: Axis, margin: F32)
    requires
        near_outline(points),
        points.len() > 0,
        margin.finite(),
        within(margin, 1),
    ensures
        ({
            let (r, e) = (reach(points, axis, margin), rims(points, axis));
            follows(r.0, e.0, value(margin)) && follows(r.1, e.1, -value(margin))
        }),
{
    lemma_limits_follow(points, axis, margin, BINS as nat);
    lemma_near_extremes(points, axis);
    let back = margin.negated();
    assert(value(back) == -value(margin));
    lemma_moved_edge(lowest(points, axis), margin);
    lemma_moved_edge(highest(points, axis), back);
}

/// The middle of two numbers, but for rounding.
proof fn lemma_middle(lo: F32, hi: F32)
    requires
        lo.finite(),
        hi.finite(),
        within(lo, 3),
        within(hi, 3),
    ensures
        ({
            let m = lo.plus(hi).times(F32 { bits: HALF });
            m.finite() && magnitude(2 * value(m) - (value(lo) + value(hi))) <= 4 * pow2(129)
        }),
{
    let half = F32 { bits: HALF };
    let s = lo.plus(hi);
    lemma_within_value(lo, 3);
    lemma_within_value(hi, 3);
    lemma_doubles(3);
    lemma_power_rung(127);
    lemma_power_rung(-1);
    lemma_pow2_strictly_increases(153, 276);
    lemma_sum_within(lo, hi, 3);
    lemma_sum_close(lo, hi);
    lemma_within_value(s, 4);
    lemma_times_commutes(s, half);
    lemma_product_within(half, s, -1, 4);
    let m = half.times(s);
    lemma_within_value(m, 3);
    assert(value(half) == pow2(148));
    lemma_doubles(-1);
    let (u, far_off) = (pow2(148) as int, rung(23, far()));
    let (x, y) = (value(m), value(s));
    assert(u * magnitude(y) <= far_off * (2 * u)) by (nonlinear_arith)
        requires
            magnitude(y) <= far_off,
            0 <= magnitude(y),
            u > 0,
    ;
    lemma_product_close(half, s);
    assert(x * (2 * u) - u * y == u * (2 * x - y)) by (nonlinear_arith);
    assert(magnitude(u * (2 * x - y)) == u * magnitude(2 * x - y)) by (nonlinear_arith)
        requires
            u > 0,
    ;
    let (e, r) = (magnitude(2 * x - y), magnitude(x) + 0x80_0000);
    assert(0x100_0000 * e <= 2 * r) by (nonlinear_arith)
        requires
            0x100_0000 * (u * e) <= r * (2 * u),
            u > 0,
    ;
    lemma2_to64();
    lemma_pow2_adds(23, 129);
    lemma_pow2_adds(24, 129);
    lemma_pow2_pos(128);
    lemma_pow2_adds(1, 128);
}

/// A wider view may turn no further than a narrower one, but for a rounding of
/// less than a hundred-thousandth of a radian: also where nothing is left to
/// turn and the view stays in the middle, and where that holds of both.
pub proof fn law_wider_view_stays_within(points: Seq<Outline>, axis: Axis, near: F32, far: F32)
    requires
        near_outline(points),
        points.len() > 0,
        near.finite(),
        far.finite(),
        within(far, 1),
        (F32 { bits: 0 }).at_most(near),
        near.at_most(far),
    ensures
        ({
            let (wide, narrow) = (range(points, axis, far), range(points, axis, near));
            &&& wide.0.finite() && wide.1.finite() && narrow.0.finite() && narrow.1.finite()
            &&& 0x2_0000 * (value(narrow.0) - value(wide.0)) <= pow2(149)
            &&& 0x2_0000 * (value(wide.1) - value(narrow.1)) <= pow2(149)
            &&& wide.0.at_most(wide.1) && narrow.0.at_most(narrow.1)
        }),
{
    lemma_values_ordered(near, far);
    lemma_reach_follows(points, axis, near);
    lemma_reach_follows(points, axis, far);
    let (n, f) = (reach(points, axis, near), reach(points, axis, far));
    lemma_middle(n.0, n.1);
    lemma_middle(f.0, f.1);
    if n.1.below(n.0) {
        lemma_values_ordered(n.1, n.0);
    } else {
        lemma_values_ordered(n.0, n.1);
    }
    if f.1.below(f.0) {
        lemma_values_ordered(f.1, f.0);
    } else {
        lemma_values_ordered(f.0, f.1);
    }
    lemma2_to64();
    lemma_pow2_adds(20, 129);
    lemma_pow2_pos(129);
}

/// Bounds that are in order and lie within others, but for a rounding of less
/// than a hundred-thousandth of a radian.
pub open spec fn bounds_within(inner: ViewportBounds, outer: ViewportBounds) -> bool {
    &&& inner.min_yaw.at_most(inner.max_yaw)
    &&& inner.min_pitch.at_most(inner.max_pitch)
    &&& 0x2_0000 * (value(outer.min_yaw) - value(inner.min_yaw)) <= pow2(149)
    &&& 0x2_0000 * (value(inner.max_yaw) - value(outer.max_yaw)) <= pow2(149)
    &&& 0x2_0000 * (value(outer.min_pitch) - value(inner.min_pitch)) <= pow2(149)
    &&& 0x2_0000 * (value(inner.max_pitch) - value(outer.max_pitch)) <= pow2(149)
}

/// Half an angle of view: from zero to two radians.
pub open spec fn half_view(x: F32) -> bool {
    x.finite() && (F32 { bits: 0 }).at_most(x) && within(x, 1)
}

/// A wider view never widens the bounds of an outline, and no bounds are inverted.
pub proof fn law_wider_view_never_widens(
    points: Seq<Outline>,
    near: (F32, F32),
    far: (F32, F32),
)
    requires
        near_outline(points),
        half_view(near.0) && half_view(near.1) && half_view(far.0) && half_view(far.1),
        near.0.at_most(far.0),
        near.1.at_most(far.1),
    ensures
        bounds_within(bounds_of(points, far.0, far.1), bounds_of(points, near.0, near.1)),
{
    lemma_pow2_pos(149);
    if points.len() > 0 {
        law_wider_view_stays_within(points, Axis::Yaw, near.0, far.0);
        law_wider_view_stays_within(points, Axis::Pitch, near.1, far.1);
    }
}

/// A lens that reaches less far shows no more of the panorama.
pub proof fn law_shorter_reach_shows_less(
    camera: CameraParams,
    near: F64,
    far: F64,
    positions: Seq<Option<ViewportPosition>>,
    n: nat,
)
    requires
        near.at_most(far),
    ensures
        ({
            let less = extent_of(reached_positions(camera, near, positions, n));
            let more = extent_of(reached_positions(camera, far, positions, n));
            &&& (more.0).0.at_most((less.0).0) && (less.0).1.at_most((more.0).1)
            &&& (more.1).0.at_most((less.1).0) && (less.1).1.at_most((more.1).1)
        }),
    decreases n,
{
    if n > 0 {
        law_shorter_reach_shows_less(camera, near, far, positions, (n - 1) as nat);
        let (x, y) = border_sample(n - 1);
        let less = reached_positions(camera, near, positions, (n - 1) as nat);
        let more = reached_positions(camera, far, positions, (n - 1) as nat);
        assert(reached(x, y, camera, near) ==> reached(x, y, camera, far));
        if let Some(p) = positions[n - 1] {
            assert(less.push(p).drop_last() =~= less);
            assert(more.push(p).drop_last() =~= more);
        }
    }
}

} // verus!
