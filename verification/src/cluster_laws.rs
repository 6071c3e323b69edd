//! What holds of the group that the camera follows.
use crate::cluster::{
    box_of, by_distance, center_index, core_of, densest, distance_sq, extremes, inserted,
    keep_count, mean, neighbours, placed, radius_sq, Point, EMPTY_SUM,
};
use crate::field_panner::{FieldPanner, TWO};
use crate::panner_config::{FieldPannerConfig, FramingMode, ZERO};
use crate::panner_laws::law_center_is_densest;
use crate::rounding::{law_rounding_keeps_order, lemma_rung_ascends, lemma_rung_zero, Format};
use crate::single::F32;
use crate::view_laws::law_sum_keeps_order;
use vstd::prelude::*;

verus! {

/// Every player of a group is one of the players.
pub open spec fn drawn_from(group: Seq<Point>, points: Seq<Point>) -> bool {
    forall|i: int| 0 <= i < group.len() ==> points.contains(#[trigger] group[i])
}

proof fn lemma_inserted_from(sorted: Seq<Point>, p: Point, yaw: F32, pitch: F32, points: Seq<Point>)
    requires
        drawn_from(sorted, points),
        points.contains(p),
    ensures
        drawn_from(inserted(sorted, p, yaw, pitch), points),
        inserted(sorted, p, yaw, pitch).len() == sorted.len() + 1,
    decreases sorted.len(),
{
    if sorted.len() > 0 {
        let rest = sorted.drop_last();
        assert forall|i: int| 0 <= i < rest.len() implies points.contains(#[trigger] rest[i]) by {
            assert(rest[i] == sorted[i]);
        }
        lemma_inserted_from(rest, p, yaw, pitch, points);
        assert(points.contains(sorted[sorted.len() - 1]));
    }
}

proof fn lemma_ordered_from(some: Seq<Point>, yaw: F32, pitch: F32, points: Seq<Point>)
    requires
        drawn_from(some, points),
    ensures
        drawn_from(by_distance(some, yaw, pitch), points),
        by_distance(some, yaw, pitch).len() == some.len(),
    decreases some.len(),
{
    if some.len() > 0 {
        let rest = some.drop_last();
        assert forall|i: int| 0 <= i < rest.len() implies points.contains(#[trigger] rest[i]) by {
            assert(rest[i] == some[i]);
        }
        lemma_ordered_from(rest, yaw, pitch, points);
        assert(points.contains(some[some.len() - 1]));
        lemma_inserted_from(by_distance(rest, yaw, pitch), some.last(), yaw, pitch, points);
    }
}

proof fn lemma_neighbours_from(some: Seq<Point>, center: Point, r_sq: F32, points: Seq<Point>)
    requires
        drawn_from(some, points),
    ensures
        drawn_from(neighbours(some, center, r_sq), points),
        neighbours(some, center, r_sq).len() <= some.len(),
    decreases some.len(),
{
    if some.len() > 0 {
        let rest = some.drop_last();
        assert forall|i: int| 0 <= i < rest.len() implies points.contains(#[trigger] rest[i]) by {
            assert(rest[i] == some[i]);
        }
        lemma_neighbours_from(rest, center, r_sq, points);
        assert(points.contains(some[some.len() - 1]));
    }
}

/// The group that is followed is made of the players, and it is never smaller
/// than the least size of a group: where it would be, there is none.
pub proof fn law_group_is_of_players(c: FieldPannerConfig, points: Seq<Point>)
    ensures
        drawn_from(core_of(c, points), points),
        core_of(c, points).len() <= points.len(),
        core_of(c, points).len() == 0 || core_of(c, points).len() >= c.min_cluster,
{
    assert(drawn_from(points, points));
    if points.len() >= c.min_cluster {
        if let Some(m) = mean(c.confidence_weighted, points, F32 { bits: EMPTY_SUM }) {
            let sorted = by_distance(points, m.0, m.1);
            let n = keep_count(c, points.len());
            lemma_ordered_from(points, m.0, m.1, points);
            assert forall|i: int| 0 <= i < n implies points.contains(
                #[trigger] sorted.take(n)[i],
            ) by {
                assert(sorted.take(n)[i] == sorted[i]);
            }
        }
        if let Some(i) = center_index(points, radius_sq(c), points.len()) {
            lemma_neighbours_from(points, points[i], radius_sq(c), points);
        }
    }
}

/// In the density mode the group, where there is one, holds as many players as
/// any player has around them.
pub proof fn law_no_group_is_denser(c: FieldPannerConfig, points: Seq<Point>, i: int)
    requires
        densest(c, points).len() > 0,
        0 <= i < points.len(),
        placed(points[i]),
    ensures
        neighbours(points, points[i], radius_sq(c)).len() <= densest(c, points).len(),
{
    law_center_is_densest(points, radius_sq(c), points.len());
}

/// All of them have a player within the radius.
pub open spec fn around(points: Seq<Point>, center: Point, r_sq: F32) -> bool {
    forall|i: int|
        0 <= i < points.len() ==> distance_sq(center, (#[trigger] points[i]).0, points[i].1).at_most(
            r_sq,
        )
}

proof fn lemma_all_neighbours(points: Seq<Point>, center: Point, r_sq: F32)
    requires
        around(points, center, r_sq),
    ensures
        neighbours(points, center, r_sq) == points,
    decreases points.len(),
{
    if points.len() > 0 {
        let rest = points.drop_last();
        assert forall|i: int| 0 <= i < rest.len() implies distance_sq(
            center,
            (#[trigger] rest[i]).0,
            rest[i].1,
        ).at_most(r_sq) by {
            assert(rest[i] == points[i]);
        }
        lemma_all_neighbours(rest, center, r_sq);
        assert(points.last() == points[points.len() - 1]);
        assert(rest.push(points.last()) =~= points);
    }
}

/// Players who are all close to each other are one group, and nobody is left
/// out.
pub proof fn law_tight_group_is_whole(c: FieldPannerConfig, points: Seq<Point>)
    requires
        0 < points.len(),
        c.min_cluster <= points.len(),
        forall|i: int| 0 <= i < points.len() ==> placed(#[trigger] points[i]),
        forall|i: int| 0 <= i < points.len() ==> around(points, #[trigger] points[i], radius_sq(c)),
    ensures
        densest(c, points) == points,
{
    law_center_is_densest(points, radius_sq(c), points.len());
    assert(placed(points[0]));
    let i = center_index(points, radius_sq(c), points.len())->0;
    lemma_all_neighbours(points, points[i], radius_sq(c));
}

/// When everyone is framed, the box holds every player whose angles are finite.
pub proof fn law_box_holds_players(points: Seq<Point>, i: int)
    requires
        0 <= i < points.len(),
        placed(points[i]),
    ensures
        box_of(points) is Some,
        ({
            let e = extremes(points);
            let p = points[i];
            &&& e.0.finite() && e.1.finite() && e.2.finite() && e.3.finite()
            &&& e.0.at_most(p.0) && p.0.at_most(e.1)
            &&& e.2.at_most(p.1) && p.1.at_most(e.3)
        }),
    decreases points.len(),
{
    lemma_extremes(points.drop_last());
    if i < points.len() - 1 {
        assert(points.drop_last()[i] == points[i]);
        law_box_holds_players(points.drop_last(), i);
    }
}

/// The ends of the box are numbers; the low ends are not the least of all, and
/// the high ends not the greatest.
proof fn lemma_extremes(points: Seq<Point>)
    ensures
        ({
            let e = extremes(points);
            &&& !e.0.nan() && !e.1.nan() && !e.2.nan() && !e.3.nan()
            &&& e.0.place() > -0x7F80_0000 && e.2.place() > -0x7F80_0000
            &&& e.1.place() < 0x7F80_0000 && e.3.place() < 0x7F80_0000
        }),
    decreases points.len(),
{
    if points.len() > 0 {
        lemma_extremes(points.drop_last());
    }
}

/// What is added to zero keeps its place.
pub proof fn lemma_plus_zero(a: F32)
    requires
        !a.nan(),
    ensures
        a.plus(F32 { bits: ZERO }).same(a),
{
    reveal(F32::plus);
    lemma_rung_zero(23);
    let k = a.parts().key as int;
    if a.finite() && k > 0 {
        lemma_rung_ascends(23, 0, k);
        law_rounding_keeps_order(Format::Single, a.parts().size(Format::Single), 1, k);
    }
}

/// When everyone is framed, the field of view rests on how far apart the players
/// are and on the margin alone; and unless the widest one cuts it short, it
/// shows them all and the margin around them.
pub proof fn law_everyone_is_framed(
    p: FieldPanner,
    q: FieldPanner,
    spread: F32,
    pitches: (F32, F32),
    speeds: (F32, F32),
)
    requires
        p.config.framing == FramingMode::FrameAll,
        q.config == p.config,
    ensures
        p.wanted_fov(spread, pitches.0, speeds.0) == q.wanted_fov(spread, pitches.1, speeds.1),
        ({
            let two = F32 { bits: TWO };
            let extent = two.times(spread).degrees();
            let margin = two.times(p.config.frame_all_margin_deg);
            let fov = p.wanted_fov(spread, pitches.0, speeds.0);
            !extent.nan() && margin.finite() && margin.place() >= 0 && extent.plus(margin).at_most(
                p.config.fov_wide,
            ) ==> extent.at_most(fov) && extent.plus(margin).at_most(fov)
        }),
{
    let two = F32 { bits: TWO };
    let extent = two.times(spread).degrees();
    let margin = two.times(p.config.frame_all_margin_deg);
    if !extent.nan() && margin.finite() && margin.place() >= 0 {
        let zero = F32 { bits: ZERO };
        lemma_plus_zero(extent);
        law_sum_keeps_order(extent, extent, zero, margin);
    }
}

} // verus!
