//! What holds of the field panner as a whole.
use crate::arith::Parts;
use crate::cluster::{
    added, box_of, by_distance, center_index, core_of, distance_sq, extremes, inserted,
    neighbours, placed, points_of, radius_sq, share, weight, Column, Point, EMPTY_SUM, INFINITE,
};
use crate::field_panner::{new_panner, Cluster, FieldPanner, THOUSAND};
use crate::panner_config::{
    in_range, law_sanitized_in_range, FieldPannerConfig, FramingMode, ONE, ZERO,
};
use crate::rounding::{law_ratio_rounds, lemma_rung_ascends, Format};
use crate::single::F32;
use crate::world::{TrackedEntity, WorldState};
use vstd::arithmetic::power2::{lemma_pow2_pos, pow2};
use vstd::prelude::*;

verus! {

/// Deciding a frame leaves the parameters and the top speed as they are, and
/// once later frames have been known the quicker chase stays.
pub proof fn law_decided_keeps(p: FieldPanner, world: WorldState, future: Seq<WorldState>)
    ensures
        p.decided(world, future).config == p.config,
        p.decided(world, future).max_velocity == p.max_velocity,
        p.decided(world, future).lookahead_active == (p.lookahead_active || future.len() > 0),
        p.decided(world, future).frame_index == p.frame_index.wrapping_add(1),
{
}

/// With neither a cluster nor a ball to follow, the camera holds.
pub proof fn law_nothing_to_follow_holds(
    p: FieldPanner,
    world: WorldState,
    future: Seq<WorldState>,
)
    requires
        p.cluster_in(world, future.len() > 0) is None,
        p.followed_ball(world) is None,
    ensures
        p.decided(world, future).position() == p.position(),
        p.decided(world, future).last_debug is None,
{
}

/// The debug report is there exactly when the frame had a cluster.
pub proof fn law_debug_iff_cluster(p: FieldPanner, world: WorldState, future: Seq<WorldState>)
    ensures
        p.decided(world, future).last_debug is Some <==> p.cluster_in(
            world,
            future.len() > 0,
        ) is Some,
{
}

/// A frame is decided by its live players and its live ball alone.
pub proof fn law_only_the_live_count(
    p: FieldPanner,
    a: WorldState,
    b: WorldState,
    future: Seq<WorldState>,
)
    requires
        points_of(a.players@) == points_of(b.players@),
        a.live_ball() == b.live_ball(),
    ensures
        p.decided(a, future) == p.decided(b, future),
        p.decidable(a, future) == p.decidable(b, future),
        p.glance(a) == p.glance(b),
{
}

/// A lost player adds nothing: taking them out leaves the same points.
pub proof fn law_lost_player_adds_nothing(players: Seq<TrackedEntity>, i: int)
    requires
        0 <= i < players.len(),
        !players[i].live(),
    ensures
        points_of(players.remove(i)) == points_of(players),
    decreases players.len(),
{
    if i == players.len() - 1 {
        assert(players.remove(i) =~= players.drop_last());
    } else {
        law_lost_player_adds_nothing(players.drop_last(), i);
        assert(players.remove(i).drop_last() =~= players.drop_last().remove(i));
        assert(players.remove(i).last() == players.last());
    }
}

/// With the tilt locked, every target is at the locked pitch.
pub proof fn law_lock_pitch(p: FieldPanner, world: WorldState, future: Seq<WorldState>)
    requires
        p.config.lock_pitch,
    ensures
        p.aimed(world, future).1 matches Some(t) ==> t.1 == p.config.locked_pitch_rad,
{
}

/// When everyone is framed, the ball has no say in the aim.
pub proof fn law_frame_all_ignores_the_ball(p: FieldPanner, q: FieldPanner, c: Cluster)
    requires
        p.config.framing == FramingMode::FrameAll,
        q.config == p.config,
    ensures
        p.cluster_aim(c) == q.cluster_aim(c),
        p.cluster_aim(c) == (c.yaw, c.pitch, F32 { bits: ZERO }),
{
}

/// The field of view that is asked for lies within its bounds, unless it is
/// not a number, and then it is passed over.
pub proof fn law_fov_within_bounds(p: FieldPanner, spread: F32, pitch: F32, speed: F32)
    requires
        p.wf(),
    ensures
        ({
            let fov = p.wanted_fov(spread, pitch, speed);
            fov.nan() || (p.config.fov_tight.at_most(fov) && fov.at_most(p.config.fov_wide))
        }),
{
}

/// What is not finite stays so in sums and quotients.
proof fn lemma_non_finite(a: F32, b: F32)
    ensures
        !a.finite() ==> !a.plus(b).finite() && !b.plus(a).finite(),
        !a.finite() ==> !a.times(b).finite(),
        !a.finite() ==> !a.over(b).finite(),
{
    reveal(F32::plus);
    reveal(F32::times);
    reveal(F32::over);
}

proof fn lemma_added_non_finite(
    weighted: bool,
    points: Seq<Point>,
    column: Column,
    start: F32,
    i: int,
)
    requires
        0 <= i < points.len(),
        column == Column::Yaw || column == Column::Pitch,
        column == Column::Yaw ==> !points[i].0.finite(),
        column == Column::Pitch ==> !points[i].1.finite(),
    ensures
        !added(weighted, points, column, start).finite(),
    decreases points.len(),
{
    let rest = added(weighted, points.drop_last(), column, start);
    let s = share(weighted, points.last(), column);
    if i == points.len() - 1 {
        lemma_non_finite(points[i].0, weight(weighted, points[i]));
        lemma_non_finite(points[i].1, weight(weighted, points[i]));
        lemma_non_finite(s, rest);
    } else {
        lemma_added_non_finite(weighted, points.drop_last(), column, start, i);
        lemma_non_finite(rest, s);
    }
}

proof fn lemma_no_center(points: Seq<Point>, r_sq: F32, n: nat)
    requires
        n <= points.len(),
        forall|i: int| 0 <= i < points.len() ==> !placed(#[trigger] points[i]),
    ensures
        center_index(points, r_sq, n) is None,
    decreases n,
{
    if n > 0 {
        lemma_no_center(points, r_sq, (n - 1) as nat);
        assert(!placed(points[n - 1]));
    }
}

proof fn lemma_no_extremes(points: Seq<Point>)
    requires
        forall|i: int| 0 <= i < points.len() ==> !placed(#[trigger] points[i]),
    ensures
        box_of(points) is None,
        extremes(points).0 == (F32 { bits: INFINITE }),
    decreases points.len(),
{
    if points.len() > 0 {
        assert(!placed(points[points.len() - 1]));
        assert forall|i: int| 0 <= i < points.drop_last().len() implies !placed(
            #[trigger] points.drop_last()[i],
        ) by {
            assert(!placed(points[i]));
        }
        lemma_no_extremes(points.drop_last());
    }
}

/// Players whose angles are not finite form no cluster, in any mode, and do
/// not move the camera.
pub proof fn law_unplaced_players_move_nothing(
    p: FieldPanner,
    world: WorldState,
    future: Seq<WorldState>,
)
    requires
        p.config.min_cluster >= 1,
        forall|i: int|
            0 <= i < points_of(world.players@).len() ==> !placed(
                #[trigger] points_of(world.players@)[i],
            ),
        p.followed_ball(world) is None,
    ensures
        p.cluster_in(world, future.len() > 0) is None,
        p.decided(world, future).position() == p.position(),
{
    let points = points_of(world.players@);
    let c = p.config;
    lemma_no_center(points, radius_sq(c), points.len());
    lemma_no_extremes(points);
    if points.len() >= c.min_cluster {
        assert(!placed(points[0]));
        let none = F32 { bits: EMPTY_SUM };
        let w = c.confidence_weighted;
        let total = added(w, points, Column::Weight, none);
        if !points[0].0.finite() {
            lemma_added_non_finite(w, points, Column::Yaw, none, 0);
            lemma_non_finite(added(w, points, Column::Yaw, none), total);
        } else {
            lemma_added_non_finite(w, points, Column::Pitch, none, 0);
            lemma_non_finite(added(w, points, Column::Pitch, none), total);
        }
    }
    assert(core_of(c, points) =~= Seq::empty());
    law_nothing_to_follow_holds(p, world, future);
}

/// A target that is not finite does not move the camera.
pub proof fn law_non_finite_target_holds(p: FieldPanner, target: (F32, F32))
    requires
        !target.0.finite() || !target.1.finite(),
    ensures
        p.chased(Some(target)) == p,
{
}

/// A number that is not negative.
pub open spec fn non_negative(x: F32) -> bool {
    !x.nan() && x.place() >= 0
}

proof fn lemma_rounded_fits(n: int, d: int)
    requires
        d > 0,
    ensures
        0 <= rounded_ratio_single(n, d) <= 0x7F80_0000,
{
    law_ratio_rounds(Format::Single, n, d);
}

spec fn rounded_ratio_single(n: int, d: int) -> int {
    crate::rounding::rounded_ratio(Format::Single, n, d)
}

proof fn lemma_size_positive(x: Parts)
    requires
        0 < x.key,
    ensures
        x.size(Format::Single) > 0,
{
    lemma_rung_ascends(23, 0, x.key as int);
}

proof fn lemma_product_non_negative(a: F32, b: F32)
    requires
        non_negative(a),
        b.finite(),
        b.place() > 0,
    ensures
        non_negative(a.times(b)),
{
    reveal(F32::times);
    lemma_pow2_pos(149);
    lemma_rounded_fits(
        a.parts().size(Format::Single) * b.parts().size(Format::Single),
        pow2(149) as int,
    );
}

proof fn lemma_quotient_non_negative(a: F32, b: F32)
    requires
        non_negative(a),
        b.finite(),
        b.place() > 0,
    ensures
        non_negative(a.over(b)),
{
    reveal(F32::over);
    lemma_size_positive(b.parts());
    lemma_rounded_fits(
        a.parts().size(Format::Single) * pow2(149),
        b.parts().size(Format::Single),
    );
}

/// A panner whose top speed is not negative and whose parameters are in range
/// can decide any frame.
pub proof fn law_any_frame_decidable(p: FieldPanner, world: WorldState, future: Seq<WorldState>)
    requires
        in_range(p.config),
        non_negative(p.max_velocity),
    ensures
        p.decidable(world, future),
        non_negative(p.decided(world, future).max_velocity),
        in_range(p.decided(world, future).config),
{
    let (l, target) = p.aimed(world, future);
    assert(l.config == p.config && l.max_velocity == p.max_velocity);
    assert(l.reactivity().finite() && l.reactivity().place() > 0);
    lemma_product_non_negative(l.max_velocity, l.reactivity());
}

/// A new panner can decide any frame, whatever the frame rate and the other
/// parameters, as long as the top speed asked for is not negative.
pub proof fn law_new_panner_decides(fps: F32, config: FieldPannerConfig)
    requires
        non_negative(config.max_velocity_rad_per_sec),
        !fps.nan(),
    ensures
        in_range(new_panner(fps, config).config),
        non_negative(new_panner(fps, config).max_velocity),
{
    law_sanitized_in_range(config);
    lemma_quotient_non_negative(
        config.max_velocity_rad_per_sec,
        fps.clamped(F32 { bits: ONE }, F32 { bits: THOUSAND }),
    );
}

/// No distance is out of order: nobody stands before someone closer.
pub open spec fn ascending(points: Seq<Point>, yaw: F32, pitch: F32) -> bool {
    forall|i: int, j: int|
        0 <= i < j < points.len() ==> !distance_sq(#[trigger] points[j], yaw, pitch).below(
            distance_sq(#[trigger] points[i], yaw, pitch),
        )
}

/// Every player has a distance from the place.
pub open spec fn measurable(points: Seq<Point>, yaw: F32, pitch: F32) -> bool {
    forall|i: int|
        0 <= i < points.len() ==> !distance_sq(#[trigger] points[i], yaw, pitch).nan()
}

proof fn lemma_inserted(sorted: Seq<Point>, p: Point, yaw: F32, pitch: F32)
    requires
        ascending(sorted, yaw, pitch),
        measurable(sorted, yaw, pitch),
        !distance_sq(p, yaw, pitch).nan(),
    ensures
        ascending(inserted(sorted, p, yaw, pitch), yaw, pitch),
        measurable(inserted(sorted, p, yaw, pitch), yaw, pitch),
        inserted(sorted, p, yaw, pitch).to_multiset() == sorted.to_multiset().insert(p),
        inserted(sorted, p, yaw, pitch).len() == sorted.len() + 1,
        forall|x: Point|
            #[trigger] inserted(sorted, p, yaw, pitch).contains(x) ==> x == p || sorted.contains(x),
    decreases sorted.len(),
{
    broadcast use vstd::seq_lib::group_to_multiset_ensures;

    let d = distance_sq(p, yaw, pitch);
    let out = inserted(sorted, p, yaw, pitch);
    if sorted.len() > 0 && d.below(distance_sq(sorted.last(), yaw, pitch)) {
        let init = sorted.drop_last();
        let last = sorted.last();
        assert(sorted =~= init.push(last));
        assert forall|i: int, j: int| 0 <= i < j < init.len() implies !distance_sq(
            #[trigger] init[j],
            yaw,
            pitch,
        ).below(distance_sq(#[trigger] init[i], yaw, pitch)) by {
            assert(sorted[i] == init[i] && sorted[j] == init[j]);
        }
        lemma_inserted(init, p, yaw, pitch);
        let part = inserted(init, p, yaw, pitch);
        assert(out == part.push(last));
        assert forall|i: int, j: int| 0 <= i < j < out.len() implies !distance_sq(
            #[trigger] out[j],
            yaw,
            pitch,
        ).below(distance_sq(#[trigger] out[i], yaw, pitch)) by {
            if j == part.len() {
                assert(part.contains(part[i]));
                if part[i] != p {
                    let k = choose|k: int| 0 <= k < init.len() && init[k] == part[i];
                    assert(sorted[k] == part[i]);
                    assert(sorted[sorted.len() - 1] == last);
                }
            } else {
                assert(part[j] == out[j] && part[i] == out[i]);
            }
        }
        assert(sorted.to_multiset().insert(p) =~= init.to_multiset().insert(p).insert(last));
        assert forall|x: Point| #[trigger] out.contains(x) implies x == p || sorted.contains(x) by {
            let k = choose|k: int| 0 <= k < out.len() && out[k] == x;
            if k < part.len() {
                assert(part.contains(part[k]));
                if x != p {
                    let m = choose|m: int| 0 <= m < init.len() && init[m] == x;
                    assert(sorted[m] == x);
                }
            } else {
                assert(sorted[sorted.len() - 1] == x);
            }
        }
        assert forall|i: int| 0 <= i < out.len() implies !distance_sq(
            #[trigger] out[i],
            yaw,
            pitch,
        ).nan() by {
            if i < part.len() {
                assert(part[i] == out[i]);
            } else {
                assert(sorted[sorted.len() - 1] == out[i]);
            }
        }
    } else {
        assert(out == sorted.push(p));
        assert forall|i: int, j: int| 0 <= i < j < out.len() implies !distance_sq(
            #[trigger] out[j],
            yaw,
            pitch,
        ).below(distance_sq(#[trigger] out[i], yaw, pitch)) by {
            if j == sorted.len() {
                assert(out[i] == sorted[i]);
                if i < sorted.len() - 1 {
                    assert(!distance_sq(sorted[sorted.len() - 1], yaw, pitch).below(
                        distance_sq(sorted[i], yaw, pitch),
                    ));
                }
            }
        }
        assert forall|x: Point| #[trigger] out.contains(x) implies x == p || sorted.contains(x) by {
            let k = choose|k: int| 0 <= k < out.len() && out[k] == x;
            if k < sorted.len() {
                assert(sorted[k] == x);
            }
        }
    }
}

/// Ordering by distance keeps every player and leaves nobody before someone
/// closer.
pub proof fn law_by_distance_orders(points: Seq<Point>, yaw: F32, pitch: F32)
    requires
        measurable(points, yaw, pitch),
    ensures
        ascending(by_distance(points, yaw, pitch), yaw, pitch),
        measurable(by_distance(points, yaw, pitch), yaw, pitch),
        by_distance(points, yaw, pitch).to_multiset() == points.to_multiset(),
        by_distance(points, yaw, pitch).len() == points.len(),
    decreases points.len(),
{
    broadcast use vstd::seq_lib::group_to_multiset_ensures;

    if points.len() > 0 {
        let init = points.drop_last();
        assert forall|i: int| 0 <= i < init.len() implies !distance_sq(
            #[trigger] init[i],
            yaw,
            pitch,
        ).nan() by {
            assert(points[i] == init[i]);
        }
        law_by_distance_orders(init, yaw, pitch);
        assert(points[points.len() - 1] == points.last());
        lemma_inserted(by_distance(init, yaw, pitch), points.last(), yaw, pitch);
        assert(points =~= init.push(points.last()));
    } else {
        assert(by_distance(points, yaw, pitch) =~= points);
    }
}

/// The densest group is the one around a player who has the most neighbours
/// of all whose angles are finite, the last of those who have as many.
pub proof fn law_center_is_densest(points: Seq<Point>, r_sq: F32, n: nat)
    requires
        n <= points.len(),
    ensures
        match center_index(points, r_sq, n) {
            None => forall|i: int| 0 <= i < n ==> !placed(#[trigger] points[i]),
            Some(c) => {
                &&& 0 <= c < n
                &&& placed(points[c])
                &&& forall|i: int|
                    0 <= i < n && placed(#[trigger] points[i]) ==> neighbours(
                        points,
                        points[i],
                        r_sq,
                    ).len() <= neighbours(points, points[c], r_sq).len()
                &&& forall|i: int|
                    c < i < n && placed(#[trigger] points[i]) ==> neighbours(
                        points,
                        points[i],
                        r_sq,
                    ).len() < neighbours(points, points[c], r_sq).len()
            },
        },
    decreases n,
{
    if n > 0 {
        law_center_is_densest(points, r_sq, (n - 1) as nat);
    }
}

} // verus!
