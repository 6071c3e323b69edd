//! Whom the camera follows: the live players, the group among them, and where
//! that group is.
use crate::algebra::{lemma_nothing, lemma_spread_out, lemma_swap, lemma_three};
use crate::cluster::{
    added, core_of, distance_sq, mean, neighbours, points_of, share, weight, Column, Point,
};
use crate::field_panner::{reach, FieldPanner};
use crate::follow_laws::{fraction, law_eased_part_of_the_way};
use crate::near_laws::{lemma_last_place, lemma_nigh_plus, lemma_notch, lemma_relative, nigh, notch};
use crate::panner_config::{FramingMode, ZERO};
use crate::radius_laws::{lemma_scaled, lemma_size_times, lemma_square, lemma_unscaled};
use crate::real_laws::size;
use crate::real_single_laws::{
    lemma_minus, lemma_over, lemma_plus, lemma_speck, lemma_times, lemma_val, lemma_val_ordered,
    val,
};
use crate::round_trip_laws::lemma_quotient;
use crate::single::F32;
use crate::value_laws::lemma_small_constants;
use crate::world::{TrackState, TrackedEntity, WorldState};
use vstd::prelude::*;

verus! {

/// Whether a player is still seen.
pub open spec fn still_seen() -> spec_fn(TrackedEntity) -> bool {
    |p: TrackedEntity| p.state == TrackState::Tracking
}

/// Where a player is, and how sure the tracker is of it.
pub open spec fn whereabouts() -> spec_fn(TrackedEntity) -> Point {
    |p: TrackedEntity| (p.yaw, p.pitch, p.confidence)
}

/// The points are those of the players who are still seen, all of them and in
/// order, each with its own angles and confidence.
pub proof fn law_points_are_the_live_players(players: Seq<TrackedEntity>)
    ensures
        points_of(players) == players.filter(still_seen()).map_values(whereabouts()),
    decreases players.len(),
{
    reveal(Seq::filter);
    let all = players.filter(still_seen()).map_values(whereabouts());
    if players.len() > 0 {
        law_points_are_the_live_players(players.drop_last());
        let rest = players.drop_last().filter(still_seen());
        assert(points_of(players) =~= all);
    } else {
        assert(points_of(players) =~= all);
    }
}

/// The neighbours of a player are all those within the radius, in order.
pub proof fn law_neighbours_are_within_the_radius(points: Seq<Point>, center: Point, r_sq: F32)
    ensures
        neighbours(points, center, r_sq) == points.filter(
            |p: Point| distance_sq(center, p.0, p.1).at_most(r_sq),
        ),
    decreases points.len(),
{
    reveal(Seq::filter);
    if points.len() > 0 {
        law_neighbours_are_within_the_radius(points.drop_last(), center, r_sq);
    }
}

/// The square of the distance between two places is the sum of the squares of
/// their offsets in yaw and in pitch.
pub proof fn law_distance_is_euclidean(p: Point, yaw: F32, pitch: F32)
    requires
        p.0.finite() && p.1.finite() && yaw.finite() && pitch.finite(),
        size(val(p.0)) <= 2 as real && size(val(p.1)) <= 2 as real,
        size(val(yaw)) <= 2 as real && size(val(pitch)) <= 2 as real,
    ensures
        ({
            let (dy, dp) = (val(p.0) - val(yaw), val(p.1) - val(pitch));
            nigh(distance_sq(p, yaw, pitch), dy * dy + dp * dp, 24 as real * notch())
        }),
{
    let (dy, dp) = (val(p.0) - val(yaw), val(p.1) - val(pitch));
    let (a, b) = (p.0.minus(yaw), p.1.minus(pitch));
    lemma_offset_squared(p.0, yaw);
    lemma_offset_squared(p.1, pitch);
    lemma_nigh_plus(
        a.times(a),
        dy * dy,
        11 as real * notch(),
        b.times(b),
        dp * dp,
        11 as real * notch(),
    );
}

/// The square of an offset.
proof fn lemma_offset_squared(x: F32, y: F32)
    requires
        x.finite() && y.finite(),
        size(val(x)) <= 2 as real && size(val(y)) <= 2 as real,
    ensures
        ({
            let (a, d) = (x.minus(y), val(x) - val(y));
            nigh(a.times(a), d * d, 11 as real * notch()) && 0 as real <= d * d <= 16 as real
        }),
{
    let (a, d) = (x.minus(y), val(x) - val(y));
    lemma_minus(x, y);
    lemma_notch(val(a), d);
    let e = val(a);
    lemma_spread_out(e, d, e);
    lemma_spread_out(e, d, d);
    assert(e * e - d * d == (e - d) * e + d * (e - d));
    lemma_size_times(e - d, e);
    lemma_size_times(d, e - d);
    lemma_scaled(size(e - d), notch(), size(e));
    lemma_scaled(size(e), 5 as real, notch());
    lemma_scaled(size(e - d), notch(), size(d));
    lemma_scaled(size(d), 4 as real, notch());
    lemma_square(d);
    lemma_scaled(size(d), 4 as real, size(d));
    lemma_times(a, a);
    lemma_notch(val(a.times(a)), e * e);
}

/// In the Action framing a group is followed, however many players there are:
/// whenever it is not empty the frame has a cluster that counts all of it, at
/// the smoothed centroid, and the camera has a target; and without a group there
/// is no cluster.
pub proof fn law_group_is_followed(p: FieldPanner, world: WorldState, future: Seq<WorldState>)
    requires
        p.config.framing == FramingMode::Action,
    ensures
        ({
            let seen = world.players@.filter(still_seen()).map_values(whereabouts());
            let core = core_of(p.config, seen);
            let cluster = p.cluster_in(world, future.len() > 0);
            let after = p.decided(world, future);
            &&& core.len() > 0 <==> cluster is Some
            &&& core.len() > 0 ==> {
                &&& cluster->0.count == core.len() as usize
                &&& cluster->0.spread == reach(core, after.ema_yaw, after.ema_pitch)
                &&& cluster->0.yaw == after.ema_yaw && cluster->0.pitch == after.ema_pitch
                &&& p.aimed(world, future).1 is Some
                &&& after.last_debug is Some
                &&& after.last_debug->0.cluster_yaw == after.ema_yaw
                &&& after.last_debug->0.cluster_pitch == after.ema_pitch
                &&& after.last_debug->0.n_players == (core.len() as usize) as u32
            }
            &&& core.len() == 0 ==> after.ema_yaw == p.ema_yaw && after.ema_pitch == p.ema_pitch
        }),
{
    law_points_are_the_live_players(world.players@);
}

/// The centroid of the group: at first the mean of the group itself, and from
/// then on the given fraction of the way from where it was to that mean.
pub proof fn law_centroid_eases_to_the_mean(
    p: FieldPanner,
    world: WorldState,
    future: Seq<WorldState>,
    m: (F32, F32),
)
    requires
        p.config.framing == FramingMode::Action,
        ({
            let seen = world.players@.filter(still_seen()).map_values(whereabouts());
            let core = core_of(p.config, seen);
            core.len() > 0 && mean(p.config.confidence_weighted, core, F32 { bits: ZERO }) == Some(
                m,
            )
        }),
        m.0.finite() && m.1.finite() && p.ema_yaw.finite() && p.ema_pitch.finite(),
        size(val(m.0)) <= 8 as real && size(val(m.1)) <= 8 as real,
        size(val(p.ema_yaw)) <= 8 as real && size(val(p.ema_pitch)) <= 8 as real,
        fraction(p.config.cluster_alpha),
    ensures
        ({
            let after = p.decided(world, future);
            let a = val(p.config.cluster_alpha);
            &&& after.ema_initialized
            &&& !p.ema_initialized ==> after.ema_yaw == m.0 && after.ema_pitch == m.1
            &&& p.ema_initialized ==> nigh(
                after.ema_yaw,
                val(p.ema_yaw) + a * (val(m.0) - val(p.ema_yaw)),
                3 as real * notch(),
            )
            &&& p.ema_initialized ==> nigh(
                after.ema_pitch,
                val(p.ema_pitch) + a * (val(m.1) - val(p.ema_pitch)),
                3 as real * notch(),
            )
        }),
{
    law_points_are_the_live_players(world.players@);
    law_eased_part_of_the_way(p.ema_yaw, m.0, p.config.cluster_alpha);
    law_eased_part_of_the_way(p.ema_pitch, m.1, p.config.cluster_alpha);
}

/// The spread of a group reaches every player of it, and one of them exactly.
pub proof fn law_spread_reaches_everyone(core: Seq<Point>, yaw: F32, pitch: F32)
    requires
        forall|i: int|
            0 <= i < core.len() ==> !distance_sq(#[trigger] core[i], yaw, pitch).root().nan()
                && distance_sq(core[i], yaw, pitch).root().place() >= 0,
    ensures
        !reach(core, yaw, pitch).nan(),
        reach(core, yaw, pitch).place() >= 0,
        forall|i: int|
            0 <= i < core.len() ==> distance_sq(#[trigger] core[i], yaw, pitch).root().at_most(
                reach(core, yaw, pitch),
            ),
        core.len() > 0 ==> exists|i: int|
            0 <= i < core.len() && distance_sq(#[trigger] core[i], yaw, pitch).root().same(
                reach(core, yaw, pitch),
            ),
    decreases core.len(),
{
    if core.len() > 0 {
        let rest = core.drop_last();
        assert forall|i: int| 0 <= i < rest.len() implies !distance_sq(
            #[trigger] rest[i],
            yaw,
            pitch,
        ).root().nan() && distance_sq(rest[i], yaw, pitch).root().place() >= 0 by {
            assert(rest[i] == core[i]);
        }
        law_spread_reaches_everyone(rest, yaw, pitch);
        let last = core[core.len() - 1];
        let d = distance_sq(last, yaw, pitch).root();
        assert forall|i: int| 0 <= i < core.len() implies distance_sq(
            #[trigger] core[i],
            yaw,
            pitch,
        ).root().at_most(reach(core, yaw, pitch)) by {
            if i < rest.len() {
                assert(rest[i] == core[i]);
            }
        }
        if rest.len() > 0 {
            let j = choose|j: int|
                0 <= j < rest.len() && distance_sq(#[trigger] rest[j], yaw, pitch).root().same(
                    reach(rest, yaw, pitch),
                );
            assert(core[j] == rest[j]);
        }
        assert(core.last() == last);
    }
}

/// What one player weighs in a mean: their confidence, or all the same.
pub open spec fn weighs(weighted: bool, p: Point) -> real {
    if weighted {
        val(p.2)
    } else {
        1 as real
    }
}

/// What one player adds to a column.
pub open spec fn adds(weighted: bool, p: Point, column: Column) -> real {
    match column {
        Column::Yaw => val(p.0) * weighs(weighted, p),
        Column::Pitch => val(p.1) * weighs(weighted, p),
        Column::Weight => weighs(weighted, p),
    }
}

/// The sum of a column.
pub open spec fn tally(weighted: bool, points: Seq<Point>, column: Column) -> real
    decreases points.len(),
{
    if points.len() == 0 {
        0 as real
    } else {
        tally(weighted, points.drop_last(), column) + adds(weighted, points.last(), column)
    }
}

/// A player at ordinary angles, of a weight that is worth mentioning.
pub open spec fn ordinary_player(weighted: bool, p: Point) -> bool {
    &&& p.0.finite() && p.1.finite()
    &&& size(val(p.0)) <= 8 as real && size(val(p.1)) <= 8 as real
    &&& weighted ==> p.2.finite()
    &&& 1 as real <= 64 as real * weighs(weighted, p) && weighs(weighted, p) <= 1 as real
}

/// All of them are.
pub open spec fn ordinary_players(weighted: bool, points: Seq<Point>) -> bool {
    points.len() <= 1024 && forall|i: int|
        0 <= i < points.len() ==> ordinary_player(weighted, #[trigger] points[i])
}

/// Twice the sum of the whole numbers up to `n`.
pub open spec fn stairs(n: nat) -> real {
    (n * (n + 1)) as real
}

/// Two to the power -18.
pub open spec fn step() -> real {
    1 as real / 0x4_0000 as real
}

/// More than what is lost to rounding when `n` numbers are added.
pub open spec fn loss(n: nat) -> real {
    stairs(n) / 0x4_0000 as real
}

/// How the stairs grow.
proof fn lemma_stairs(n: nat)
    requires
        n <= 1024,
    ensures
        stairs(n + 1) == stairs(n) + 2 as real * (n + 1) as real,
        stairs(n) <= 1025 as real * n as real,
        0 as real <= stairs(n),
        n >= 1 ==> stairs(n) >= 2 as real * n as real,
        stairs(n) >= n as real,
{
    assert((n + 1) * (n + 1 + 1) == n * (n + 1) + 2 * (n + 1)) by (nonlinear_arith);
    assert(n * (n + 1) <= 1025 * n) by (nonlinear_arith)
        requires
            n <= 1024,
    ;
    assert(n >= 1 ==> n * (n + 1) >= 2 * n) by (nonlinear_arith);
}

/// What one player adds, as it is computed.
proof fn lemma_share_real(weighted: bool, p: Point, column: Column)
    requires
        ordinary_player(weighted, p),
    ensures
        ({
            let s = share(weighted, p, column);
            let e = adds(weighted, p, column);
            &&& s.finite()
            &&& size(e) <= 8 as real
            &&& size(val(s) - e) <= step()
        }),
{
    lemma_speck();
    lemma_small_constants();
    let w = weight(weighted, p);
    let x = match column {
        Column::Yaw => p.0,
        _ => p.1,
    };
    lemma_size_times(val(x), val(w));
    lemma_scaled(size(val(x)), 8 as real, val(w));
    lemma_times(x, w);
    lemma_relative(val(x.times(w)), val(x) * val(w));
    lemma_last_place(size(val(x) * val(w)));
}

/// The sum of a column is close to the exact one.
proof fn lemma_added_real(weighted: bool, points: Seq<Point>, column: Column, start: F32)
    requires
        ordinary_players(weighted, points),
        start.finite(),
        val(start) == 0 as real,
    ensures
        ({
            let s = added(weighted, points, column, start);
            let t = tally(weighted, points, column);
            &&& s.finite()
            &&& size(t) <= 8 as real * points.len() as real
            &&& size(val(s) - t) <= loss(points.len())
        }),
    decreases points.len(),
{
    lemma_speck();
    if points.len() > 0 {
        let rest = points.drop_last();
        let n = rest.len();
        assert forall|i: int| 0 <= i < rest.len() implies ordinary_player(
            weighted,
            #[trigger] rest[i],
        ) by {
            assert(rest[i] == points[i]);
        }
        lemma_added_real(weighted, rest, column, start);
        assert(ordinary_player(weighted, points[points.len() - 1]));
        lemma_share_real(weighted, points.last(), column);
        lemma_stairs(n);
        let (a, b) = (
            added(weighted, rest, column, start),
            share(weighted, points.last(), column),
        );
        let x = val(a) + val(b);
        assert(loss(n) <= 5 as real);
        assert(size(x) <= 8 as real * n as real + 14 as real);
        lemma_plus(a, b);
        lemma_relative(val(a.plus(b)), x);
        lemma_last_place(size(x));
    } else {
        assert(stairs(0) == 0 as real) by {
            assert(0nat * (0nat + 1) == 0) by (nonlinear_arith);
        }
    }
}

/// The weights of a group, and what they bound.
proof fn lemma_weights(weighted: bool, points: Seq<Point>, column: Column)
    requires
        ordinary_players(weighted, points),
        column != Column::Weight,
    ensures
        points.len() as real <= 64 as real * tally(weighted, points, Column::Weight),
        tally(weighted, points, Column::Weight) <= points.len() as real,
        size(tally(weighted, points, column)) <= 8 as real * tally(
            weighted,
            points,
            Column::Weight,
        ),
    decreases points.len(),
{
    if points.len() > 0 {
        let rest = points.drop_last();
        assert forall|i: int| 0 <= i < rest.len() implies ordinary_player(
            weighted,
            #[trigger] rest[i],
        ) by {
            assert(rest[i] == points[i]);
        }
        lemma_weights(weighted, rest, column);
        let p = points[points.len() - 1];
        assert(p == points.last());
        assert(ordinary_player(weighted, p));
        let w = weighs(weighted, p);
        lemma_size_times(val(p.0), w);
        lemma_size_times(val(p.1), w);
        lemma_scaled(size(val(p.0)), 8 as real, w);
        lemma_scaled(size(val(p.1)), 8 as real, w);
    }
}

/// One side of a mean, as a quotient of sums that are close to the exact ones.
proof fn lemma_mean_side(a: F32, b: F32, p: real, w: real, n: nat)
    requires
        1 <= n <= 1024,
        a.finite(),
        b.finite(),
        size(val(a) - p) <= loss(n),
        size(val(b) - w) <= loss(n),
        size(p) <= 8 as real * w,
        n as real <= 64 as real * w,
        w <= n as real,
    ensures
        val(b) > 0 as real,
        a.over(b).finite(),
        size(val(a.over(b)) * w - p) <= 19 as real * loss(n),
{
    lemma_stairs(n);
    let (x, y, e) = (val(a), val(b), loss(n));
    assert(e <= w / 2 as real);
    assert(y >= w / 2 as real && size(x) <= 16 as real * y + y);
    let t = x / y;
    lemma_quotient(x, y);
    lemma_size_times(t, y);
    lemma_unscaled(size(t), 17 as real, y);
    lemma_over(a, b);
    let m = val(a.over(b));
    lemma_notch(m, t);
    lemma_spread_out(m, t, w);
    lemma_spread_out(w, y, t);
    lemma_size_times(m - t, w);
    lemma_size_times(t, w - y);
    lemma_scaled(size(m - t), notch(), w);
    lemma_scaled(w, n as real, notch());
    lemma_swap(n as real, notch());
    lemma_three(n as real, notch(), 0x2_0000 as real);
    lemma_nothing(n as real);
    assert(notch() * 0x2_0000 as real == 1 as real);
    lemma_scaled(size(t), 17 as real, size(w - y));
    assert(m * w - p == (m - t) * w + t * (w - y) + (x - p));
}

/// The mean of a group is its weighted mean: times the sum of the weights it is
/// the weighted sum of the angles, on both axes.
pub proof fn law_mean_is_weighted(weighted: bool, points: Seq<Point>, start: F32)
    requires
        0 < points.len(),
        ordinary_players(weighted, points),
        start.finite(),
        val(start) == 0 as real,
    ensures
        ({
            let m = mean(weighted, points, start);
            let w = tally(weighted, points, Column::Weight);
            let off = 19 as real * loss(points.len());
            &&& m is Some
            &&& (m->0).0.finite() && (m->0).1.finite()
            &&& size(val((m->0).0) * w - tally(weighted, points, Column::Yaw)) <= off
            &&& size(val((m->0).1) * w - tally(weighted, points, Column::Pitch)) <= off
        }),
{
    let n = points.len();
    lemma_added_real(weighted, points, Column::Yaw, start);
    lemma_added_real(weighted, points, Column::Pitch, start);
    lemma_added_real(weighted, points, Column::Weight, start);
    lemma_weights(weighted, points, Column::Yaw);
    lemma_weights(weighted, points, Column::Pitch);
    let w = tally(weighted, points, Column::Weight);
    let b = added(weighted, points, Column::Weight, start);
    lemma_mean_side(
        added(weighted, points, Column::Yaw, start),
        b,
        tally(weighted, points, Column::Yaw),
        w,
        n,
    );
    lemma_mean_side(
        added(weighted, points, Column::Pitch, start),
        b,
        tally(weighted, points, Column::Pitch),
        w,
        n,
    );
    let zero = F32 { bits: ZERO };
    lemma_val(zero);
    lemma_val_ordered(b, zero);
}

} // verus!
