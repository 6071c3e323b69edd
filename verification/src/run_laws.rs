//! What holds of the field panner over any run of frames.
use crate::chase_laws::{
    lemma_chase_steady, lemma_limit_ordinary, lemma_rest, lemma_wider, steady,
};
use crate::cluster::{
    added, box_of, core_of, extremes, mean, points_of, Column, Point, EMPTY_SUM, HALF,
};
use crate::cluster_laws::law_group_is_of_players;
use crate::field_panner::{eased, foreseen, new_panner, Cluster, FieldPanner, THOUSAND};
use crate::mean_laws::{fair, lemma_mean_within};
use crate::panner_config::{
    action_config, basketball_config, broadcast_config, default_config, frame_all_config,
    in_range, law_sanitized_in_range, sanitized_config, FieldPannerConfig, FramingMode, ONE, ZERO,
};
use crate::panner_laws::{law_decided_keeps, law_fov_within_bounds, law_lock_pitch};
use crate::rounding::{
    law_ratio_rounds, law_rounding_keeps_order, lemma_rung_ascends, lemma_rung_zero, Format,
};
use crate::single::F32;
use crate::size_laws::{
    lemma_doubles, lemma_eased_between, lemma_eased_within, lemma_not_finite, lemma_one,
    lemma_power_rung, lemma_product_within, lemma_stuck, lemma_sum_within, lemma_within_value,
    power_key, share_of_one, within,
};
use crate::speed_laws::{
    errors_are_numbers, keeps_to_limit, kept, law_new_panner_keeps_to_limit,
    law_speed_keeps_to_limit, lemma_sizes_ordered, lemma_sum_close, magnitude, value,
};
use crate::world::{TrackedEntity, WorldState};
use vstd::arithmetic::power2::{
    lemma2_to64, lemma_pow2_adds, lemma_pow2_pos, lemma_pow2_strictly_increases, pow2,
};
use vstd::prelude::*;

verus! {

/// A tracked thing whose angles are at most sixteen, if they are finite, and
/// whose confidence is from zero to one.
pub open spec fn fair_entity(e: TrackedEntity) -> bool {
    fair((e.yaw, e.pitch, e.confidence))
}

/// Everything tracked in a frame is fair.
pub open spec fn fair_world(w: WorldState) -> bool {
    &&& forall|i: int| 0 <= i < w.players@.len() ==> fair_entity(#[trigger] w.players@[i])
    &&& w.ball matches Some(b) ==> fair_entity(b)
}

/// A frame, and the later ones that are known already.
pub type Frame = (WorldState, Seq<WorldState>);

/// Everything tracked in a frame, and in those known already, is fair.
pub open spec fn fair_frame(f: Frame) -> bool {
    &&& fair_world(f.0)
    &&& forall|i: int| 0 <= i < f.1.len() ==> fair_world(#[trigger] f.1[i])
}

/// The parameters that push the aim are at most about a thousand.
pub open spec fn moderate(c: FieldPannerConfig) -> bool {
    &&& within(c.edge_push, 10)
    &&& within(c.pitch_bias, 10)
    &&& within(c.locked_pitch_rad, 10)
    &&& within(c.lead_gain, 10)
}

/// What a panner remembers of players and ball is of ordinary size, as far as it
/// is finite.
pub open spec fn calm(p: FieldPanner) -> bool {
    &&& steady(p)
    &&& moderate(p.config)
    &&& within(p.ema_yaw, 6)
    &&& within(p.ema_pitch, 6)
    &&& within(p.last_ball_yaw, 4)
    &&& within(p.last_ball_pitch, 4)
    &&& within(p.ball_presence, 0)
    &&& within(p.lead_yaw, 53)
    &&& within(p.lead_pitch, 53)
}

/// The live among fair players are fair.
proof fn lemma_points_fair(players: Seq<TrackedEntity>)
    requires
        forall|i: int| 0 <= i < players.len() ==> fair_entity(#[trigger] players[i]),
    ensures
        forall|i: int| 0 <= i < points_of(players).len() ==> fair(#[trigger] points_of(players)[i]),
    decreases players.len(),
{
    if players.len() > 0 {
        let rest = players.drop_last();
        assert forall|i: int| 0 <= i < rest.len() implies fair_entity(#[trigger] rest[i]) by {
            assert(rest[i] == players[i]);
        }
        lemma_points_fair(rest);
        assert(fair_entity(players[players.len() - 1]));
        let (before, points) = (points_of(rest), points_of(players));
        assert forall|i: int| 0 <= i < points.len() implies fair(#[trigger] points[i]) by {
            if i < before.len() {
                assert(points[i] == before[i]);
            }
        }
    }
}

/// The group among fair players is fair.
proof fn lemma_core_fair(c: FieldPannerConfig, points: Seq<Point>)
    requires
        forall|i: int| 0 <= i < points.len() ==> fair(#[trigger] points[i]),
    ensures
        forall|i: int| 0 <= i < core_of(c, points).len() ==> fair(#[trigger] core_of(c, points)[i]),
{
    law_group_is_of_players(c, points);
    let core = core_of(c, points);
    assert forall|i: int| 0 <= i < core.len() implies fair(#[trigger] core[i]) by {
        assert(points.contains(core[i]));
    }
}

/// The extremes of fair players are at most sixteen.
proof fn lemma_extremes_within(points: Seq<Point>)
    requires
        forall|i: int| 0 <= i < points.len() ==> fair(#[trigger] points[i]),
    ensures
        ({
            let e = extremes(points);
            within(e.0, 4) && within(e.1, 4) && within(e.2, 4) && within(e.3, 4)
        }),
    decreases points.len(),
{
    if points.len() > 0 {
        let rest = points.drop_last();
        assert forall|i: int| 0 <= i < rest.len() implies fair(#[trigger] rest[i]) by {
            assert(rest[i] == points[i]);
        }
        lemma_extremes_within(rest);
        assert(fair(points[points.len() - 1]));
    }
}

/// The middle of the box around fair players is at most sixteen.
proof fn lemma_box_within(points: Seq<Point>)
    requires
        forall|i: int| 0 <= i < points.len() ==> fair(#[trigger] points[i]),
    ensures
        box_of(points) matches Some(b) ==> within(b.0, 4) && within(b.1, 4),
{
    lemma_extremes_within(points);
    let e = extremes(points);
    let half = F32 { bits: HALF };
    assert(within(half, -1));
    lemma_sum_within(e.0, e.1, 4);
    lemma_sum_within(e.2, e.3, 4);
    lemma_product_within(half, e.0.plus(e.1), -1, 5);
    lemma_product_within(half, e.2.plus(e.3), -1, 5);
}

/// Parameters that are a share of one are so as numbers.
proof fn lemma_share_number(a: F32)
    requires
        a.finite(),
        !a.parts().neg || a.parts().key == 0,
        a.parts().key <= ONE,
    ensures
        share_of_one(a),
{
    lemma_one();
    lemma_within_value(a, 0);
    lemma_rung_zero(23);
}

/// A centroid that is drawn to a fair place stays of ordinary size.
proof fn lemma_drawn_within(p: FieldPanner, yaw: F32, pitch: F32)
    requires
        in_range(p.config),
        within(p.ema_yaw, 6),
        within(p.ema_pitch, 6),
        within(yaw, 4),
        within(pitch, 4),
    ensures
        within(p.drawn_to(yaw, pitch).ema_yaw, 6),
        within(p.drawn_to(yaw, pitch).ema_pitch, 6),
{
    let alpha = p.config.cluster_alpha;
    if alpha.finite() {
        lemma_share_number(alpha);
    }
    lemma_eased_within(p.ema_yaw, yaw, alpha, 6);
    lemma_eased_within(p.ema_pitch, pitch, alpha, 6);
}

/// Clustering fair players keeps the centroid of ordinary size, and touches
/// nothing else.
proof fn lemma_clustered(p: FieldPanner, players: Seq<TrackedEntity>)
    requires
        in_range(p.config),
        within(p.ema_yaw, 6),
        within(p.ema_pitch, 6),
        forall|i: int| 0 <= i < players.len() ==> fair_entity(#[trigger] players[i]),
    ensures
        ({
            let (c, s) = p.clustered(players);
            &&& s == (FieldPanner {
                ema_yaw: s.ema_yaw,
                ema_pitch: s.ema_pitch,
                ema_initialized: s.ema_initialized,
                ..p
            })
            &&& within(s.ema_yaw, 6) && within(s.ema_pitch, 6)
            &&& c matches Some(k) ==> within(k.yaw, 6) && within(k.pitch, 6)
        }),
{
    lemma_points_fair(players);
    let points = points_of(players);
    match p.config.framing {
        FramingMode::Action => {
            let core = core_of(p.config, points);
            lemma_core_fair(p.config, points);
            let zero = F32 { bits: ZERO };
            lemma_mean_within(p.config.confidence_weighted, core, zero);
            if let Some(m) = mean(p.config.confidence_weighted, core, zero) {
                lemma_drawn_within(p, m.0, m.1);
            }
        },
        FramingMode::FrameAll => {
            lemma_box_within(points);
            if let Some(b) = box_of(points) {
                lemma_drawn_within(p, b.0, b.1);
            }
        },
    }
}

/// One and a push.
proof fn lemma_push(c: FieldPannerConfig)
    requires
        moderate(c),
    ensures
        within(F32 { bits: ONE }.plus(c.edge_push), 11),
{
    let one = F32 { bits: ONE };
    assert(within(one, 10));
    lemma_sum_within(one, c.edge_push, 10);
}

/// Where a frame draws the eye is of ordinary size.
proof fn lemma_glance(p: FieldPanner, world: WorldState)
    requires
        moderate(p.config),
        fair_world(world),
    ensures
        p.glance(world) matches Some(t) ==> within(t.0, 15) && within(t.1, 15),
{
    lemma_points_fair(world.players@);
    let points = points_of(world.players@);
    lemma_core_fair(p.config, points);
    let core = core_of(p.config, points);
    let none = F32 { bits: EMPTY_SUM };
    let w = p.config.confidence_weighted;
    lemma_mean_within(w, core, none);
    lemma_box_within(points);
    lemma_push(p.config);
    let total = added(w, core, Column::Weight, none);
    let yaw = added(w, core, Column::Yaw, none).over(total);
    let pitch = added(w, core, Column::Pitch, none).over(total);
    lemma_product_within(yaw, F32 { bits: ONE }.plus(p.config.edge_push), 4, 11);
    lemma_sum_within(pitch, p.config.pitch_bias, 10);
}

/// The sums of what later frames show are of ordinary size.
proof fn lemma_foreseen(p: FieldPanner, future: Seq<WorldState>)
    requires
        moderate(p.config),
        forall|i: int| 0 <= i < future.len() ==> fair_world(#[trigger] future[i]),
    ensures
        within(foreseen(p, future).1, 40),
        within(foreseen(p, future).2, 40),
    decreases future.len(),
{
    if future.len() > 0 {
        let rest = future.drop_last();
        assert forall|i: int| 0 <= i < rest.len() implies fair_world(#[trigger] rest[i]) by {
            assert(rest[i] == future[i]);
        }
        lemma_foreseen(p, rest);
        assert(fair_world(future[future.len() - 1]));
        lemma_glance(p, future.last());
        if let Some(t) = p.glance(future.last()) {
            let f = foreseen(p, rest);
            lemma_added_to(f.1, t.0);
            lemma_added_to(f.2, t.1);
        }
    }
}

/// Sums of glances stay within their bound, however many are added.
proof fn lemma_added_to(s: F32, t: F32)
    requires
        within(s, 40),
        within(t, 15),
    ensures
        within(s.plus(t), 40),
{
    lemma_not_finite(s, t);
    lemma_not_finite(t, s);
    if s.finite() && t.finite() {
        lemma_stuck(s, t, 40);
    }
}

/// A number divided by one of at least one is no larger, and on its side.
proof fn lemma_over_large(x: F32, d: F32, e: int)
    requires
        within(x, e),
        -126 <= e <= 127,
        !d.nan(),
        !d.parts().neg,
        d.parts().key >= power_key(0),
    ensures
        within(x.over(d), e),
        x.finite() && d.finite() ==> x.over(d).finite() && x.over(d).parts().neg == x.parts().neg,
{
    reveal(F32::over);
    lemma_not_finite(x, d);
    lemma_power_rung(0);
    lemma_power_rung(e);
    lemma_rung_zero(23);
    lemma_pow2_pos(149);
    if x.finite() && d.finite() {
        lemma_within_value(x, e);
        let k = d.parts().key as int;
        if k > power_key(0) {
            lemma_rung_ascends(23, power_key(0), k);
        }
        let (a, b) = (x.parts().size(Format::Single), d.parts().size(Format::Single));
        let (u, p) = (pow2(149) as int, pow2((149 + e) as nat) as int);
        assert(0 <= a * u <= p * b) by (nonlinear_arith)
            requires
                0 <= a <= p,
                u <= b,
                u > 0,
        ;
        law_ratio_rounds(Format::Single, a * u, b);
        law_rounding_keeps_order(Format::Single, a * u, b, power_key(e));
    }
}

/// A number divided by a count is no larger.
proof fn lemma_over_count(x: F32, n: nat)
    requires
        within(x, 40),
        n >= 1,
    ensures
        within(x.over(F32::of_whole(n)), 40),
{
    reveal(F32::of_whole);
    let d = F32::of_whole(n);
    lemma_pow2_pos(149);
    lemma_power_rung(0);
    let u = pow2(149) as int;
    assert(n * u >= u) by (nonlinear_arith)
        requires
            n >= 1,
            u > 0,
    ;
    law_ratio_rounds(Format::Single, n * u, 1);
    law_rounding_keeps_order(Format::Single, n * u, 1, power_key(0));
    lemma_over_large(x, d, 40);
}

/// One axis of the lead.
proof fn lemma_lead(lead: F32, sum: F32, n: nat, now: F32, gain: F32, alpha: F32)
    requires
        within(lead, 53),
        within(sum, 40),
        n >= 1,
        within(now, 15),
        within(gain, 10),
        alpha.finite() ==> share_of_one(alpha),
    ensures
        within(eased(lead, sum.over(F32::of_whole(n)).minus(now).times(gain), alpha), 53),
{
    lemma_over_count(sum, n);
    let ahead = sum.over(F32::of_whole(n));
    lemma_sum_within(ahead, now, 40);
    lemma_product_within(ahead.minus(now), gain, 41, 10);
    lemma_eased_within(lead, ahead.minus(now).times(gain), alpha, 53);
}

/// Where a cluster draws the aim is of ordinary size.
proof fn lemma_aim(s: FieldPanner, c: Cluster)
    requires
        in_range(s.config),
        moderate(s.config),
        within(s.last_ball_yaw, 4),
        within(s.last_ball_pitch, 4),
        within(s.ball_presence, 0),
        within(c.yaw, 6),
        within(c.pitch, 6),
    ensures
        within(s.cluster_aim(c).0, 19),
        within(s.cluster_aim(c).1, 19),
{
    let one = F32 { bits: ONE };
    lemma_push(s.config);
    lemma_product_within(c.yaw, one.plus(s.config.edge_push), 6, 11);
    lemma_sum_within(c.pitch, s.config.pitch_bias, 10);
    let yaw = c.yaw.times(one.plus(s.config.edge_push));
    let pitch = c.pitch.plus(s.config.pitch_bias);
    assert(within(s.config.ball_weight, 0));
    lemma_product_within(s.config.ball_weight, s.ball_presence, 0, 0);
    let w = s.config.ball_weight.times(s.ball_presence);
    assert(within(one, 0));
    lemma_sum_within(one, w, 0);
    let rest = one.minus(w);
    lemma_product_within(yaw, rest, 17, 1);
    lemma_product_within(pitch, rest, 11, 1);
    lemma_product_within(s.last_ball_yaw, w, 4, 0);
    lemma_product_within(s.last_ball_pitch, w, 4, 0);
    lemma_sum_within(yaw.times(rest), s.last_ball_yaw.times(w), 18);
    lemma_sum_within(pitch.times(rest), s.last_ball_pitch.times(w), 18);
}

/// What is aimed at is of ordinary size, and the panner stays calm.
proof fn lemma_aimed(p: FieldPanner, world: WorldState, future: Seq<WorldState>)
    requires
        calm(p),
        fair_frame((world, future)),
    ensures
        calm(p.aimed(world, future).0),
        p.aimed(world, future).1 matches Some(t) ==> within(t.0, 54) && within(t.1, 54),
{
    let lookahead = future.len() > 0;
    let b = p.begun(lookahead);
    lemma_clustered(b, world.players@);
    let (cluster, s0) = b.clustered(world.players@);
    let ball = s0.followed_ball(world);
    let s = s0.ball_noted(ball, s0.ball_near(ball, cluster));
    assert(s == p.noted(world, lookahead));
    assert(within(s.ball_presence, 0));
    assert(calm(s));
    let first = s.first_target(s.followed_ball(world), cluster);
    if let Some(c) = cluster {
        lemma_aim(s, c);
    }
    assert(first matches Some(t) ==> within(t.0, 19) && within(t.1, 19));
    lemma_glance(s, world);
    let frame: Frame = (world, future);
    assert forall|i: int| 0 <= i < future.len() implies fair_world(#[trigger] future[i]) by {
        assert(fair_world(frame.1[i]));
    }
    lemma_foreseen(s, future);
    let l = s.led(world, future, first);
    let f = foreseen(s, future);
    let alpha = s.config.lead_alpha;
    if alpha.finite() {
        lemma_share_number(alpha);
    }
    if let (Some(t), Some(now)) = (first, s.glance(world)) {
        if f.0 > 0 {
            lemma_lead(s.lead_yaw, f.1, f.0, now.0, s.config.lead_gain, alpha);
            lemma_lead(s.lead_pitch, f.2, f.0, now.1, s.config.lead_gain, alpha);
        }
    }
    assert(calm(l));
    if let Some(t) = first {
        lemma_sum_within(t.0, l.lead_yaw, 53);
        lemma_sum_within(t.1, l.lead_pitch, 53);
    }
}

/// A panner stays calm from frame to frame.
proof fn lemma_decided_calm(p: FieldPanner, f: Frame)
    requires
        calm(p),
        fair_frame(f),
    ensures
        calm(p.decided(f.0, f.1)),
        ({
            let (l, target) = p.aimed(f.0, f.1);
            match target {
                Some(t) => t.0.finite() && t.1.finite()
                    ==> errors_are_numbers(l, t),
                None => true,
            }
        }),
{
    lemma_aimed(p, f.0, f.1);
    let (l, target) = p.aimed(f.0, f.1);
    if let Some(t) = target {
        lemma_chase_steady(l, t);
    }
}

/// The bounds of the field of view, and how fast it eases, are numbers of ordinary
/// size.
pub open spec fn viewable(c: FieldPannerConfig) -> bool {
    &&& c.fov_wide.finite()
    &&& within(c.fov_wide, 119)
    &&& !c.fov_alpha.nan()
    &&& !c.fov_default.nan()
}

/// The field of view lies between the tightest and the widest, but for a
/// millionth part of the widest that rounding may add.
pub open spec fn view_in_bounds(p: FieldPanner) -> bool {
    let f = value(p.current_fov);
    let (lo, hi) = (value(p.config.fov_tight), value(p.config.fov_wide));
    p.current_fov.finite() && 0x10_0000 * (lo - f) <= hi && 0x10_0000 * (f - hi) <= hi
}

/// Two numbers that are not negative, in order, are in order as values.
proof fn lemma_at_most_values(a: F32, b: F32)
    requires
        (F32 { bits: ZERO }).at_most(a),
        a.at_most(b),
        b.finite(),
    ensures
        a.finite(),
        0 <= value(a) <= value(b),
{
    lemma_sizes_ordered(a, b);
    lemma_rung_zero(23);
}

/// What easing by a share of one does to the bounds.
proof fn lemma_bounds_kept(lo: int, hi: int, f: int, g: int, d: int, y: int)
    requires
        0 <= lo <= g <= hi,
        0x1_0000_0000 <= hi,
        0x10_0000 * (lo - f) <= hi,
        0x10_0000 * (f - hi) <= hi,
        0x100_0000 * magnitude(d - (g - f)) <= magnitude(d) + 0x80_0000,
        g >= f ==> f <= y && 0x100_0000 * (y - g) <= magnitude(d) + magnitude(y) + 0x100_0000,
        g <= f ==> y <= f && 0x100_0000 * (g - y) <= magnitude(d) + magnitude(y) + 0x100_0000,
    ensures
        0x10_0000 * (lo - y) <= hi,
        0x10_0000 * (y - hi) <= hi,
{
    assert(magnitude(g - f) <= 2 * hi);
    assert(magnitude(d) <= 3 * hi);
    if g >= f {
        assert(magnitude(y) <= 3 * hi);
    } else {
        assert(magnitude(y) <= 3 * hi);
    }
}

/// The field of view keeps to its bounds as it moves.
proof fn lemma_zoomed(
    p: FieldPanner,
    cluster: Option<Cluster>,
    near: bool,
    aim: Option<(F32, F32, F32)>,
)
    requires
        in_range(p.config),
        viewable(p.config),
        view_in_bounds(p),
    ensures
        view_in_bounds(p.zoomed(cluster, near, aim)),
{
    if let (Some(c), Some(_)) = (cluster, aim) {
        let g = p.cluster_fov(c);
        if g.finite() {
            let speed = p.velocity_yaw.times(p.velocity_yaw).plus(
                p.velocity_pitch.times(p.velocity_pitch),
            ).root();
            law_fov_within_bounds(p, c.spread, c.pitch, speed);
            let (x, alpha) = (p.current_fov, p.config.fov_alpha);
            let (lo, hi) = (p.config.fov_tight, p.config.fov_wide);
            lemma_at_most_values(lo, g);
            lemma_at_most_values(g, hi);
            lemma_at_most_values(F32 { bits: ONE }, hi);
            lemma_one();
            lemma_pow2_adds(32, 117);
            lemma2_to64();
            lemma_pow2_pos(117);
            assert(pow2(149) >= 0x1_0000_0000) by (nonlinear_arith)
                requires
                    pow2(149) == 0x1_0000_0000 * pow2(117),
                    pow2(117) >= 1,
            ;
            lemma_within_value(hi, 119);
            lemma_within_value(x, 120);
            lemma_doubles(119);
            lemma_wider(g, 119, 120);
            lemma_share_number(alpha);
            lemma_eased_between(x, g, alpha);
            lemma_near_difference(g, x);
            lemma_bounds_kept(
                value(lo),
                value(hi),
                value(x),
                value(g),
                value(g.minus(x)),
                value(eased(x, g, alpha)),
            );
        }
    }
}

/// A difference of two numbers of ordinary size is off the exact one by at most
/// half a gap.
proof fn lemma_near_difference(a: F32, b: F32)
    requires
        a.finite(),
        b.finite(),
        within(a, 120),
        within(b, 120),
    ensures
        ({
            let d = value(a.minus(b));
            0x100_0000 * magnitude(d - (value(a) - value(b))) <= magnitude(d) + 0x80_0000
        }),
{
    lemma_within_value(a, 120);
    lemma_within_value(b, 120);
    lemma_power_rung(127);
    lemma_doubles(120);
    lemma_pow2_strictly_increases(270, 276);
    assert(value(b.negated()) == -value(b));
    lemma_sum_close(a, b.negated());
}

/// The state after a run of frames.
pub open spec fn run(p: FieldPanner, frames: Seq<Frame>) -> FieldPanner
    decreases frames.len(),
{
    if frames.len() == 0 {
        p
    } else {
        let f = frames.last();
        run(p, frames.drop_last()).decided(f.0, f.1)
    }
}

/// Everything tracked in a run is fair.
pub open spec fn fair_run(frames: Seq<Frame>) -> bool {
    forall|i: int| 0 <= i < frames.len() ==> fair_frame(#[trigger] frames[i])
}

/// A panner whose numbers are of ordinary size, which keeps to its top speed and
/// whose field of view is in bounds.
pub open spec fn sound(p: FieldPanner) -> bool {
    calm(p) && keeps_to_limit(p) && viewable(p.config) && view_in_bounds(p)
}

/// The field of view keeps to its bounds from frame to frame.
proof fn lemma_decided_in_bounds(p: FieldPanner, f: Frame)
    requires
        in_range(p.config),
        viewable(p.config),
        view_in_bounds(p),
    ensures
        view_in_bounds(p.decided(f.0, f.1)),
        p.decided(f.0, f.1).config == p.config,
{
    let lookahead = f.1.len() > 0;
    let cluster = p.cluster_in(f.0, lookahead);
    let s = p.noted(f.0, lookahead);
    let (l, target) = p.aimed(f.0, f.1);
    let aim = match cluster {
        Some(c) => Some(s.cluster_aim(c)),
        None => None,
    };
    lemma_zoomed(l.chased(target), cluster, s.ball_near(s.followed_ball(f.0), cluster), aim);
}

/// A panner stays sound from frame to frame.
proof fn lemma_decided_sound(p: FieldPanner, f: Frame)
    requires
        sound(p),
        fair_frame(f),
    ensures
        sound(p.decided(f.0, f.1)),
{
    lemma_decided_calm(p, f);
    lemma_limit_ordinary(p);
    lemma_limit_ordinary(p.begun(f.1.len() > 0));
    law_speed_keeps_to_limit(p, f.0, f.1);
    lemma_decided_in_bounds(p, f);
}

/// A panner stays sound over a run.
pub proof fn law_run_stays_sound(p: FieldPanner, frames: Seq<Frame>)
    requires
        sound(p),
        fair_run(frames),
    ensures
        sound(run(p, frames)),
    decreases frames.len(),
{
    if frames.len() > 0 {
        let rest = frames.drop_last();
        assert forall|i: int| 0 <= i < rest.len() implies fair_frame(#[trigger] rest[i]) by {
            assert(rest[i] == frames[i]);
        }
        law_run_stays_sound(p, rest);
        assert(fair_frame(frames[frames.len() - 1]));
        lemma_decided_sound(run(p, rest), frames.last());
    }
}

/// Parameters of ordinary size.
pub open spec fn ordinary(c: FieldPannerConfig) -> bool {
    &&& moderate(c)
    &&& viewable(c)
    &&& c.max_velocity_rad_per_sec.finite()
    &&& !c.max_velocity_rad_per_sec.parts().neg
    &&& within(c.max_velocity_rad_per_sec, 20)
}

/// The parameters of every preset, and the default ones, are of ordinary size.
pub proof fn law_presets_are_ordinary()
    ensures
        ordinary(default_config()),
        ordinary(broadcast_config()),
        ordinary(action_config()),
        ordinary(frame_all_config()),
        ordinary(basketball_config()),
{
}

/// A new panner with parameters of ordinary size is sound.
pub proof fn law_new_panner_sound(fps: F32, config: FieldPannerConfig)
    requires
        !fps.nan(),
        ordinary(sanitized_config(config)),
    ensures
        sound(new_panner(fps, config)),
{
    let p = new_panner(fps, config);
    let c = p.config;
    law_sanitized_in_range(config);
    lemma_over_large(
        c.max_velocity_rad_per_sec,
        fps.clamped(F32 { bits: ONE }, F32 { bits: THOUSAND }),
        20,
    );
    lemma_limit_ordinary(p);
    law_new_panner_keeps_to_limit(fps, config);
    lemma_at_most_values(c.fov_tight, c.fov_default);
    lemma_at_most_values(c.fov_default, c.fov_wide);
}

/// Over any run of frames, whatever is seen in them, the field of view stays
/// between the tightest and the widest but for rounding.
pub proof fn law_view_stays_in_bounds(fps: F32, config: FieldPannerConfig, frames: Seq<Frame>)
    requires
        viewable(sanitized_config(config)),
    ensures
        view_in_bounds(run(new_panner(fps, config), frames)),
        run(new_panner(fps, config), frames).config == sanitized_config(config),
    decreases frames.len(),
{
    let start = new_panner(fps, config);
    law_sanitized_in_range(config);
    if frames.len() > 0 {
        let f = frames.last();
        law_view_stays_in_bounds(fps, config, frames.drop_last());
        lemma_decided_in_bounds(run(start, frames.drop_last()), f);
    } else {
        let c = start.config;
        lemma_at_most_values(c.fov_tight, c.fov_default);
        lemma_at_most_values(c.fov_default, c.fov_wide);
    }
}

/// Over any run of frames the camera points somewhere: its two angles and its
/// field of view stay finite, whatever players come without a place.
pub proof fn law_run_stays_finite(fps: F32, config: FieldPannerConfig, frames: Seq<Frame>)
    requires
        !fps.nan(),
        ordinary(sanitized_config(config)),
        fair_run(frames),
    ensures
        ({
            let p = run(new_panner(fps, config), frames);
            p.yaw.finite() && p.pitch.finite() && p.current_fov.finite()
        }),
{
    law_new_panner_sound(fps, config);
    law_run_stays_sound(new_panner(fps, config), frames);
}

/// A step on an axis: by the limit and the thousandth part of it that rounding
/// may add, and by what is lost when the step is added.
pub open spec fn stepped(from: F32, to: F32, limit: F32) -> bool {
    let moved = magnitude(value(to) - value(from));
    let lost = magnitude(value(to)) + 0x80_0000;
    0x100_0000 * (1024 * moved - 1025 * value(limit) - 0x40_0000) <= 1024 * lost
}

/// A pose moves by its speed, but for rounding.
proof fn lemma_stepped(at: F32, v: F32, limit: F32)
    requires
        at.finite(),
        within(at, 51),
        within(v, 26),
        kept(v, limit),
    ensures
        stepped(at, at.plus(v), limit),
{
    lemma_within_value(at, 51);
    lemma_within_value(v, 26);
    lemma_power_rung(127);
    lemma_doubles(51);
    lemma_pow2_strictly_increases(175, 200);
    lemma_pow2_strictly_increases(201, 276);
    lemma_sum_close(at, v);
}

/// A run leaves the parameters and the top speed as they are, and once later
/// frames have been known the quicker chase stays.
pub proof fn law_run_keeps(p: FieldPanner, frames: Seq<Frame>)
    ensures
        run(p, frames).config == p.config,
        run(p, frames).max_velocity == p.max_velocity,
        run(p, frames).lookahead_active <==> p.lookahead_active || exists|i: int|
            0 <= i < frames.len() && (#[trigger] frames[i]).1.len() > 0,
    decreases frames.len(),
{
    if frames.len() > 0 {
        let (rest, f) = (frames.drop_last(), frames.last());
        law_run_keeps(p, rest);
        law_decided_keeps(run(p, rest), f.0, f.1);
        assert(frames[frames.len() - 1] == f);
        assert forall|i: int| 0 <= i < rest.len() implies rest[i] == #[trigger] frames[i] by {}
        if exists|i: int| 0 <= i < rest.len() && (#[trigger] rest[i]).1.len() > 0 {
            let i = choose|i: int| 0 <= i < rest.len() && (#[trigger] rest[i]).1.len() > 0;
            assert(frames[i].1.len() > 0);
        }
        if exists|i: int| 0 <= i < frames.len() && (#[trigger] frames[i]).1.len() > 0 {
            let i = choose|i: int| 0 <= i < frames.len() && (#[trigger] frames[i]).1.len() > 0;
            if i < rest.len() {
                assert(rest[i].1.len() > 0);
            }
        }
    }
}

/// At any frame after any run the camera turns by no more than its top speed
/// allows, on both axes. The limit is the top speed in a second divided by the
/// frames in it, times the reactivity once later frames have been known.
pub proof fn law_each_step_keeps_to_limit(
    fps: F32,
    config: FieldPannerConfig,
    frames: Seq<Frame>,
    next: Frame,
)
    requires
        !fps.nan(),
        ordinary(sanitized_config(config)),
        fair_run(frames),
        fair_frame(next),
    ensures
        ({
            let p = run(new_panner(fps, config), frames);
            let q = p.decided(next.0, next.1);
            &&& stepped(p.yaw, q.yaw, q.speed_limit())
            &&& stepped(p.pitch, q.pitch, q.speed_limit())
            &&& q.max_velocity == new_panner(fps, config).max_velocity
            &&& q.config == sanitized_config(config)
            &&& q.lookahead_active <==> next.1.len() > 0 || exists|i: int|
                0 <= i < frames.len() && (#[trigger] frames[i]).1.len() > 0
        }),
{
    law_new_panner_sound(fps, config);
    law_run_stays_sound(new_panner(fps, config), frames);
    let p = run(new_panner(fps, config), frames);
    let q = p.decided(next.0, next.1);
    lemma_decided_sound(p, next);
    law_run_keeps(new_panner(fps, config), frames);
    law_decided_keeps(p, next.0, next.1);
    lemma_limit_ordinary(q);
    lemma_within_value(q.speed_limit(), 24);
    lemma_within_value(q.yaw, 51);
    lemma_within_value(q.pitch, 51);
    if q.yaw != p.yaw || q.pitch != p.pitch {
        lemma_stepped(p.yaw, q.velocity_yaw, q.speed_limit());
        lemma_stepped(p.pitch, q.velocity_pitch, q.speed_limit());
    }
}

/// With the tilt locked at level, the camera stays level over any run.
pub proof fn law_locked_camera_stays_level(
    fps: F32,
    config: FieldPannerConfig,
    frames: Seq<Frame>,
)
    requires
        !fps.nan(),
        ordinary(sanitized_config(config)),
        fair_run(frames),
        config.lock_pitch,
        config.locked_pitch_rad.finite(),
        value(config.locked_pitch_rad) == 0,
    ensures
        value(run(new_panner(fps, config), frames).pitch) == 0,
        value(run(new_panner(fps, config), frames).velocity_pitch) == 0,
    decreases frames.len(),
{
    let start = new_panner(fps, config);
    lemma_rung_zero(23);
    if frames.len() > 0 {
        let rest = frames.drop_last();
        let f = frames.last();
        assert forall|i: int| 0 <= i < rest.len() implies fair_frame(#[trigger] rest[i]) by {
            assert(rest[i] == frames[i]);
        }
        assert(fair_frame(frames[frames.len() - 1]));
        law_locked_camera_stays_level(fps, config, rest);
        law_new_panner_sound(fps, config);
        law_run_stays_sound(start, rest);
        law_run_keeps(start, rest);
        let p = run(start, rest);
        lemma_aimed(p, f.0, f.1);
        law_lock_pitch(p, f.0, f.1);
        let (l, target) = p.aimed(f.0, f.1);
        if let Some(t) = target {
            lemma_rest(l, t);
        }
    }
}

} // verus!
