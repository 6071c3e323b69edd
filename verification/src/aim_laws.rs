//! Where the camera aims: the group, the ball, and where the play is heading.
use crate::algebra::{lemma_nothing, lemma_spread_out, lemma_three};
use crate::cluster::{
    added, box_of, by_distance, center_index, core_of, densest, extremes, keep_count, mean,
    neighbours, placed, points_of, radius_sq, trimmed, Column, Point, EMPTY_SUM, HALF,
};
use crate::cluster_laws::law_box_holds_players;
use crate::field_panner::{eased, foreseen, Cluster, FieldPanner};
use crate::fit_laws::law_small_whole_is_exact;
use crate::follow_laws::{fraction, law_eased_part_of_the_way};
use crate::gather_laws::{law_points_are_the_live_players, still_seen, whereabouts};
use crate::near_laws::{
    lemma_nigh_minus, lemma_nigh_plus, lemma_nigh_times, lemma_notch, nigh, notch,
};
use crate::panner_config::{FieldPannerConfig, FramingMode, ONE, THOUSANDTH, ZERO};
use crate::panner_laws::{ascending, law_by_distance_orders, law_center_is_densest, measurable};
use crate::radius_laws::{lemma_scaled, lemma_size_times};
use crate::real_laws::size;
use crate::real_single_laws::{
    lemma_minus, lemma_plus, lemma_times, lemma_val, lemma_val_ordered, val,
};
use crate::rounding::{law_rounding_keeps_order, lemma_rung_zero, Format};
use crate::single::F32;
use crate::size_laws::lemma_one;
use crate::value_laws::lemma_small_constants;
use crate::world::{TrackState, TrackedEntity, WorldState};
use vstd::arithmetic::power2::{lemma2_to64, lemma_pow2_adds, lemma_pow2_pos, pow2};
use vstd::prelude::*;

verus! {

/// How present the ball is: it rises by a share of what is missing when the ball
/// is near the group, and falls to a share of itself otherwise; and only a ball
/// near the group moves the place where it was last seen.
pub proof fn law_ball_presence_rises_and_falls(
    p: FieldPanner,
    ball: Option<TrackedEntity>,
    near: bool,
)
    requires
        fraction(p.ball_presence),
        fraction(p.config.ball_presence_attack),
        fraction(p.config.ball_presence_decay),
        near ==> ball is Some,
    ensures
        ({
            let n = p.ball_noted(ball, near);
            let (b, up, down) = (
                val(p.ball_presence),
                val(p.config.ball_presence_attack),
                val(p.config.ball_presence_decay),
            );
            &&& fraction(n.ball_presence)
            &&& near ==> size(val(n.ball_presence) - (b + up * (1 as real - b)))
                <= 4 as real * notch()
            &&& !near ==> size(val(n.ball_presence) - b * down) <= 4 as real * notch()
            &&& near ==> n.last_ball_yaw == ball->0.yaw && n.last_ball_pitch == ball->0.pitch
            &&& !near ==> n.last_ball_yaw == p.last_ball_yaw && n.last_ball_pitch
                == p.last_ball_pitch
            &&& n.yaw == p.yaw && n.pitch == p.pitch && n.config == p.config
        }),
{
    let (zero, one) = (F32 { bits: ZERO }, F32 { bits: ONE });
    let x = p.ball_presence;
    let (up, down) = (p.config.ball_presence_attack, p.config.ball_presence_decay);
    lemma_small_constants();
    lemma_val(zero);
    let (b, a, d) = (val(x), val(up), val(down));
    lemma_scaled(b, 1 as real, d);
    lemma_scaled(0 as real, b, d);
    lemma_scaled(a, 1 as real, 1 as real - b);
    lemma_scaled(0 as real, a, 1 as real - b);
    lemma_nothing(d);
    lemma_nothing(1 as real - b);
    lemma_nigh_minus(one, 1 as real, 0 as real, x, b, 0 as real);
    let left = one.minus(x);
    lemma_nothing(notch());
    lemma_nigh_times(
        up,
        a,
        0 as real,
        left,
        1 as real - b,
        notch(),
        1 as real,
        2 as real,
    );
    lemma_nothing(2 as real);
    lemma_nigh_plus(x, b, 0 as real, up.times(left), a * (1 as real - b), 2 as real * notch());
    lemma_times(x, down);
    lemma_notch(val(x.times(down)), b * d);
    let risen = x.plus(up.times(left));
    let fallen = x.times(down);
    lemma_val_ordered(risen, zero);
    lemma_val_ordered(one, risen);
    lemma_val_ordered(fallen, zero);
    lemma_val_ordered(one, fallen);
}

/// Where a group draws the aim when the ball has no say: its place, pushed to the
/// sides by the given share and tilted by the given angle.
pub proof fn law_group_draws_the_aim(p: FieldPanner, c: Cluster)
    requires
        p.config.framing == FramingMode::Action,
        c.yaw.finite() && c.pitch.finite(),
        size(val(c.yaw)) <= 4 as real && size(val(c.pitch)) <= 4 as real,
        p.config.edge_push.finite() && p.config.pitch_bias.finite(),
        size(val(p.config.edge_push)) <= 2 as real && size(val(p.config.pitch_bias)) <= 2 as real,
        !(F32 { bits: THOUSANDTH }).below(p.config.ball_weight.times(p.ball_presence)),
    ensures
        nigh(
            p.cluster_aim(c).0,
            val(c.yaw) * (1 as real + val(p.config.edge_push)),
            6 as real * notch(),
        ),
        nigh(p.cluster_aim(c).1, val(c.pitch) + val(p.config.pitch_bias), notch()),
{
    lemma_pushed(p, c);
}

/// A place pushed to the side and tilted.
proof fn lemma_pushed(p: FieldPanner, c: Cluster)
    requires
        c.yaw.finite() && c.pitch.finite(),
        size(val(c.yaw)) <= 4 as real && size(val(c.pitch)) <= 4 as real,
        p.config.edge_push.finite() && p.config.pitch_bias.finite(),
        size(val(p.config.edge_push)) <= 2 as real && size(val(p.config.pitch_bias)) <= 2 as real,
    ensures
        nigh(
            c.yaw.times(F32 { bits: ONE }.plus(p.config.edge_push)),
            val(c.yaw) * (1 as real + val(p.config.edge_push)),
            6 as real * notch(),
        ),
        nigh(
            c.pitch.plus(p.config.pitch_bias),
            val(c.pitch) + val(p.config.pitch_bias),
            notch(),
        ),
        size(val(c.yaw) * (1 as real + val(p.config.edge_push))) <= 12 as real,
{
    let one = F32 { bits: ONE };
    lemma_small_constants();
    let (y, e) = (val(c.yaw), val(p.config.edge_push));
    lemma_nigh_plus(one, 1 as real, 0 as real, p.config.edge_push, e, 0 as real);
    let k = one.plus(p.config.edge_push);
    lemma_nigh_times(c.yaw, y, 0 as real, k, 1 as real + e, notch(), 4 as real, 4 as real);
    lemma_nothing(4 as real);
    lemma_nigh_plus(c.pitch, val(c.pitch), 0 as real, p.config.pitch_bias, val(
        p.config.pitch_bias,
    ), 0 as real);
    lemma_size_times(y, 1 as real + e);
    lemma_scaled(size(y), 4 as real, size(1 as real + e));
}

/// Where a group draws the aim when the ball has a say: between its own place,
/// pushed and tilted, and where the ball was last near it, by the ball's weight.
pub proof fn law_ball_draws_the_aim(p: FieldPanner, c: Cluster)
    requires
        p.config.framing == FramingMode::Action,
        c.yaw.finite() && c.pitch.finite(),
        size(val(c.yaw)) <= 4 as real && size(val(c.pitch)) <= 4 as real,
        p.config.edge_push.finite() && p.config.pitch_bias.finite(),
        size(val(p.config.edge_push)) <= 2 as real && size(val(p.config.pitch_bias)) <= 2 as real,
        fraction(p.config.ball_weight) && fraction(p.ball_presence),
        p.last_ball_yaw.finite() && p.last_ball_pitch.finite(),
        size(val(p.last_ball_yaw)) <= 4 as real && size(val(p.last_ball_pitch)) <= 4 as real,
        (F32 { bits: THOUSANDTH }).below(p.config.ball_weight.times(p.ball_presence)),
    ensures
        ({
            let w = val(p.config.ball_weight) * val(p.ball_presence);
            let a = p.cluster_aim(c);
            &&& nigh(
                a.0,
                (val(c.yaw) * (1 as real + val(p.config.edge_push))) * (1 as real - w) + val(
                    p.last_ball_yaw,
                ) * w,
                60 as real * notch(),
            )
            &&& nigh(
                a.1,
                (val(c.pitch) + val(p.config.pitch_bias)) * (1 as real - w) + val(
                    p.last_ball_pitch,
                ) * w,
                60 as real * notch(),
            )
            &&& nigh(a.2, w, notch())
        }),
{
    lemma_pushed(p, c);
    lemma_small_constants();
    let one = F32 { bits: ONE };
    let (bw, bp) = (p.config.ball_weight, p.ball_presence);
    let w = val(bw) * val(bp);
    lemma_scaled(val(bw), 1 as real, val(bp));
    lemma_scaled(0 as real, val(bw), val(bp));
    lemma_nothing(val(bp));
    lemma_times(bw, bp);
    let share = bw.times(bp);
    lemma_notch(val(share), w);
    lemma_nigh_minus(one, 1 as real, 0 as real, share, w, notch());
    let rest = one.minus(share);
    let yaw = c.yaw.times(one.plus(p.config.edge_push));
    let pitch = c.pitch.plus(p.config.pitch_bias);
    lemma_blend(
        yaw,
        val(c.yaw) * (1 as real + val(p.config.edge_push)),
        rest,
        share,
        p.last_ball_yaw,
        w,
    );
    lemma_blend(
        pitch,
        val(c.pitch) + val(p.config.pitch_bias),
        rest,
        share,
        p.last_ball_pitch,
        w,
    );
}

/// A blend of two places.
proof fn lemma_blend(a: F32, x: real, rest: F32, share: F32, b: F32, w: real)
    requires
        nigh(a, x, 6 as real * notch()),
        size(x) <= 12 as real,
        nigh(rest, 1 as real - w, 2 as real * notch()),
        nigh(share, w, notch()),
        b.finite(),
        size(val(b)) <= 4 as real,
        0 as real <= w <= 1 as real,
    ensures
        nigh(
            a.times(rest).plus(b.times(share)),
            x * (1 as real - w) + val(b) * w,
            60 as real * notch(),
        ),
{
    let (e, y) = (notch(), val(b));
    lemma_nigh_times(
        a,
        x,
        6 as real * e,
        rest,
        1 as real - w,
        2 as real * e,
        12 as real,
        2 as real,
    );
    lemma_nigh_times(b, y, 0 as real, share, w, e, 4 as real, 2 as real);
    lemma_nothing(2 as real);
    lemma_size_times(x, 1 as real - w);
    lemma_scaled(1 as real - w, 1 as real, size(x));
    lemma_size_times(y, w);
    lemma_scaled(w, 1 as real, size(y));
    lemma_nothing(size(x));
    lemma_nothing(size(y));
    lemma_nigh_plus(
        a.times(rest),
        x * (1 as real - w),
        40 as real * e,
        b.times(share),
        y * w,
        6 as real * e,
    );
}

/// Whom the camera looks at: with a group, where the group draws the aim; without
/// one, the live ball, if the ball has weight; and else nobody. Without later
/// frames nothing is added, and the tilt is kept if it is locked.
pub proof fn law_group_before_ball(p: FieldPanner, world: WorldState)
    ensures
        ({
            let (s, target) = p.aimed(world, Seq::empty());
            let cluster = p.cluster_in(world, false);
            let pitch_of = |pitch: F32|
                if p.config.lock_pitch {
                    p.config.locked_pitch_rad
                } else {
                    pitch
                };
            let weighty = (F32 { bits: ZERO }).below(p.config.ball_weight);
            &&& cluster matches Some(c) ==> target == Some(
                (s.cluster_aim(c).0, pitch_of(s.cluster_aim(c).1)),
            )
            &&& cluster is None && weighty && (world.ball matches Some(b) && b.state
                == TrackState::Tracking) ==> target == Some(
                (world.ball->0.yaw, pitch_of(world.ball->0.pitch)),
            )
            &&& cluster is None && (!weighty || world.ball is None || world.ball->0.state
                == TrackState::Lost) ==> target is None
            &&& s.lead_yaw == p.lead_yaw && s.lead_pitch == p.lead_pitch
        }),
{
    assert(foreseen(p.noted(world, false), Seq::empty()).0 == 0);
}

/// What the later frames show: a frame with something to look at counts once and
/// adds its place; one without counts for nothing.
pub proof fn law_later_frames_add_up(p: FieldPanner, future: Seq<WorldState>, w: WorldState)
    ensures
        foreseen(p, Seq::empty()) == (0nat, F32 { bits: ZERO }, F32 { bits: ZERO }),
        p.glance(w) is None ==> foreseen(p, future.push(w)) == foreseen(p, future),
        p.glance(w) matches Some(t) ==> {
            let (a, b) = (foreseen(p, future), foreseen(p, future.push(w)));
            b.0 == a.0 + 1 && b.1 == a.1.plus(t.0) && b.2 == a.2.plus(t.1)
        },
{
    assert(future.push(w).drop_last() =~= future);
}

/// The lead moves the given fraction of the way to the gain times what the mean
/// of the later places is ahead of the present one; and it is added to the
/// target.
pub proof fn law_lead_eases_ahead(
    p: FieldPanner,
    world: WorldState,
    future: Seq<WorldState>,
    t: (F32, F32),
    now: (F32, F32),
    ahead: (F32, F32),
)
    requires
        p.glance(world) == Some(now),
        foreseen(p, future).0 > 0,
        ahead.0 == foreseen(p, future).1.over(F32::of_whole(foreseen(p, future).0)),
        ahead.1 == foreseen(p, future).2.over(F32::of_whole(foreseen(p, future).0)),
        now.0.finite() && now.1.finite() && ahead.0.finite() && ahead.1.finite(),
        size(val(now.0)) <= 2 as real && size(val(now.1)) <= 2 as real,
        size(val(ahead.0)) <= 2 as real && size(val(ahead.1)) <= 2 as real,
        p.lead_yaw.finite() && p.lead_pitch.finite(),
        size(val(p.lead_yaw)) <= 8 as real && size(val(p.lead_pitch)) <= 8 as real,
        p.config.lead_gain.finite() && size(val(p.config.lead_gain)) <= 1 as real,
        fraction(p.config.lead_alpha),
    ensures
        ({
            let n = p.led(world, future, Some(t));
            let (g, a) = (val(p.config.lead_gain), val(p.config.lead_alpha));
            &&& nigh(
                n.lead_yaw,
                val(p.lead_yaw) + a * ((val(ahead.0) - val(now.0)) * g - val(p.lead_yaw)),
                8 as real * notch(),
            )
            &&& nigh(
                n.lead_pitch,
                val(p.lead_pitch) + a * ((val(ahead.1) - val(now.1)) * g - val(p.lead_pitch)),
                8 as real * notch(),
            )
            &&& n.final_target(world, future, Some(t)) is Some
        }),
{
    lemma_lead(p.lead_yaw, ahead.0, now.0, p.config.lead_gain, p.config.lead_alpha);
    lemma_lead(p.lead_pitch, ahead.1, now.1, p.config.lead_gain, p.config.lead_alpha);
}

/// One axis of a lead.
proof fn lemma_lead(lead: F32, ahead: F32, now: F32, gain: F32, alpha: F32)
    requires
        lead.finite() && ahead.finite() && now.finite() && gain.finite(),
        size(val(lead)) <= 8 as real,
        size(val(ahead)) <= 2 as real && size(val(now)) <= 2 as real,
        size(val(gain)) <= 1 as real,
        fraction(alpha),
    ensures
        nigh(
            eased(lead, ahead.minus(now).times(gain), alpha),
            val(lead) + val(alpha) * ((val(ahead) - val(now)) * val(gain) - val(lead)),
            8 as real * notch(),
        ),
{
    let (d, g, a) = (val(ahead) - val(now), val(gain), val(alpha));
    lemma_nigh_minus(ahead, val(ahead), 0 as real, now, val(now), 0 as real);
    let e = ahead.minus(now);
    lemma_nigh_times(e, d, notch(), gain, g, 0 as real, 4 as real, 1 as real);
    lemma_nothing(4 as real);
    lemma_nothing(notch());
    lemma_size_times(d, g);
    lemma_scaled(size(g), 1 as real, size(d));
    lemma_nothing(size(d));
    let goal = e.times(gain);
    law_eased_part_of_the_way(lead, goal, alpha);
    let off = val(goal) - d * g;
    lemma_spread_out(val(goal) - val(lead), d * g - val(lead), a);
    lemma_size_times(a, off);
    lemma_scaled(a, 1 as real, size(off));
    lemma_nothing(size(off));
}

/// When everyone is framed, the cluster is everyone who is still seen: there is
/// one whenever they are enough and one of them has a place, and it counts all
/// of them.
pub proof fn law_everyone_is_followed(p: FieldPanner, world: WorldState, lookahead: bool)
    requires
        p.config.framing == FramingMode::FrameAll,
    ensures
        ({
            let seen = world.players@.filter(still_seen()).map_values(whereabouts());
            let cluster = p.cluster_in(world, lookahead);
            &&& seen.len() < p.config.min_cluster ==> cluster is None
            &&& seen.len() >= p.config.min_cluster && (exists|i: int|
                0 <= i < seen.len() && placed(#[trigger] seen[i])) ==> cluster is Some
                && cluster->0.count == seen.len() as usize
        }),
{
    law_points_are_the_live_players(world.players@);
    let seen = points_of(world.players@);
    if exists|i: int| 0 <= i < seen.len() && placed(#[trigger] seen[i]) {
        let i = choose|i: int| 0 <= i < seen.len() && placed(#[trigger] seen[i]);
        law_box_holds_players(seen, i);
    }
}

/// When everyone is framed, the centroid eases to the middle of the box around
/// everyone who is still seen, and the spread is the longer of its two reaches.
pub proof fn law_everyone_is_centered(
    p: FieldPanner,
    world: WorldState,
    future: Seq<WorldState>,
    b: (F32, F32, F32, F32),
)
    requires
        p.config.framing == FramingMode::FrameAll,
        ({
            let seen = world.players@.filter(still_seen()).map_values(whereabouts());
            seen.len() >= p.config.min_cluster && box_of(seen) == Some(b)
        }),
        b.0.finite() && b.1.finite() && p.ema_yaw.finite() && p.ema_pitch.finite(),
        size(val(b.0)) <= 8 as real && size(val(b.1)) <= 8 as real,
        size(val(p.ema_yaw)) <= 8 as real && size(val(p.ema_pitch)) <= 8 as real,
        fraction(p.config.cluster_alpha),
    ensures
        ({
            let after = p.decided(world, future);
            let cluster = p.cluster_in(world, future.len() > 0);
            let a = val(p.config.cluster_alpha);
            &&& cluster is Some
            &&& cluster->0.yaw == after.ema_yaw && cluster->0.pitch == after.ema_pitch
            &&& cluster->0.spread == b.2.greater(b.3)
            &&& after.ema_initialized
            &&& !p.ema_initialized ==> after.ema_yaw == b.0 && after.ema_pitch == b.1
            &&& p.ema_initialized ==> nigh(
                after.ema_yaw,
                val(p.ema_yaw) + a * (val(b.0) - val(p.ema_yaw)),
                3 as real * notch(),
            )
            &&& p.ema_initialized ==> nigh(
                after.ema_pitch,
                val(p.ema_pitch) + a * (val(b.1) - val(p.ema_pitch)),
                3 as real * notch(),
            )
        }),
{
    law_points_are_the_live_players(world.players@);
    law_eased_part_of_the_way(p.ema_yaw, b.0, p.config.cluster_alpha);
    law_eased_part_of_the_way(p.ema_pitch, b.1, p.config.cluster_alpha);
}

/// What a frame draws the eye to, without any smoothing: with a group that has
/// weight, its mean, pushed to the sides and tilted; without one, the live ball.
pub proof fn law_glance_is_at_the_group(p: FieldPanner, world: WorldState, m: (F32, F32))
    requires
        p.config.framing == FramingMode::Action,
        ({
            let seen = world.players@.filter(still_seen()).map_values(whereabouts());
            let core = core_of(p.config, seen);
            core.len() > 0 && mean(p.config.confidence_weighted, core, F32 { bits: EMPTY_SUM })
                == Some(m) && !added(
                p.config.confidence_weighted,
                core,
                Column::Weight,
                F32 { bits: EMPTY_SUM },
            ).nan()
        }),
        m.0.finite() && m.1.finite(),
        size(val(m.0)) <= 4 as real && size(val(m.1)) <= 4 as real,
        p.config.edge_push.finite() && p.config.pitch_bias.finite(),
        size(val(p.config.edge_push)) <= 2 as real && size(val(p.config.pitch_bias)) <= 2 as real,
    ensures
        p.glance(world) is Some,
        nigh(
            (p.glance(world)->0).0,
            val(m.0) * (1 as real + val(p.config.edge_push)),
            6 as real * notch(),
        ),
        nigh((p.glance(world)->0).1, val(m.1) + val(p.config.pitch_bias), notch()),
{
    law_points_are_the_live_players(world.players@);
    lemma_pushed(p, Cluster { yaw: m.0, pitch: m.1, spread: m.0, count: 0 });
}

/// Without a group the eye is drawn to the ball that is still seen, and without
/// that to nothing.
pub proof fn law_glance_falls_back_on_the_ball(p: FieldPanner, world: WorldState)
    requires
        ({
            let seen = world.players@.filter(still_seen()).map_values(whereabouts());
            &&& p.config.framing == FramingMode::Action ==> core_of(p.config, seen).len() == 0
            &&& p.config.framing == FramingMode::FrameAll ==> seen.len() < p.config.min_cluster
        }),
    ensures
        (world.ball matches Some(b) && b.state == TrackState::Tracking) ==> p.glance(world) == Some(
            (world.ball->0.yaw, world.ball->0.pitch),
        ),
        world.ball is None || world.ball->0.state == TrackState::Lost ==> p.glance(world) is None,
{
    law_points_are_the_live_players(world.players@);
}

/// A frame is decided in one go: the camera chases the target of the frame from
/// where it was, and the position is where it then looks.
pub proof fn law_decision_is_the_chase(p: FieldPanner, world: WorldState, future: Seq<WorldState>)
    ensures
        ({
            let (s, target) = p.aimed(world, future);
            let after = p.decided(world, future);
            &&& s.yaw == p.yaw && s.pitch == p.pitch
            &&& s.velocity_yaw == p.velocity_yaw && s.velocity_pitch == p.velocity_pitch
            &&& s.current_fov == p.current_fov
            &&& after.yaw == s.chased(target).yaw && after.pitch == s.chased(target).pitch
            &&& after.velocity_yaw == s.chased(target).velocity_yaw
            &&& after.velocity_pitch == s.chased(target).velocity_pitch
            &&& target is None ==> after.yaw == p.yaw && after.pitch == p.pitch
            &&& after.position().yaw == after.yaw && after.position().pitch == after.pitch
            &&& after.position().fov_degrees == Some(after.current_fov)
        }),
{
}

/// The box around the players is no larger than it has to be: each of its four
/// ends is where a player is.
pub proof fn law_box_touches_players(points: Seq<Point>)
    requires
        forall|i: int| 0 <= i < points.len() ==> placed(#[trigger] points[i]),
        points.len() > 0,
    ensures
        ({
            let e = extremes(points);
            &&& exists|i: int| 0 <= i < points.len() && (#[trigger] points[i]).0 == e.0
            &&& exists|i: int| 0 <= i < points.len() && (#[trigger] points[i]).0 == e.1
            &&& exists|i: int| 0 <= i < points.len() && (#[trigger] points[i]).1 == e.2
            &&& exists|i: int| 0 <= i < points.len() && (#[trigger] points[i]).1 == e.3
        }),
    decreases points.len(),
{
    let rest = points.drop_last();
    let last = points[points.len() - 1];
    assert(placed(last));
    assert(points.last() == last);
    if rest.len() > 0 {
        assert forall|i: int| 0 <= i < rest.len() implies placed(#[trigger] rest[i]) by {
            assert(rest[i] == points[i]);
        }
        law_box_touches_players(rest);
        let e = extremes(rest);
        let a = choose|i: int| 0 <= i < rest.len() && (#[trigger] rest[i]).0 == e.0;
        let b = choose|i: int| 0 <= i < rest.len() && (#[trigger] rest[i]).0 == e.1;
        let c = choose|i: int| 0 <= i < rest.len() && (#[trigger] rest[i]).1 == e.2;
        let d = choose|i: int| 0 <= i < rest.len() && (#[trigger] rest[i]).1 == e.3;
        assert(points[a] == rest[a] && points[b] == rest[b]);
        assert(points[c] == rest[c] && points[d] == rest[d]);
    } else {
        assert(extremes(rest).0.below(last.0) == false);
    }
}

/// A box of ordinary players: its middle is halfway between its ends, and its
/// two reaches are half the way between them.
pub proof fn law_box_is_centered(points: Seq<Point>)
    requires
        box_of(points) is Some,
        extremes(points).2.finite() && extremes(points).3.finite(),
        size(val(extremes(points).0)) <= 8 as real && size(val(extremes(points).1)) <= 8 as real,
        size(val(extremes(points).2)) <= 8 as real && size(val(extremes(points).3)) <= 8 as real,
    ensures
        ({
            let (b, e) = (box_of(points)->0, extremes(points));
            &&& nigh(b.0, (val(e.0) + val(e.1)) / 2 as real, 2 as real * notch())
            &&& nigh(b.1, (val(e.2) + val(e.3)) / 2 as real, 2 as real * notch())
            &&& nigh(b.2, (val(e.1) - val(e.0)) / 2 as real, 2 as real * notch())
            &&& nigh(b.3, (val(e.3) - val(e.2)) / 2 as real, 2 as real * notch())
        }),
{
    let e = extremes(points);
    lemma_half_sum(e.0, e.1);
    lemma_half_sum(e.2, e.3);
}

/// Half a sum and half a difference.
proof fn lemma_half_sum(a: F32, b: F32)
    requires
        a.finite() && b.finite(),
        size(val(a)) <= 8 as real && size(val(b)) <= 8 as real,
    ensures
        ({
            let half = F32 { bits: HALF };
            &&& nigh(half.times(a.plus(b)), (val(a) + val(b)) / 2 as real, 2 as real * notch())
            &&& nigh(half.times(b.minus(a)), (val(b) - val(a)) / 2 as real, 2 as real * notch())
        }),
{
    lemma_small_constants();
    let half = F32 { bits: HALF };
    let h = val(half);
    lemma_plus(a, b);
    lemma_minus(b, a);
    let (s, d) = (a.plus(b), b.minus(a));
    lemma_notch(val(s), val(a) + val(b));
    lemma_notch(val(d), val(b) - val(a));
    lemma_times(half, s);
    lemma_times(half, d);
    lemma_three(2 as real, h, val(s));
    lemma_three(2 as real, h, val(d));
    lemma_nothing(val(s));
    lemma_nothing(val(d));
    lemma_notch(val(half.times(s)), h * val(s));
    lemma_notch(val(half.times(d)), h * val(d));
}

/// In the density mode there is a group exactly when some player with a place has
/// enough players around them.
pub proof fn law_dense_group_is_found(c: FieldPannerConfig, points: Seq<Point>)
    requires
        c.min_cluster > 0,
    ensures
        densest(c, points).len() > 0 <==> points.len() >= c.min_cluster && exists|i: int|
            0 <= i < points.len() && placed(#[trigger] points[i]) && neighbours(
                points,
                points[i],
                radius_sq(c),
            ).len() >= c.min_cluster,
{
    law_center_is_densest(points, radius_sq(c), points.len());
    if let Some(i) = center_index(points, radius_sq(c), points.len()) {
        assert(placed(points[i]));
    }
}

/// In the trimmed mode the group is the players closest to the mean: as many as
/// are kept, and none of them farther from it than one who is left out.
pub proof fn law_trimmed_are_the_closest(c: FieldPannerConfig, points: Seq<Point>, m: (F32, F32))
    requires
        points.len() >= c.min_cluster,
        mean(
            c.confidence_weighted,
            points,
            F32 { bits: EMPTY_SUM },
        ) == Some(m),
        m.0.finite() && m.1.finite(),
        measurable(points, m.0, m.1),
    ensures
        ({
            let (kept, n) = (trimmed(c, points), keep_count(c, points.len()));
            exists|all: Seq<Point>|
                {
                    &&& all.to_multiset() == points.to_multiset()
                    &&& #[trigger] ascending(all, m.0, m.1)
                    &&& kept == all.take(n)
                }
        }),
        c.min_cluster <= keep_count(c, points.len()) <= points.len(),
        c.keep_fraction == (F32 { bits: ONE }) && points.len() < 0x100_0000 ==> keep_count(
            c,
            points.len(),
        ) == points.len(),
{
    law_by_distance_orders(points, m.0, m.1);
    let all = by_distance(points, m.0, m.1);
    assert(ascending(all, m.0, m.1));
    if c.keep_fraction == (F32 { bits: ONE }) && points.len() < 0x100_0000 {
        lemma_keep_all(points.len());
    }
}

/// All of a whole number is the whole number.
proof fn lemma_keep_all(n: nat)
    requires
        n < 0x100_0000,
    ensures
        F32::of_whole(n).times(F32 { bits: ONE }).to_nearest() == n,
{
    let one = F32 { bits: ONE };
    let x = F32::of_whole(n);
    law_small_whole_is_exact(n);
    reveal(F32::times);
    lemma_pow2_pos(149);
    lemma_pow2_adds(1, 149);
    lemma2_to64();
    lemma_one();
    let u = pow2(149) as int;
    let k = x.parts().key as int;
    let s = x.parts().size(Format::Single);
    law_rounding_keeps_order(Format::Single, s * u, u, k);
    lemma_rung_zero(23);
    assert(s == n * u);
    assert((2 * (n * u) + u) / (2 * u) == n) by (nonlinear_arith)
        requires
            u > 0,
    ;
}

} // verus!
