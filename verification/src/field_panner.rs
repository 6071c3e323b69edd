//! Follows the play with a virtual camera.
//!
//! Every frame the panner takes the live players, resolves a point to look at
//! (the cluster of players, drawn towards the ball; or the middle of the box
//! around all players; or the ball alone), leads it towards where the play is
//! heading, chases it with bounded speed, and sizes the field of view.
use crate::cluster::{
    add_up, added, bounding_box, box_of, core_of, densest, distance_sq, find_densest, mean,
    mean_of, measure_sq, points_of, select_core, to_points, trim, trimmed, Column, Point,
    EMPTY_SUM,
};
use crate::panner_config::{
    default_config, fov_high, fov_low, sanitized_config, FieldPannerConfig, FramingMode,
    HUNDREDTH, ONE, THOUSANDTH, ZERO,
};
use crate::single::F32;
use crate::world::{PanContext, PipelineEvent, TrackedEntity, ViewportPosition, WorldState};
use vstd::prelude::*;

verus! {

/// A group of players: its middle, how far it reaches, how many it has.
#[derive(Clone, Copy, Debug, PartialEq, Eq, Structural)]
pub struct Cluster {
    pub yaw: F32,
    pub pitch: F32,
    pub spread: F32,
    pub count: usize,
}

/// What the last decision rested on.
#[derive(Clone, Copy, Debug, PartialEq, Eq, Structural)]
pub struct FieldPannerDebug {
    pub cluster_yaw: F32,
    pub cluster_pitch: F32,
    pub cluster_spread: F32,
    pub n_players: u32,
    pub ball_near_cluster: bool,
    pub ball_presence: F32,
    pub effective_ball_weight: F32,
    pub target_yaw: F32,
    pub target_pitch: F32,
    pub fov_target: F32,
}

/// A panner that follows the densest group of players.
#[derive(Clone, Copy, Debug, PartialEq, Eq, Structural)]
pub struct FieldPanner {
    pub config: FieldPannerConfig,
    pub yaw: F32,
    pub pitch: F32,
    pub current_fov: F32,
    pub ema_yaw: F32,
    pub ema_pitch: F32,
    pub ema_initialized: bool,
    pub velocity_yaw: F32,
    pub velocity_pitch: F32,
    pub max_velocity: F32,
    pub ball_presence: F32,
    pub last_ball_yaw: F32,
    pub last_ball_pitch: F32,
    pub lead_yaw: F32,
    pub lead_pitch: F32,
    pub frame_index: u64,
    pub lookahead_active: bool,
    pub last_debug: Option<FieldPannerDebug>,
}

/// The bit pattern of two.
pub const TWO: u32 = 0x4000_0000;

/// The bit pattern of five.
pub const FIVE: u32 = 0x40A0_0000;

/// The bit pattern of one millionth.
pub const MILLIONTH: u32 = 0x3586_37BD;

/// The bit pattern of one thousand.
pub const THOUSAND: u32 = 0x447A_0000;

/// The bit pattern of thirty.
pub const THIRTY: u32 = 0x41F0_0000;

/// How far the farthest player of a group is from a place.
pub open spec fn reach(core: Seq<Point>, yaw: F32, pitch: F32) -> F32
    decreases core.len(),
{
    if core.len() == 0 {
        F32 { bits: ZERO }
    } else {
        reach(core.drop_last(), yaw, pitch).greater(distance_sq(core.last(), yaw, pitch).root())
    }
}

/// One step from `from` towards `to`: the given fraction of the way.
pub open spec fn eased(from: F32, to: F32, alpha: F32) -> F32 {
    from.plus(alpha.times(to.minus(from)))
}

/// An error with the dead zone taken off it.
pub open spec fn softened(err: F32, err_yaw: F32, err_pitch: F32, dz: F32) -> F32 {
    let mag = err_yaw.times(err_yaw).plus(err_pitch.times(err_pitch)).root();
    if (F32 { bits: ZERO }).below(dz) && (F32 { bits: MILLIONTH }).below(mag) {
        err.times(mag.minus(dz).greater(F32 { bits: ZERO }).over(mag))
    } else {
        err
    }
}

/// The number of the futures that show something to look at, and the sums of
/// what they show.
pub open spec fn foreseen(panner: FieldPanner, future: Seq<WorldState>) -> (nat, F32, F32)
    decreases future.len(),
{
    if future.len() == 0 {
        (0, F32 { bits: ZERO }, F32 { bits: ZERO })
    } else {
        let rest = foreseen(panner, future.drop_last());
        match panner.glance(future.last()) {
            Some(t) => (rest.0 + 1, rest.1.plus(t.0), rest.2.plus(t.1)),
            None => rest,
        }
    }
}

impl FieldPanner {
    /// The bounds of the field of view are numbers and in order.
    pub open spec fn wf(self) -> bool {
        self.config.fov_tight.at_most(self.config.fov_wide)
    }

    /// The state once a frame has been counted.
    pub open spec fn begun(self, lookahead: bool) -> FieldPanner {
        FieldPanner {
            lookahead_active: self.lookahead_active || lookahead,
            frame_index: self.frame_index.wrapping_add(1),
            ..self
        }
    }

    /// How many times faster the chase runs.
    pub open spec fn reactivity(self) -> F32 {
        if self.lookahead_active {
            self.config.lookahead_reactivity.greater(F32 { bits: ONE })
        } else {
            F32 { bits: ONE }
        }
    }

    /// The state once the centroid has moved towards a place.
    pub open spec fn drawn_to(self, yaw: F32, pitch: F32) -> FieldPanner {
        if self.ema_initialized {
            FieldPanner {
                ema_yaw: eased(self.ema_yaw, yaw, self.config.cluster_alpha),
                ema_pitch: eased(self.ema_pitch, pitch, self.config.cluster_alpha),
                ..self
            }
        } else {
            FieldPanner { ema_yaw: yaw, ema_pitch: pitch, ema_initialized: true, ..self }
        }
    }

    /// The state once the centroid has moved towards the mean of a group; an
    /// unusable mean moves nothing.
    pub open spec fn drawn_to_mean(self, core: Seq<Point>) -> FieldPanner {
        match mean(self.config.confidence_weighted, core, F32 { bits: ZERO }) {
            Some(m) => if m.0.finite() && m.1.finite() {
                self.drawn_to(m.0, m.1)
            } else {
                self
            },
            None => self,
        }
    }

    /// The cluster of the play, and the state once the centroid has moved.
    pub open spec fn action_cluster(self, points: Seq<Point>) -> (Option<Cluster>, FieldPanner) {
        let core = core_of(self.config, points);
        if core.len() == 0 {
            (None, self)
        } else {
            let s = self.drawn_to_mean(core);
            (
                Some(
                    Cluster {
                        yaw: s.ema_yaw,
                        pitch: s.ema_pitch,
                        spread: reach(core, s.ema_yaw, s.ema_pitch),
                        count: core.len() as usize,
                    },
                ),
                s,
            )
        }
    }

    /// All players as one cluster, and the state once the centroid has moved.
    pub open spec fn team_cluster(self, points: Seq<Point>) -> (Option<Cluster>, FieldPanner) {
        if points.len() < self.config.min_cluster {
            (None, self)
        } else {
            match box_of(points) {
                None => (None, self),
                Some(b) => {
                    let s = self.drawn_to(b.0, b.1);
                    (
                        Some(
                            Cluster {
                                yaw: s.ema_yaw,
                                pitch: s.ema_pitch,
                                spread: b.2.greater(b.3),
                                count: points.len() as usize,
                            },
                        ),
                        s,
                    )
                },
            }
        }
    }

    /// The cluster of a frame, and the state once the centroid has moved.
    pub open spec fn clustered(self, players: Seq<TrackedEntity>) -> (
        Option<Cluster>,
        FieldPanner,
    ) {
        match self.config.framing {
            FramingMode::Action => self.action_cluster(points_of(players)),
            FramingMode::FrameAll => self.team_cluster(points_of(players)),
        }
    }

    /// Where a frame draws the eye, without any smoothing: the group, else
    /// the live ball.
    pub open spec fn glance(self, world: WorldState) -> Option<(F32, F32)> {
        let ball = match world.live_ball() {
            Some(b) => Some((b.yaw, b.pitch)),
            None => None,
        };
        let points = points_of(world.players@);
        match self.config.framing {
            FramingMode::Action => {
                let core = core_of(self.config, points);
                let w = self.config.confidence_weighted;
                let none = F32 { bits: EMPTY_SUM };
                let total = added(w, core, Column::Weight, none);
                if core.len() > 0 && (F32 { bits: ZERO }).below(total) {
                    Some(
                        (
                            added(w, core, Column::Yaw, none).over(total).times(
                                F32 { bits: ONE }.plus(self.config.edge_push),
                            ),
                            added(w, core, Column::Pitch, none).over(total).plus(
                                self.config.pitch_bias,
                            ),
                        ),
                    )
                } else {
                    ball
                }
            },
            FramingMode::FrameAll => if points.len() >= self.config.min_cluster {
                match box_of(points) {
                    Some(b) => Some((b.0, b.1)),
                    None => ball,
                }
            } else {
                ball
            },
        }
    }

    /// The ball that is followed: a live one, where the ball has weight.
    pub open spec fn followed_ball(self, world: WorldState) -> Option<TrackedEntity> {
        if (F32 { bits: ZERO }).below(self.config.ball_weight) {
            world.live_ball()
        } else {
            None
        }
    }

    /// The followed ball is close to the cluster.
    pub open spec fn ball_near(self, ball: Option<TrackedEntity>, cluster: Option<Cluster>) -> bool {
        match (ball, cluster) {
            (Some(b), Some(c)) => {
                distance_sq((b.yaw, b.pitch, b.confidence), c.yaw, c.pitch).root().below(
                    self.config.ball_max_dist_from_cluster,
                )
            },
            _ => false,
        }
    }

    /// The state once the ball's presence has risen or fallen.
    pub open spec fn ball_noted(self, ball: Option<TrackedEntity>, near: bool) -> FieldPanner {
        let presence = if near {
            self.ball_presence.plus(
                self.config.ball_presence_attack.times(
                    F32 { bits: ONE }.minus(self.ball_presence),
                ),
            )
        } else {
            self.ball_presence.times(self.config.ball_presence_decay)
        };
        FieldPanner {
            last_ball_yaw: if near {
                ball->0.yaw
            } else {
                self.last_ball_yaw
            },
            last_ball_pitch: if near {
                ball->0.pitch
            } else {
                self.last_ball_pitch
            },
            ball_presence: presence.clamped(F32 { bits: ZERO }, F32 { bits: ONE }),
            ..self
        }
    }

    /// Where a cluster draws the aim, and with what weight the ball did.
    pub open spec fn cluster_aim(self, c: Cluster) -> (F32, F32, F32) {
        match self.config.framing {
            FramingMode::Action => {
                let yaw = c.yaw.times(F32 { bits: ONE }.plus(self.config.edge_push));
                let pitch = c.pitch.plus(self.config.pitch_bias);
                let w = self.config.ball_weight.times(self.ball_presence);
                if (F32 { bits: THOUSANDTH }).below(w) {
                    let rest = F32 { bits: ONE }.minus(w);
                    (
                        yaw.times(rest).plus(self.last_ball_yaw.times(w)),
                        pitch.times(rest).plus(self.last_ball_pitch.times(w)),
                        w,
                    )
                } else {
                    (yaw, pitch, w)
                }
            },
            FramingMode::FrameAll => (c.yaw, c.pitch, F32 { bits: ZERO }),
        }
    }

    /// What to look at: the cluster, else the followed ball.
    pub open spec fn first_target(
        self,
        ball: Option<TrackedEntity>,
        cluster: Option<Cluster>,
    ) -> Option<(F32, F32)> {
        match cluster {
            Some(c) => {
                let a = self.cluster_aim(c);
                Some((a.0, a.1))
            },
            None => match ball {
                Some(b) => Some((b.yaw, b.pitch)),
                None => None,
            },
        }
    }

    /// The state once the lead has moved towards where the play is heading.
    pub open spec fn led(
        self,
        world: WorldState,
        future: Seq<WorldState>,
        target: Option<(F32, F32)>,
    ) -> FieldPanner {
        let f = foreseen(self, future);
        match (target, self.glance(world)) {
            (Some(t), Some(now)) => if f.0 > 0 {
                let n = F32::of_whole(f.0);
                let g = self.config.lead_gain;
                let a = self.config.lead_alpha;
                FieldPanner {
                    lead_yaw: eased(self.lead_yaw, f.1.over(n).minus(now.0).times(g), a),
                    lead_pitch: eased(self.lead_pitch, f.2.over(n).minus(now.1).times(g), a),
                    ..self
                }
            } else {
                self
            },
            _ => self,
        }
    }

    /// The target with the lead added, where there is one, and with the tilt
    /// held, where that is asked for. `self` is the state after `led`.
    pub open spec fn final_target(
        self,
        world: WorldState,
        future: Seq<WorldState>,
        target: Option<(F32, F32)>,
    ) -> Option<(F32, F32)> {
        match target {
            None => None,
            Some(t) => {
                let leads = self.glance(world) is Some && foreseen(self, future).0 > 0;
                let yaw = if leads {
                    t.0.plus(self.lead_yaw)
                } else {
                    t.0
                };
                let pitch = if self.config.lock_pitch {
                    self.config.locked_pitch_rad
                } else if leads {
                    t.1.plus(self.lead_pitch)
                } else {
                    t.1
                };
                Some((yaw, pitch))
            },
        }
    }

    /// The fastest that the camera may turn in a frame.
    pub open spec fn speed_limit(self) -> F32 {
        self.max_velocity.times(self.reactivity())
    }

    /// The speed limit can bound a speed.
    pub open spec fn limit_holds(self) -> bool {
        !self.speed_limit().nan() && self.speed_limit().place() >= 0
    }

    /// The state once the camera has moved towards a target; one that is not
    /// finite moves nothing.
    pub open spec fn chased(self, target: Option<(F32, F32)>) -> FieldPanner {
        match target {
            Some(t) => if t.0.finite() && t.1.finite() {
                let limit = self.speed_limit();
                let alpha = self.config.velocity_alpha.times(self.reactivity()).lesser(
                    F32 { bits: ONE },
                );
                let ey = t.0.minus(self.yaw);
                let ep = t.1.minus(self.pitch);
                let dz = self.config.dead_zone_rad;
                let vy = eased(
                    self.velocity_yaw,
                    softened(ey, ey, ep, dz).clamped(limit.negated(), limit),
                    alpha,
                );
                let vp = eased(
                    self.velocity_pitch,
                    softened(ep, ey, ep, dz).clamped(limit.negated(), limit),
                    alpha,
                );
                FieldPanner {
                    velocity_yaw: vy,
                    velocity_pitch: vp,
                    yaw: self.yaw.plus(vy),
                    pitch: self.pitch.plus(vp),
                    ..self
                }
            } else {
                self
            },
            None => self,
        }
    }

    /// The field of view that a group asks for.
    pub open spec fn wanted_fov(self, spread: F32, pitch: F32, speed: F32) -> F32 {
        let c = self.config;
        let two = F32 { bits: TWO };
        let zero = F32 { bits: ZERO };
        let one = F32 { bits: ONE };
        let fov = match c.framing {
            FramingMode::FrameAll => two.times(spread).degrees().plus(
                two.times(c.frame_all_margin_deg),
            ),
            FramingMode::Action => {
                let from_spread = two.times(spread.degrees()).greater(c.fov_tight);
                let far = pitch.minus(c.pitch_near).over(c.pitch_far.minus(c.pitch_near)).clamped(
                    zero,
                    one,
                );
                let edge = self.yaw.magnitude().times(F32 { bits: FIVE }).lesser(c.edge_bias_max);
                let fast = speed.over(self.max_velocity).clamped(zero, one);
                let sum = from_spread.plus(far.times(c.distance_bias_max)).plus(edge).plus(
                    fast.times(c.velocity_fov_bias_max),
                );
                if (F32 { bits: HUNDREDTH }).below(self.ball_presence) {
                    let off = distance_sq(
                        (self.last_ball_yaw, self.last_ball_pitch, zero),
                        self.yaw,
                        self.pitch,
                    ).root().degrees();
                    sum.greater(off.plus(c.ball_frame_margin_deg).times(two))
                } else {
                    sum
                }
            },
        };
        fov.clamped(c.fov_tight, c.fov_wide)
    }

    /// The field of view that a cluster asks for, from the state after the
    /// chase.
    pub open spec fn cluster_fov(self, c: Cluster) -> F32 {
        let speed = self.velocity_yaw.times(self.velocity_yaw).plus(
            self.velocity_pitch.times(self.velocity_pitch),
        ).root();
        self.wanted_fov(c.spread, c.pitch, speed)
    }

    /// The state once the field of view has moved; without a cluster it holds.
    pub open spec fn zoomed(
        self,
        cluster: Option<Cluster>,
        near: bool,
        aim: Option<(F32, F32, F32)>,
    ) -> FieldPanner {
        match (cluster, aim) {
            (Some(c), Some(a)) => {
                let fov = self.cluster_fov(c);
                FieldPanner {
                    current_fov: if fov.finite() {
                        eased(self.current_fov, fov, self.config.fov_alpha)
                    } else {
                        self.current_fov
                    },
                    last_debug: Some(
                        FieldPannerDebug {
                            cluster_yaw: c.yaw,
                            cluster_pitch: c.pitch,
                            cluster_spread: c.spread,
                            n_players: c.count as u32,
                            ball_near_cluster: near,
                            ball_presence: self.ball_presence,
                            effective_ball_weight: a.2,
                            target_yaw: a.0,
                            target_pitch: a.1,
                            fov_target: fov,
                        },
                    ),
                    ..self
                }
            },
            _ => FieldPanner { last_debug: None, ..self },
        }
    }

    /// The state once the ball has been noted.
    pub open spec fn noted(self, world: WorldState, lookahead: bool) -> FieldPanner {
        let (cluster, s) = self.begun(lookahead).clustered(world.players@);
        let ball = s.followed_ball(world);
        s.ball_noted(ball, s.ball_near(ball, cluster))
    }

    /// The cluster that a frame shows.
    pub open spec fn cluster_in(self, world: WorldState, lookahead: bool) -> Option<Cluster> {
        self.begun(lookahead).clustered(world.players@).0
    }

    /// The state before the chase, and the target of the chase.
    pub open spec fn aimed(self, world: WorldState, future: Seq<WorldState>) -> (
        FieldPanner,
        Option<(F32, F32)>,
    ) {
        let lookahead = future.len() > 0;
        let cluster = self.cluster_in(world, lookahead);
        let s = self.noted(world, lookahead);
        let first = s.first_target(s.followed_ball(world), cluster);
        let l = s.led(world, future, first);
        (l, l.final_target(world, future, first))
    }

    /// The state after a frame.
    pub open spec fn decided(self, world: WorldState, future: Seq<WorldState>) -> FieldPanner {
        let lookahead = future.len() > 0;
        let cluster = self.cluster_in(world, lookahead);
        let s = self.noted(world, lookahead);
        let ball = s.followed_ball(world);
        let (l, target) = self.aimed(world, future);
        l.chased(target).zoomed(
            cluster,
            s.ball_near(ball, cluster),
            match cluster {
                Some(c) => Some(s.cluster_aim(c)),
                None => None,
            },
        )
    }

    /// The frame can be decided: a finite target is chased at a speed that has
    /// a bound.
    pub open spec fn decidable(self, world: WorldState, future: Seq<WorldState>) -> bool {
        let (l, target) = self.aimed(world, future);
        match target {
            Some(t) => t.0.finite() && t.1.finite() ==> l.limit_holds(),
            None => true,
        }
    }

    /// What the camera does in a state.
    pub open spec fn position(self) -> ViewportPosition {
        ViewportPosition { yaw: self.yaw, pitch: self.pitch, fov_degrees: Some(self.current_fov) }
    }
}

/// One step from `from` towards `to`.
fn ease(from: F32, to: F32, alpha: F32) -> (r: F32)
    ensures
        r == eased(from, to, alpha),
{
    from.add(alpha.mul(to.sub(from)))
}

/// The box around the placed players: its middle and half its two sides.
pub fn bbox(points: &Vec<Point>) -> (r: Option<(F32, F32, F32, F32)>)
    ensures
        r == box_of(points@),
{
    bounding_box(points)
}

impl Default for FieldPanner {
    fn default() -> (r: Self)
        ensures
            r == new_panner(F32 { bits: THIRTY }, default_config()),
            r.wf(),
    {
        FieldPanner::new(F32::from_bits(THIRTY))
    }
}

/// A panner that has seen no frame yet.
pub open spec fn new_panner(fps: F32, config: FieldPannerConfig) -> FieldPanner {
    let zero = F32 { bits: ZERO };
    let c = sanitized_config(config);
    FieldPanner {
        config: c,
        yaw: zero,
        pitch: zero,
        current_fov: c.fov_default,
        ema_yaw: zero,
        ema_pitch: zero,
        ema_initialized: false,
        velocity_yaw: zero,
        velocity_pitch: zero,
        max_velocity: c.max_velocity_rad_per_sec.over(
            fps.clamped(F32 { bits: ONE }, F32 { bits: THOUSAND }),
        ),
        ball_presence: zero,
        last_ball_yaw: zero,
        last_ball_pitch: zero,
        lead_yaw: zero,
        lead_pitch: zero,
        frame_index: 0,
        lookahead_active: false,
        last_debug: None,
    }
}

impl FieldPanner {
    /// A panner with the default parameters.
    pub fn new(fps: F32) -> (r: Self)
        ensures
            r == new_panner(fps, default_config()),
            r.wf(),
    {
        FieldPanner::with_config(fps, FieldPannerConfig::default())
    }

    /// A panner with the given parameters, sanitized.
    pub fn with_config(fps: F32, config: FieldPannerConfig) -> (r: Self)
        ensures
            r == new_panner(fps, config),
            r.wf(),
    {
        let rate: F32 = fps.clamp(F32::from_bits(ONE), F32::from_bits(THOUSAND));
        let c: FieldPannerConfig = config.sanitized();
        let zero: F32 = F32::from_bits(ZERO);
        FieldPanner {
            config: c,
            yaw: zero,
            pitch: zero,
            current_fov: c.fov_default,
            ema_yaw: zero,
            ema_pitch: zero,
            ema_initialized: false,
            velocity_yaw: zero,
            velocity_pitch: zero,
            max_velocity: c.max_velocity_rad_per_sec.div(rate),
            ball_presence: zero,
            last_ball_yaw: zero,
            last_ball_pitch: zero,
            lead_yaw: zero,
            lead_pitch: zero,
            frame_index: 0,
            lookahead_active: false,
            last_debug: None,
        }
    }

    /// The same panner with another weight of the ball, held to zero to one.
    pub fn with_ball_weight(self, weight: F32) -> (r: Self)
        requires
            self.wf(),
        ensures
            r == (FieldPanner {
                config: (FieldPannerConfig {
                    ball_weight: weight.clamped(F32 { bits: ZERO }, F32 { bits: ONE }),
                    ..self.config
                }),
                ..self
            }),
            r.wf(),
    {
        let mut p: FieldPanner = self;
        p.config.ball_weight = weight.clamp(F32::from_bits(ZERO), F32::from_bits(ONE));
        p
    }

    /// The same panner with other bounds of the field of view, put in order
    /// and held to at least one degree.
    pub fn with_fov_range(self, tight: F32, wide: F32) -> (r: Self)
        ensures
            r == (FieldPanner {
                config: (FieldPannerConfig {
                    fov_tight: fov_low(tight, wide),
                    fov_wide: fov_high(tight, wide),
                    ..self.config
                }),
                ..self
            }),
            r.wf(),
    {
        let mut p: FieldPanner = self;
        p.config.fov_tight = tight.min(wide).max(F32::from_bits(ONE));
        p.config.fov_wide = tight.max(wide).max(p.config.fov_tight);
        p
    }

    /// The same panner with another smoothing of the centroid, held to one
    /// thousandth to one.
    pub fn with_cluster_alpha(self, alpha: F32) -> (r: Self)
        requires
            self.wf(),
        ensures
            r == (FieldPanner {
                config: (FieldPannerConfig {
                    cluster_alpha: alpha.clamped(F32 { bits: THOUSANDTH }, F32 { bits: ONE }),
                    ..self.config
                }),
                ..self
            }),
            r.wf(),
    {
        let mut p: FieldPanner = self;
        p.config.cluster_alpha = alpha.clamp(F32::from_bits(THOUSANDTH), F32::from_bits(ONE));
        p
    }

    /// The players closest to the mean of all.
    pub fn cluster_and_trim(&self, points: &Vec<Point>) -> (r: Vec<Point>)
        ensures
            r@ == trimmed(self.config, points@),
    {
        trim(&self.config, points)
    }

    /// The densest group of players.
    pub fn densest_cluster(&self, points: &Vec<Point>) -> (r: Vec<Point>)
        ensures
            r@ == densest(self.config, points@),
    {
        find_densest(&self.config, points)
    }

    /// Moves the centroid towards a place, and returns it.
    fn ema_step(&mut self, raw_yaw: F32, raw_pitch: F32) -> (r: (F32, F32))
        ensures
            *final(self) == old(self).drawn_to(raw_yaw, raw_pitch),
            r == (final(self).ema_yaw, final(self).ema_pitch),
    {
        if !self.ema_initialized {
            self.ema_yaw = raw_yaw;
            self.ema_pitch = raw_pitch;
            self.ema_initialized = true;
        } else {
            self.ema_yaw = ease(self.ema_yaw, raw_yaw, self.config.cluster_alpha);
            self.ema_pitch = ease(self.ema_pitch, raw_pitch, self.config.cluster_alpha);
        }
        (self.ema_yaw, self.ema_pitch)
    }

    /// Moves the centroid towards the mean of a group, and returns it.
    fn smooth_centroid(&mut self, core: &Vec<Point>) -> (r: (F32, F32))
        ensures
            *final(self) == old(self).drawn_to_mean(core@),
            r == (final(self).ema_yaw, final(self).ema_pitch),
    {
        match mean_of(self.config.confidence_weighted, core, F32::from_bits(ZERO)) {
            Some(m) => {
                if m.0.is_finite() && m.1.is_finite() {
                    return self.ema_step(m.0, m.1);
                }
            },
            None => {},
        }
        (self.ema_yaw, self.ema_pitch)
    }

    /// The cluster of the play.
    fn cluster_action(&mut self, points: &Vec<Point>) -> (r: Option<Cluster>)
        ensures
            (r, *final(self)) == old(self).action_cluster(points@),
    {
        let core: Vec<Point> = select_core(&self.config, points);
        if core.len() == 0 {
            return None;
        }
        let (yaw, pitch): (F32, F32) = self.smooth_centroid(&core);
        let mut spread: F32 = F32::from_bits(ZERO);
        assert(core@.take(0) =~= Seq::empty());
        for i in 0..core.len()
            invariant
                spread == reach(core@.take(i as int), yaw, pitch),
        {
            proof {
                assert(core@.take(i + 1).drop_last() =~= core@.take(i as int));
            }
            spread = spread.max(measure_sq(core[i], yaw, pitch).sqrt());
        }
        assert(core@.take(core@.len() as int) =~= core@);
        Some(Cluster { yaw, pitch, spread, count: core.len() })
    }

    /// All players as one cluster.
    fn cluster_frame_all(&mut self, points: &Vec<Point>) -> (r: Option<Cluster>)
        ensures
            (r, *final(self)) == old(self).team_cluster(points@),
    {
        if points.len() < self.config.min_cluster {
            return None;
        }
        match bounding_box(points) {
            None => None,
            Some(b) => {
                let (yaw, pitch): (F32, F32) = self.ema_step(b.0, b.1);
                Some(Cluster { yaw, pitch, spread: b.2.max(b.3), count: points.len() })
            },
        }
    }

    /// The cluster of a frame.
    fn compute_cluster(&mut self, players: &Vec<TrackedEntity>) -> (r: Option<Cluster>)
        ensures
            (r, *final(self)) == old(self).clustered(players@),
    {
        let points: Vec<Point> = to_points(players);
        match self.config.framing {
            FramingMode::Action => self.cluster_action(&points),
            FramingMode::FrameAll => self.cluster_frame_all(&points),
        }
    }

    /// Where a frame draws the eye, without any smoothing.
    pub fn raw_target(&self, world: &WorldState) -> (r: Option<(F32, F32)>)
        ensures
            r == self.glance(*world),
    {
        let points: Vec<Point> = to_points(&world.players);
        match self.config.framing {
            FramingMode::Action => {
                let core: Vec<Point> = select_core(&self.config, &points);
                let w: bool = self.config.confidence_weighted;
                let none: F32 = F32::from_bits(EMPTY_SUM);
                let total: F32 = add_up(w, &core, Column::Weight, none);
                if core.len() > 0 && F32::from_bits(ZERO).lt(total) {
                    let yaw: F32 = add_up(w, &core, Column::Yaw, none).div(total);
                    let pitch: F32 = add_up(w, &core, Column::Pitch, none).div(total);
                    return Some(
                        (
                            yaw.mul(F32::from_bits(ONE).add(self.config.edge_push)),
                            pitch.add(self.config.pitch_bias),
                        ),
                    );
                }
            },
            FramingMode::FrameAll => {
                if points.len() >= self.config.min_cluster {
                    match bounding_box(&points) {
                        Some(b) => {
                            return Some((b.0, b.1));
                        },
                        None => {},
                    }
                }
            },
        }
        match world.get_live_ball() {
            Some(b) => Some((b.yaw, b.pitch)),
            None => None,
        }
    }

    /// The field of view that a group asks for.
    pub fn target_fov(&self, spread: F32, pitch: F32, velocity_mag: F32) -> (r: F32)
        requires
            self.wf(),
        ensures
            r == self.wanted_fov(spread, pitch, velocity_mag),
    {
        let c: FieldPannerConfig = self.config;
        let two: F32 = F32::from_bits(TWO);
        let zero: F32 = F32::from_bits(ZERO);
        let one: F32 = F32::from_bits(ONE);
        match c.framing {
            FramingMode::FrameAll => {
                let extent: F32 = two.mul(spread).to_degrees();
                extent.add(two.mul(c.frame_all_margin_deg)).clamp(c.fov_tight, c.fov_wide)
            },
            FramingMode::Action => {
                let from_spread: F32 = two.mul(spread.to_degrees()).max(c.fov_tight);
                let far: F32 = pitch.sub(c.pitch_near).div(c.pitch_far.sub(c.pitch_near)).clamp(
                    zero,
                    one,
                );
                let edge: F32 = self.yaw.abs().mul(F32::from_bits(FIVE)).min(c.edge_bias_max);
                let fast: F32 = velocity_mag.div(self.max_velocity).clamp(zero, one);
                let mut fov: F32 = from_spread.add(far.mul(c.distance_bias_max)).add(edge).add(
                    fast.mul(c.velocity_fov_bias_max),
                );
                if F32::from_bits(HUNDREDTH).lt(self.ball_presence) {
                    let off: F32 = measure_sq(
                        (self.last_ball_yaw, self.last_ball_pitch, zero),
                        self.yaw,
                        self.pitch,
                    ).sqrt().to_degrees();
                    fov = fov.max(off.add(c.ball_frame_margin_deg).mul(two));
                }
                fov.clamp(c.fov_tight, c.fov_wide)
            },
        }
    }

    /// Whether the followed ball is close to the cluster.
    fn near_ball(&self, ball: Option<TrackedEntity>, cluster: Option<Cluster>) -> (r: bool)
        ensures
            r == self.ball_near(ball, cluster),
    {
        match (ball, cluster) {
            (Some(b), Some(c)) => {
                measure_sq((b.yaw, b.pitch, b.confidence), c.yaw, c.pitch).sqrt().lt(
                    self.config.ball_max_dist_from_cluster,
                )
            },
            _ => false,
        }
    }

    /// Lets the ball's presence rise or fall.
    fn note_ball(&mut self, ball: Option<TrackedEntity>, near: bool)
        requires
            near ==> ball is Some,
        ensures
            *final(self) == old(self).ball_noted(ball, near),
    {
        let one: F32 = F32::from_bits(ONE);
        let presence: F32 = if near {
            self.ball_presence.add(
                self.config.ball_presence_attack.mul(one.sub(self.ball_presence)),
            )
        } else {
            self.ball_presence.mul(self.config.ball_presence_decay)
        };
        if near {
            match ball {
                Some(b) => {
                    self.last_ball_yaw = b.yaw;
                    self.last_ball_pitch = b.pitch;
                },
                None => {},
            }
        }
        self.ball_presence = presence.clamp(F32::from_bits(ZERO), one);
    }

    /// Where a cluster draws the aim, and with what weight the ball did.
    fn aim_at(&self, c: &Cluster) -> (r: (F32, F32, F32))
        ensures
            r == self.cluster_aim(*c),
    {
        match self.config.framing {
            FramingMode::Action => {
                let one: F32 = F32::from_bits(ONE);
                let yaw: F32 = c.yaw.mul(one.add(self.config.edge_push));
                let pitch: F32 = c.pitch.add(self.config.pitch_bias);
                let w: F32 = self.config.ball_weight.mul(self.ball_presence);
                if F32::from_bits(THOUSANDTH).lt(w) {
                    let rest: F32 = one.sub(w);
                    (
                        yaw.mul(rest).add(self.last_ball_yaw.mul(w)),
                        pitch.mul(rest).add(self.last_ball_pitch.mul(w)),
                        w,
                    )
                } else {
                    (yaw, pitch, w)
                }
            },
            FramingMode::FrameAll => (c.yaw, c.pitch, F32::from_bits(ZERO)),
        }
    }

    /// Moves the lead towards where the play is heading, and returns the
    /// target with the lead added and the tilt held.
    fn lead_target(
        &mut self,
        world: &WorldState,
        future: &Vec<WorldState>,
        target: Option<(F32, F32)>,
    ) -> (r: Option<(F32, F32)>)
        requires
            future@.len() <= u32::MAX,
        ensures
            *final(self) == old(self).led(*world, future@, target),
            r == final(self).final_target(*world, future@, target),
    {
        let now: Option<(F32, F32)> = self.raw_target(world);
        let mut n: u32 = 0;
        let mut sum_yaw: F32 = F32::from_bits(ZERO);
        let mut sum_pitch: F32 = F32::from_bits(ZERO);
        assert(future@.take(0) =~= Seq::empty());
        for i in 0..future.len()
            invariant
                future@.len() <= u32::MAX,
                n <= i,
                (n as nat, sum_yaw, sum_pitch) == foreseen(*self, future@.take(i as int)),
        {
            proof {
                assert(future@.take(i + 1).drop_last() =~= future@.take(i as int));
            }
            match self.raw_target(&future[i]) {
                Some(t) => {
                    sum_yaw = sum_yaw.add(t.0);
                    sum_pitch = sum_pitch.add(t.1);
                    n = n + 1;
                },
                None => {},
            }
        }
        assert(future@.take(future@.len() as int) =~= future@);
        let mut out: Option<(F32, F32)> = target;
        let ghost before = *self;
        match (target, now) {
            (Some(t), Some(c)) => {
                if n > 0 {
                    let count: F32 = F32::from_whole(n as u64);
                    let g: F32 = self.config.lead_gain;
                    let a: F32 = self.config.lead_alpha;
                    let lead_yaw: F32 = ease(self.lead_yaw, sum_yaw.div(count).sub(c.0).mul(g), a);
                    let lead_pitch: F32 = ease(
                        self.lead_pitch,
                        sum_pitch.div(count).sub(c.1).mul(g),
                        a,
                    );
                    self.lead_yaw = lead_yaw;
                    self.lead_pitch = lead_pitch;
                    out = Some((t.0.add(lead_yaw), t.1.add(lead_pitch)));
                }
            },
            _ => {},
        }
        proof {
            lemma_glance_by_config(before, *self, *world);
            lemma_foreseen_by_config(before, *self, future@);
        }
        if self.config.lock_pitch {
            match out {
                Some(t) => {
                    out = Some((t.0, self.config.locked_pitch_rad));
                },
                None => {},
            }
        }
        out
    }

    /// Moves the camera towards a target.
    fn chase(&mut self, target: Option<(F32, F32)>)
        requires
            match target {
                Some(t) => t.0.finite() && t.1.finite() ==> old(self).limit_holds(),
                None => true,
            },
        ensures
            *final(self) == old(self).chased(target),
    {
        match target {
            Some(t) => {
                if t.0.is_finite() && t.1.is_finite() {
                    let one: F32 = F32::from_bits(ONE);
                    let reactivity: F32 = if self.lookahead_active {
                        self.config.lookahead_reactivity.max(one)
                    } else {
                        one
                    };
                    let limit: F32 = self.max_velocity.mul(reactivity);
                    let alpha: F32 = self.config.velocity_alpha.mul(reactivity).min(one);
                    let ey: F32 = t.0.sub(self.yaw);
                    let ep: F32 = t.1.sub(self.pitch);
                    let mut soft_yaw: F32 = ey;
                    let mut soft_pitch: F32 = ep;
                    let dz: F32 = self.config.dead_zone_rad;
                    let zero: F32 = F32::from_bits(ZERO);
                    if zero.lt(dz) {
                        let mag: F32 = ey.mul(ey).add(ep.mul(ep)).sqrt();
                        if F32::from_bits(MILLIONTH).lt(mag) {
                            let scale: F32 = mag.sub(dz).max(zero).div(mag);
                            soft_yaw = soft_yaw.mul(scale);
                            soft_pitch = soft_pitch.mul(scale);
                        }
                    }
                    let low: F32 = limit.neg();
                    let vy: F32 = ease(self.velocity_yaw, soft_yaw.clamp(low, limit), alpha);
                    let vp: F32 = ease(self.velocity_pitch, soft_pitch.clamp(low, limit), alpha);
                    self.velocity_yaw = vy;
                    self.velocity_pitch = vp;
                    self.yaw = self.yaw.add(vy);
                    self.pitch = self.pitch.add(vp);
                }
            },
            None => {},
        }
    }

    /// Moves the field of view, and keeps what the decision rested on.
    fn zoom(&mut self, cluster: Option<Cluster>, near: bool, aim: Option<(F32, F32, F32)>)
        requires
            old(self).wf(),
        ensures
            *final(self) == old(self).zoomed(cluster, near, aim),
    {
        match (cluster, aim) {
            (Some(c), Some(a)) => {
                let speed: F32 = self.velocity_yaw.mul(self.velocity_yaw).add(
                    self.velocity_pitch.mul(self.velocity_pitch),
                ).sqrt();
                let fov: F32 = self.target_fov(c.spread, c.pitch, speed);
                if fov.is_finite() {
                    self.current_fov = ease(self.current_fov, fov, self.config.fov_alpha);
                }
                self.last_debug = Some(
                    FieldPannerDebug {
                        cluster_yaw: c.yaw,
                        cluster_pitch: c.pitch,
                        cluster_spread: c.spread,
                        n_players: c.count as u32,
                        ball_near_cluster: near,
                        ball_presence: self.ball_presence,
                        effective_ball_weight: a.2,
                        target_yaw: a.0,
                        target_pitch: a.1,
                        fov_target: fov,
                    },
                );
            },
            _ => {
                self.last_debug = None;
            },
        }
    }

    /// Decides a frame without knowing any later one.
    pub fn decide(&mut self, world: &WorldState, ctx: &PanContext) -> (r: ViewportPosition)
        requires
            old(self).wf(),
            old(self).decidable(*world, Seq::empty()),
        ensures
            *final(self) == old(self).decided(*world, Seq::empty()),
            r == final(self).position(),
            final(self).wf(),
    {
        let none: Vec<WorldState> = Vec::new();
        assert(none@ =~= Seq::empty());
        self.decide_with_lookahead(world, &none, ctx)
    }

    /// Decides a frame, knowing the frames that follow it.
    pub fn decide_with_lookahead(
        &mut self,
        world: &WorldState,
        future: &Vec<WorldState>,
        _ctx: &PanContext,
    ) -> (r: ViewportPosition)
        requires
            old(self).wf(),
            old(self).decidable(*world, future@),
            future@.len() <= u32::MAX,
        ensures
            *final(self) == old(self).decided(*world, future@),
            r == final(self).position(),
            final(self).wf(),
    {
        self.lookahead_active = self.lookahead_active || future.len() > 0;
        self.frame_index = self.frame_index.wrapping_add(1);
        let cluster: Option<Cluster> = self.compute_cluster(&world.players);
        let ball: Option<TrackedEntity> = if F32::from_bits(ZERO).lt(self.config.ball_weight) {
            world.get_live_ball()
        } else {
            None
        };
        let near: bool = self.near_ball(ball, cluster);
        self.note_ball(ball, near);
        let aim: Option<(F32, F32, F32)> = match cluster {
            Some(c) => Some(self.aim_at(&c)),
            None => None,
        };
        let target: Option<(F32, F32)> = match aim {
            Some(a) => Some((a.0, a.1)),
            None => match ball {
                Some(b) => Some((b.yaw, b.pitch)),
                None => None,
            },
        };
        let led: Option<(F32, F32)> = self.lead_target(world, future, target);
        self.chase(led);
        self.zoom(cluster, near, aim);
        ViewportPosition {
            yaw: self.yaw,
            pitch: self.pitch,
            fov_degrees: Some(self.current_fov),
        }
    }

    /// What the last decision rested on, where it had a cluster.
    pub fn debug_event(&self, frame_index: u64) -> (r: Option<PipelineEvent>)
        ensures
            r == match self.last_debug {
                None => None,
                Some(d) => Some(
                    PipelineEvent::PannerDebug {
                        frame_index,
                        cluster_yaw: d.cluster_yaw,
                        cluster_pitch: d.cluster_pitch,
                        cluster_spread: d.cluster_spread,
                        n_players: d.n_players,
                        ball_near_cluster: d.ball_near_cluster,
                        ball_presence: d.ball_presence,
                        effective_ball_weight: d.effective_ball_weight,
                        target_yaw: d.target_yaw,
                        target_pitch: d.target_pitch,
                        fov_target: d.fov_target,
                    },
                ),
            },
    {
        match self.last_debug {
            None => None,
            Some(d) => Some(
                PipelineEvent::PannerDebug {
                    frame_index,
                    cluster_yaw: d.cluster_yaw,
                    cluster_pitch: d.cluster_pitch,
                    cluster_spread: d.cluster_spread,
                    n_players: d.n_players,
                    ball_near_cluster: d.ball_near_cluster,
                    ball_presence: d.ball_presence,
                    effective_ball_weight: d.effective_ball_weight,
                    target_yaw: d.target_yaw,
                    target_pitch: d.target_pitch,
                    fov_target: d.fov_target,
                },
            ),
        }
    }
}

/// Where a frame draws the eye depends on the parameters alone.
proof fn lemma_glance_by_config(a: FieldPanner, b: FieldPanner, world: WorldState)
    requires
        a.config == b.config,
    ensures
        a.glance(world) == b.glance(world),
{
}

proof fn lemma_foreseen_by_config(a: FieldPanner, b: FieldPanner, future: Seq<WorldState>)
    requires
        a.config == b.config,
    ensures
        foreseen(a, future) == foreseen(b, future),
    decreases future.len(),
{
    if future.len() > 0 {
        lemma_foreseen_by_config(a, b, future.drop_last());
        lemma_glance_by_config(a, b, future.last());
    }
}

} // verus!
