//! The tunable parameters of the field panner.
use crate::single::F32;
use crate::text::{folded, folds_to};
use vstd::prelude::*;

verus! {

/// What the panner frames.
#[derive(Clone, Copy, Debug, PartialEq, Eq, Structural)]
pub enum FramingMode {
    /// The cluster of players where the play is.
    Action,
    /// Every player.
    FrameAll,
}

impl Default for FramingMode {
    fn default() -> (r: Self)
        ensures
            r == FramingMode::Action,
    {
        FramingMode::Action
    }
}

/// How the players that form the cluster are chosen.
#[derive(Clone, Copy, Debug, PartialEq, Eq, Structural)]
pub enum ClusterMode {
    /// Those closest to the mean of all.
    TrimmedMean,
    /// The densest group.
    Density,
}

impl Default for ClusterMode {
    fn default() -> (r: Self)
        ensures
            r == ClusterMode::Density,
    {
        ClusterMode::Density
    }
}

/// The tunable parameters of the field panner.
#[derive(Clone, Copy, Debug, PartialEq, Eq, Structural)]
pub struct FieldPannerConfig {
    /// How the players that form the cluster are chosen.
    pub cluster_mode: ClusterMode,
    /// Radius, in radians, within which players count as neighbours of one
    /// another when the densest group is sought.
    pub cluster_bandwidth_rad: F32,
    /// The fraction of the players, closest to their mean, that is kept when
    /// the mean is trimmed; in `(0, 1]`.
    pub keep_fraction: F32,
    /// With fewer players than this there is no cluster.
    pub min_cluster: usize,
    /// Pushes the aim outward from the centroid by this fraction of its yaw.
    pub edge_push: F32,
    /// Fraction by which the zoom closes in on its target every frame.
    pub fov_alpha: F32,
    /// Pitch, in radians, that counts as near.
    pub pitch_near: F32,
    /// Pitch, in radians, that counts as far.
    pub pitch_far: F32,
    /// What the field of view gains, in degrees, at the far pitch.
    pub distance_bias_max: F32,
    /// The most that the field of view gains, in degrees, off the middle.
    pub edge_bias_max: F32,
    /// The tightest field of view, in degrees.
    pub fov_tight: F32,
    /// The widest field of view, in degrees.
    pub fov_wide: F32,
    /// The field of view, in degrees, before there is a cluster to size.
    pub fov_default: F32,
    /// Fraction by which the centroid closes in on its target every frame.
    pub cluster_alpha: F32,
    /// The fastest that the camera may turn, in radians per second.
    pub max_velocity_rad_per_sec: F32,
    /// Fraction by which the speed closes in on its target every frame.
    pub velocity_alpha: F32,
    /// Constant pitch, in radians, added to the centroid.
    pub pitch_bias: F32,
    /// What is left of the ball's presence after a frame without it nearby.
    pub ball_presence_decay: F32,
    /// How fast the ball's presence rises while it is near the cluster.
    pub ball_presence_attack: F32,
    /// The most that the field of view gains, in degrees, from speed.
    pub velocity_fov_bias_max: F32,
    /// Margin, in degrees, kept around the ball when zooming out for it.
    pub ball_frame_margin_deg: F32,
    /// Beyond this distance, in radians, from the centroid the ball is
    /// passed over.
    pub ball_max_dist_from_cluster: F32,
    /// How far the ball pulls the aim off the cluster, in `[0, 1]`.
    pub ball_weight: F32,
    /// How many times faster the chase runs once future frames are known.
    pub lookahead_reactivity: F32,
    /// The fraction of the foreseen displacement that is added to the aim.
    pub lead_gain: F32,
    /// Fraction by which the lead closes in on its target every frame.
    pub lead_alpha: F32,
    /// Radius, in radians, around the aim within which the camera holds.
    pub dead_zone_rad: F32,
    /// What is framed.
    pub framing: FramingMode,
    /// Whether the centroid weighs players by detection confidence.
    pub confidence_weighted: bool,
    /// Padding, in degrees on each side, around all players.
    pub frame_all_margin_deg: F32,
    /// Whether the tilt is held and only the yaw moves.
    pub lock_pitch: bool,
    /// The tilt, in radians, that is held.
    pub locked_pitch_rad: F32,
}

/// The parameters that suit football at thirty frames a second.
pub open spec fn default_config() -> FieldPannerConfig {
    FieldPannerConfig {
        cluster_mode: ClusterMode::Density,
        cluster_bandwidth_rad: F32 { bits: 0x3E99_999A },  // 0.3
        keep_fraction: F32 { bits: 0x3F4C_CCCD },  // 0.8
        min_cluster: 2,
        edge_push: F32 { bits: 0x3E19_999A },  // 0.15
        fov_alpha: F32 { bits: 0x3C23_D70A },  // 0.01
        pitch_near: F32 { bits: 0xBD4C_CCCD },  // -0.05
        pitch_far: F32 { bits: 0x3E4C_CCCD },  // 0.2
        distance_bias_max: F32 { bits: 0xC140_0000 },  // -12.0
        edge_bias_max: F32 { bits: 0x4080_0000 },  // 4.0
        fov_tight: F32 { bits: 0x41B0_0000 },  // 22.0
        fov_wide: F32 { bits: 0x4268_0000 },  // 58.0
        fov_default: F32 { bits: 0x4220_0000 },  // 40.0
        cluster_alpha: F32 { bits: 0x3C44_9BA6 },  // 0.012
        max_velocity_rad_per_sec: F32 { bits: 0x3E38_51EC },  // 0.18
        velocity_alpha: F32 { bits: 0x3D75_C28F },  // 0.06
        pitch_bias: F32 { bits: 0x3D4C_CCCD },  // 0.05
        ball_presence_decay: F32 { bits: 0x3F66_6666 },  // 0.9
        ball_presence_attack: F32 { bits: 0x3E19_999A },  // 0.15
        velocity_fov_bias_max: F32 { bits: 0x4120_0000 },  // 10.0
        ball_frame_margin_deg: F32 { bits: 0x4040_0000 },  // 3.0
        ball_max_dist_from_cluster: F32 { bits: 0x3F00_0000 },  // 0.5
        ball_weight: F32 { bits: 0x3F00_0000 },  // 0.5
        lookahead_reactivity: F32 { bits: 0x4020_0000 },  // 2.5
        lead_gain: F32 { bits: 0x3FA6_6666 },  // 1.3
        lead_alpha: F32 { bits: 0x3DCC_CCCD },  // 0.1
        dead_zone_rad: F32 { bits: 0x3E4C_CCCD },  // 0.2
        framing: FramingMode::Action,
        confidence_weighted: true,
        frame_all_margin_deg: F32 { bits: 0x4100_0000 },  // 8.0
        lock_pitch: false,
        locked_pitch_rad: F32 { bits: 0x0000_0000 },  // 0.0
    }
}

impl Default for FieldPannerConfig {
    fn default() -> (r: Self)
        ensures
            r == default_config(),
    {
        FieldPannerConfig {
            cluster_mode: ClusterMode::Density,
            cluster_bandwidth_rad: F32 { bits: 0x3E99_999A },  // 0.3
            keep_fraction: F32 { bits: 0x3F4C_CCCD },  // 0.8
            min_cluster: 2,
            edge_push: F32 { bits: 0x3E19_999A },  // 0.15
            fov_alpha: F32 { bits: 0x3C23_D70A },  // 0.01
            pitch_near: F32 { bits: 0xBD4C_CCCD },  // -0.05
            pitch_far: F32 { bits: 0x3E4C_CCCD },  // 0.2
            distance_bias_max: F32 { bits: 0xC140_0000 },  // -12.0
            edge_bias_max: F32 { bits: 0x4080_0000 },  // 4.0
            fov_tight: F32 { bits: 0x41B0_0000 },  // 22.0
            fov_wide: F32 { bits: 0x4268_0000 },  // 58.0
            fov_default: F32 { bits: 0x4220_0000 },  // 40.0
            cluster_alpha: F32 { bits: 0x3C44_9BA6 },  // 0.012
            max_velocity_rad_per_sec: F32 { bits: 0x3E38_51EC },  // 0.18
            velocity_alpha: F32 { bits: 0x3D75_C28F },  // 0.06
            pitch_bias: F32 { bits: 0x3D4C_CCCD },  // 0.05
            ball_presence_decay: F32 { bits: 0x3F66_6666 },  // 0.9
            ball_presence_attack: F32 { bits: 0x3E19_999A },  // 0.15
            velocity_fov_bias_max: F32 { bits: 0x4120_0000 },  // 10.0
            ball_frame_margin_deg: F32 { bits: 0x4040_0000 },  // 3.0
            ball_max_dist_from_cluster: F32 { bits: 0x3F00_0000 },  // 0.5
            ball_weight: F32 { bits: 0x3F00_0000 },  // 0.5
            lookahead_reactivity: F32 { bits: 0x4020_0000 },  // 2.5
            lead_gain: F32 { bits: 0x3FA6_6666 },  // 1.3
            lead_alpha: F32 { bits: 0x3DCC_CCCD },  // 0.1
            dead_zone_rad: F32 { bits: 0x3E4C_CCCD },  // 0.2
            framing: FramingMode::Action,
            confidence_weighted: true,
            frame_all_margin_deg: F32 { bits: 0x4100_0000 },  // 8.0
            lock_pitch: false,
            locked_pitch_rad: F32 { bits: 0x0000_0000 },  // 0.0
        }
    }
}

/// Zero.
pub const ZERO: u32 = 0x0000_0000;

/// One.
pub const ONE: u32 = 0x3F80_0000;

/// Ten.
pub const TEN: u32 = 0x4120_0000;

/// One thousandth.
pub const THOUSANDTH: u32 = 0x3A83_126F;

/// One hundredth.
pub const HUNDREDTH: u32 = 0x3C23_D70A;

/// A fraction that may be anything from one thousandth to one.
pub open spec fn ema_range(x: F32) -> F32 {
    x.clamped(F32 { bits: THOUSANDTH }, F32 { bits: ONE })
}

/// A weight from zero to one.
pub open spec fn unit_range(x: F32) -> F32 {
    x.clamped(F32 { bits: ZERO }, F32 { bits: ONE })
}

/// The lower end of the range of the field of view: the lesser of the two
/// bounds, but no less than one degree.
pub open spec fn fov_low(tight: F32, wide: F32) -> F32 {
    tight.lesser(wide).greater(F32 { bits: ONE })
}

/// The upper end of the range of the field of view.
pub open spec fn fov_high(tight: F32, wide: F32) -> F32 {
    tight.greater(wide).greater(fov_low(tight, wide))
}

/// Every parameter moved to the closest value of its range.
pub open spec fn sanitized_config(c: FieldPannerConfig) -> FieldPannerConfig {
    let lo = fov_low(c.fov_tight, c.fov_wide);
    let hi = fov_high(c.fov_tight, c.fov_wide);
    FieldPannerConfig {
        fov_tight: lo,
        fov_wide: hi,
        fov_default: c.fov_default.clamped(lo, hi),
        ball_weight: unit_range(c.ball_weight),
        keep_fraction: c.keep_fraction.clamped(F32 { bits: HUNDREDTH }, F32 { bits: ONE }),
        min_cluster: if c.min_cluster < 1 {
            1
        } else {
            c.min_cluster
        },
        cluster_bandwidth_rad: c.cluster_bandwidth_rad.greater(F32 { bits: THOUSANDTH }),
        dead_zone_rad: c.dead_zone_rad.greater(F32 { bits: ZERO }),
        ball_max_dist_from_cluster: c.ball_max_dist_from_cluster.greater(F32 { bits: ZERO }),
        lead_gain: c.lead_gain.greater(F32 { bits: ZERO }),
        lead_alpha: ema_range(c.lead_alpha),
        cluster_alpha: ema_range(c.cluster_alpha),
        fov_alpha: ema_range(c.fov_alpha),
        velocity_alpha: ema_range(c.velocity_alpha),
        lookahead_reactivity: c.lookahead_reactivity.clamped(
            F32 { bits: ONE },
            F32 { bits: TEN },
        ),
        ball_presence_decay: unit_range(c.ball_presence_decay),
        ball_presence_attack: unit_range(c.ball_presence_attack),
        ..c
    }
}

/// The parameters that a preset name stands for, case ignored.
pub open spec fn preset(name: Seq<char>) -> Option<FieldPannerConfig> {
    let n = folded(name);
    if n == "broadcast"@ {
        Some(broadcast_config())
    } else if n == "action"@ {
        Some(action_config())
    } else if n == "frame_all"@ {
        Some(frame_all_config())
    } else if n == "basketball"@ {
        Some(basketball_config())
    } else {
        None
    }
}

/// Calm, anticipating framing.
pub open spec fn broadcast_config() -> FieldPannerConfig {
    FieldPannerConfig {
        ball_weight: F32 { bits: 0x3E4C_CCCD },  // 0.2
        ..default_config()
    }
}

/// A tighter and quicker follow.
pub open spec fn action_config() -> FieldPannerConfig {
    FieldPannerConfig {
        dead_zone_rad: F32 { bits: 0x3DF5_C28F },  // 0.12
        fov_tight: F32 { bits: 0x41A0_0000 },  // 20.0
        fov_wide: F32 { bits: 0x4240_0000 },  // 48.0
        fov_default: F32 { bits: 0x4208_0000 },  // 34.0
        lookahead_reactivity: F32 { bits: 0x4040_0000 },  // 3.0
        ball_weight: F32 { bits: 0x3EB3_3333 },  // 0.35
        edge_push: F32 { bits: 0x3E4C_CCCD },  // 0.2
        ..default_config()
    }
}

/// Every player in frame.
pub open spec fn frame_all_config() -> FieldPannerConfig {
    FieldPannerConfig {
        framing: FramingMode::FrameAll,
        confidence_weighted: false,
        frame_all_margin_deg: F32 { bits: 0x4120_0000 },  // 10.0
        fov_wide: F32 { bits: 0x428C_0000 },  // 70.0
        ball_weight: F32 { bits: 0x0000_0000 },  // 0.0
        ..default_config()
    }
}

/// Indoor court sports followed by the ball alone: a small court makes the
/// same ball sweep a larger angle, so the chase is faster.
pub open spec fn basketball_config() -> FieldPannerConfig {
    FieldPannerConfig {
        dead_zone_rad: F32 { bits: 0x3DCC_CCCD },  // 0.1
        max_velocity_rad_per_sec: F32 { bits: 0x3E8F_5C29 },  // 0.28
        lookahead_reactivity: F32 { bits: 0x4060_0000 },  // 3.5
        fov_tight: F32 { bits: 0x4190_0000 },  // 18.0
        fov_wide: F32 { bits: 0x4230_0000 },  // 44.0
        fov_default: F32 { bits: 0x41F0_0000 },  // 30.0
        ball_weight: F32 { bits: 0x3F80_0000 },  // 1.0
        ..default_config()
    }
}

/// The names that `FieldPannerConfig::from_preset_name` knows.
pub const PRESET_NAMES: [&'static str; 4] = ["broadcast", "action", "frame_all", "basketball"];

impl FieldPannerConfig {
    /// Calm, anticipating framing.
    pub fn broadcast() -> (r: Self)
        ensures
            r == broadcast_config(),
    {
        let mut c: FieldPannerConfig = FieldPannerConfig::default();
        c.ball_weight = F32 { bits: 0x3E4C_CCCD };
        c
    }

    /// A tighter and quicker follow.
    pub fn action() -> (r: Self)
        ensures
            r == action_config(),
    {
        let mut c: FieldPannerConfig = FieldPannerConfig::default();
        c.dead_zone_rad = F32 { bits: 0x3DF5_C28F };
        c.fov_tight = F32 { bits: 0x41A0_0000 };
        c.fov_wide = F32 { bits: 0x4240_0000 };
        c.fov_default = F32 { bits: 0x4208_0000 };
        c.lookahead_reactivity = F32 { bits: 0x4040_0000 };
        c.ball_weight = F32 { bits: 0x3EB3_3333 };
        c.edge_push = F32 { bits: 0x3E4C_CCCD };
        c
    }

    /// Every player in frame.
    pub fn frame_all() -> (r: Self)
        ensures
            r == frame_all_config(),
    {
        let mut c: FieldPannerConfig = FieldPannerConfig::default();
        c.framing = FramingMode::FrameAll;
        c.confidence_weighted = false;
        c.frame_all_margin_deg = F32 { bits: 0x4120_0000 };
        c.fov_wide = F32 { bits: 0x428C_0000 };
        c.ball_weight = F32 { bits: 0x0000_0000 };
        c
    }

    /// Indoor court sports followed by the ball alone: a small court makes the
    /// same ball sweep a larger angle, so the chase is faster.
    pub fn basketball() -> (r: Self)
        ensures
            r == basketball_config(),
    {
        let mut c: FieldPannerConfig = FieldPannerConfig::default();
        c.dead_zone_rad = F32 { bits: 0x3DCC_CCCD };
        c.max_velocity_rad_per_sec = F32 { bits: 0x3E8F_5C29 };
        c.lookahead_reactivity = F32 { bits: 0x4060_0000 };
        c.fov_tight = F32 { bits: 0x4190_0000 };
        c.fov_wide = F32 { bits: 0x4230_0000 };
        c.fov_default = F32 { bits: 0x41F0_0000 };
        c.ball_weight = F32 { bits: 0x3F80_0000 };
        c
    }

    /// The parameters of the named preset, case ignored.
    pub fn from_preset_name(name: &str) -> (r: Option<Self>)
        ensures
            r == preset(name@),
    {
        if folds_to(name, "broadcast") {
            Some(FieldPannerConfig::broadcast())
        } else if folds_to(name, "action") {
            Some(FieldPannerConfig::action())
        } else if folds_to(name, "frame_all") {
            Some(FieldPannerConfig::frame_all())
        } else if folds_to(name, "basketball") {
            Some(FieldPannerConfig::basketball())
        } else {
            None
        }
    }

    /// Moves every parameter to the closest value of its range. What is not a
    /// number stays so, except where it is one bound of the field of view.
    #[must_use]
    pub fn sanitized(self) -> (r: Self)
        ensures
            r == sanitized_config(self),
            r.fov_tight.at_most(r.fov_wide),
            r.min_cluster >= 1,
    {
        let zero: F32 = F32::from_bits(ZERO);
        let one: F32 = F32::from_bits(ONE);
        let least: F32 = F32::from_bits(THOUSANDTH);
        let lo: F32 = self.fov_tight.min(self.fov_wide).max(one);
        let hi: F32 = self.fov_tight.max(self.fov_wide).max(lo);
        let mut c: FieldPannerConfig = self;
        c.fov_tight = lo;
        c.fov_wide = hi;
        c.fov_default = self.fov_default.clamp(lo, hi);
        c.ball_weight = self.ball_weight.clamp(zero, one);
        c.keep_fraction = self.keep_fraction.clamp(F32::from_bits(HUNDREDTH), one);
        c.min_cluster = if self.min_cluster < 1 {
            1
        } else {
            self.min_cluster
        };
        c.cluster_bandwidth_rad = self.cluster_bandwidth_rad.max(least);
        c.dead_zone_rad = self.dead_zone_rad.max(zero);
        c.ball_max_dist_from_cluster = self.ball_max_dist_from_cluster.max(zero);
        c.lead_gain = self.lead_gain.max(zero);
        c.lead_alpha = self.lead_alpha.clamp(least, one);
        c.cluster_alpha = self.cluster_alpha.clamp(least, one);
        c.fov_alpha = self.fov_alpha.clamp(least, one);
        c.velocity_alpha = self.velocity_alpha.clamp(least, one);
        c.lookahead_reactivity = self.lookahead_reactivity.clamp(one, F32::from_bits(TEN));
        c.ball_presence_decay = self.ball_presence_decay.clamp(zero, one);
        c.ball_presence_attack = self.ball_presence_attack.clamp(zero, one);
        c
    }
}

/// What is not a number, or lies from `lo` to `hi`.
pub open spec fn nan_or_within(x: F32, lo: F32, hi: F32) -> bool {
    x.nan() || (lo.at_most(x) && x.at_most(hi))
}

/// Every parameter that is a number lies in its range.
pub open spec fn in_range(s: FieldPannerConfig) -> bool {
    let zero = F32 { bits: ZERO };
    let one = F32 { bits: ONE };
    let least = F32 { bits: THOUSANDTH };
    &&& one.at_most(s.fov_tight)
    &&& s.fov_tight.at_most(s.fov_wide)
    &&& nan_or_within(s.fov_default, s.fov_tight, s.fov_wide)
    &&& nan_or_within(s.ball_weight, zero, one)
    &&& nan_or_within(s.keep_fraction, F32 { bits: HUNDREDTH }, one)
    &&& nan_or_within(s.lead_alpha, least, one)
    &&& nan_or_within(s.cluster_alpha, least, one)
    &&& nan_or_within(s.fov_alpha, least, one)
    &&& nan_or_within(s.velocity_alpha, least, one)
    &&& nan_or_within(s.lookahead_reactivity, one, F32 { bits: TEN })
    &&& nan_or_within(s.ball_presence_decay, zero, one)
    &&& nan_or_within(s.ball_presence_attack, zero, one)
    &&& least.at_most(s.cluster_bandwidth_rad)
    &&& zero.at_most(s.dead_zone_rad)
    &&& zero.at_most(s.ball_max_dist_from_cluster)
    &&& zero.at_most(s.lead_gain)
    &&& s.min_cluster >= 1
}

/// Every parameter that is a number lies in its range once sanitized; the
/// bounds of the field of view are numbers, in order and at least one degree,
/// whatever they were.
pub proof fn law_sanitized_in_range(c: FieldPannerConfig)
    ensures
        in_range(sanitized_config(c)),
{
}

/// Sanitizing twice is sanitizing once.
pub proof fn law_sanitized_idempotent(c: FieldPannerConfig)
    ensures
        sanitized_config(sanitized_config(c)) == sanitized_config(c),
{
}

/// Every preset, and the default, is already in range.
pub proof fn law_presets_are_sanitized()
    ensures
        sanitized_config(default_config()) == default_config(),
        sanitized_config(broadcast_config()) == broadcast_config(),
        sanitized_config(action_config()) == action_config(),
        sanitized_config(frame_all_config()) == frame_all_config(),
        sanitized_config(basketball_config()) == basketball_config(),
{
}

/// Two names that differ only in case stand for the same preset.
pub proof fn law_preset_ignores_case(a: Seq<char>, b: Seq<char>)
    requires
        folded(a) == folded(b),
    ensures
        preset(a) == preset(b),
{
}

/// A name stands for a preset exactly if, case ignored, it is one of those that
/// are listed.
pub proof fn law_listed_names_are_presets(name: Seq<char>)
    ensures
        preset(name) is Some <==> exists|i: int|
            0 <= i < 4 && folded(name) == (#[trigger] PRESET_NAMES[i])@,
{
    assert(PRESET_NAMES[0]@ == "broadcast"@);
    assert(PRESET_NAMES[1]@ == "action"@);
    assert(PRESET_NAMES[2]@ == "frame_all"@);
    assert(PRESET_NAMES[3]@ == "basketball"@);
}

} // verus!
