//! What trackers report and what a panner answers.
use crate::calibration::MatchCalibration;
use crate::double::F64;
use crate::single::F32;
use vstd::prelude::*;

verus! {

/// Which camera saw something.
#[derive(Clone, Copy, Debug, PartialEq, Eq, Structural)]
pub enum CameraId {
    Left,
    Right,
}

/// Whether a tracked thing is still seen.
#[derive(Clone, Copy, Debug, PartialEq, Eq, Structural)]
pub enum TrackState {
    Tracking,
    /// Reported one last time.
    Lost,
}

/// A player or a ball, at an angle in the panorama.
#[derive(Clone, Copy, Debug, PartialEq, Eq, Structural)]
pub struct TrackedEntity {
    pub id: u64,
    pub class_id: u16,
    pub yaw: F32,
    pub pitch: F32,
    pub confidence: F32,
    pub state: TrackState,
    pub age_frames: u32,
    pub origin: CameraId,
}

impl TrackedEntity {
    /// Not reported for the last time.
    pub open spec fn live(self) -> bool {
        self.state != TrackState::Lost
    }

    /// Whether this is not reported for the last time.
    pub fn is_live(&self) -> (r: bool)
        ensures
            r == self.live(),
    {
        match self.state {
            TrackState::Lost => false,
            TrackState::Tracking => true,
        }
    }
}

/// Everything that is tracked in one frame.
#[derive(Clone, Debug)]
pub struct WorldState {
    pub ball: Option<TrackedEntity>,
    pub players: Vec<TrackedEntity>,
}

impl WorldState {
    /// The ball, unless it is reported for the last time.
    pub open spec fn live_ball(self) -> Option<TrackedEntity> {
        match self.ball {
            Some(b) => if b.live() {
                Some(b)
            } else {
                None
            },
            None => None,
        }
    }

    /// The ball, unless it is reported for the last time.
    pub fn get_live_ball(&self) -> (r: Option<TrackedEntity>)
        ensures
            r == self.live_ball(),
    {
        match self.ball {
            Some(b) => if b.is_live() {
                Some(b)
            } else {
                None
            },
            None => None,
        }
    }
}

/// Where the virtual camera looks, and how wide.
#[derive(Clone, Copy, Debug, PartialEq, Eq, Structural)]
pub struct ViewportPosition {
    pub yaw: F32,
    pub pitch: F32,
    pub fov_degrees: Option<F32>,
}

impl Default for ViewportPosition {
    fn default() -> (r: Self)
        ensures
            r == (ViewportPosition {
                yaw: F32 { bits: 0 },
                pitch: F32 { bits: 0 },
                fov_degrees: None,
            }),
    {
        ViewportPosition { yaw: F32::from_bits(0), pitch: F32::from_bits(0), fov_degrees: None }
    }
}

/// What a panner may know besides the tracked things.
#[derive(Clone, Copy, Debug)]
pub struct PanContext<'a> {
    pub frame_index: u64,
    pub timestamp_ms: F64,
    pub previous_position: ViewportPosition,
    pub calibration: &'a MatchCalibration,
}

/// What a panner reports of its last decision.
#[derive(Clone, Copy, Debug, PartialEq, Eq, Structural)]
pub enum PipelineEvent {
    PannerDebug {
        frame_index: u64,
        cluster_yaw: F32,
        cluster_pitch: F32,
        cluster_spread: F32,
        n_players: u32,
        ball_near_cluster: bool,
        ball_presence: F32,
        effective_ball_weight: F32,
        target_yaw: F32,
        target_pitch: F32,
        fov_target: F32,
    },
}

} // verus!
