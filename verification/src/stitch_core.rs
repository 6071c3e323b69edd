//! The core that frames are pushed into: what is attached to it, where it
//! looks, and what it keeps.
use crate::calibration::MatchCalibration;
use crate::detect_target::{at_least_one, DetectionTarget, MappedDetection};
use crate::pipeline::{InputFormat, OutputFormat, StitchPipeline, ViewportConfig};
use crate::projection::{LShapeProjection, Projection};
use crate::replay::{recent, Duration, Reel, ReplayBuffer};
use crate::single::F32;
use crate::text::{decimal, push_decimal};
use crate::viewport::PanoramaExtent;
use crate::world::ViewportPosition;
use vstd::prelude::*;
use vstd::string::StringExecFns;

verus! {

/// How many cameras bring frames.
pub trait CameraInput {
    /// How many cameras bring frames.
    spec fn cameras(&self) -> u8;

    /// How many cameras bring frames.
    fn camera_count(&self) -> (r: u8)
        ensures
            r == self.cameras(),
    ;
}

/// Two cameras side by side.
#[derive(Clone, Copy, Debug)]
pub struct StereoCameraInput;

impl CameraInput for StereoCameraInput {
    open spec fn cameras(&self) -> u8 {
        2
    }

    fn camera_count(&self) -> (r: u8) {
        2
    }
}

/// Why a core cannot be made.
#[derive(Clone, Debug)]
pub enum StitchCoreError {
    /// The graphics processor refused.
    Pipeline(String),
    /// What was asked for does not fit together.
    Config(String),
}

/// What a core is made of.
pub struct StitchCoreConfig<J, I> {
    pub calibration: MatchCalibration,
    pub viewport: ViewportConfig,
    pub input_width: u32,
    pub input_height: u32,
    pub output_format: OutputFormat,
    pub input_format: InputFormat,
    /// The two-plane projection where none is given.
    pub projection: Option<J>,
    /// Two cameras where none is given.
    pub camera_input: Option<I>,
    /// No replay where none is given.
    pub replay_buffer_duration: Option<Duration>,
}

/// What part of the panorama the cameras cover: how wide a view may be, and
/// how far it reaches sideways and up and down.
#[derive(Clone, Copy, Debug)]
pub struct CoverageBoundary {
    pub max_fov: F32,
    pub yaw: (F32, F32),
    pub pitch: (F32, F32),
}

impl CoverageBoundary {
    /// How wide a view may be.
    pub fn max_fov_degrees(&self) -> (r: F32)
        ensures
            r == self.max_fov,
    {
        self.max_fov
    }

    /// How far it reaches sideways.
    pub fn yaw_range(&self) -> (r: (F32, F32))
        ensures
            r == self.yaw,
    {
        self.yaw
    }

    /// How far it reaches up and down.
    pub fn pitch_range(&self) -> (r: (F32, F32))
        ensures
            r == self.pitch,
    {
        self.pitch
    }
}

/// A position moved into the covered part.
#[derive(Clone, Copy, Debug, PartialEq, Eq, Structural)]
pub struct ClampedPosition {
    pub yaw: F32,
    pub pitch: F32,
}

/// What the covered part is asked for.
#[derive(Clone, Copy, Debug, PartialEq, Eq, Structural)]
pub struct ClampQuery {
    pub yaw: F32,
    pub pitch: F32,
    pub fov_degrees: F32,
    pub aspect: F32,
}

/// The core. `T` is a tracker, `P` a panner, `D` a detector, and `G` what the
/// graphics processor is reached through.
pub struct StitchCore<T, P, D, G> {
    pub pipeline: StitchPipeline<G>,
    pub output_width: u32,
    pub output_height: u32,
    pub projection_name: &'static str,
    pub cameras: u8,
    pub coverage: Option<CoverageBoundary>,
    pub ball_tracker: Option<T>,
    pub player_tracker: Option<T>,
    pub panner: Option<P>,
    pub previous_panner_pose: ViewportPosition,
    pub detector: Option<D>,
    pub detection_interval: u64,
    pub last_detections: Vec<MappedDetection>,
    pub replay: Option<ReplayBuffer>,
    pub constrained_look: bool,
    pub frame_count: u64,
    /// When the first frame was submitted.
    pub session_start: Option<Duration>,
}

/// How many cameras a projection takes; two where none is given.
pub open spec fn projected<J: Projection>(projection: Option<J>) -> u8 {
    match projection {
        Some(p) => p.cameras(),
        None => 2,
    }
}

/// The name of a projection; that of the two-plane one where none is given.
pub open spec fn projection_label<J: Projection>(projection: Option<J>) -> Seq<char> {
    match projection {
        Some(p) => p.label(),
        None => "l-shape-stereo-2camera"@,
    }
}

/// How many cameras bring frames; two where none is given.
pub open spec fn brought<I: CameraInput>(input: Option<I>) -> u8 {
    match input {
        Some(i) => i.cameras(),
        None => 2,
    }
}

/// What is said where as many cameras bring frames as `brought`, and the
/// projection takes another number.
pub open spec fn mismatch(brought: u8, projected: u8) -> Seq<char> {
    "camera_input.camera_count() = "@ + decimal(brought as nat)
        + " but projection.camera_count() = "@ + decimal(projected as nat)
        + "; these must match so StitchCore receives one frame per camera plane"@
}

impl<T, P, D, G> StitchCore<T, P, D, G> {
    /// Holds of every core.
    pub open spec fn wf(self) -> bool {
        &&& self.detection_interval >= 1
        &&& self.replay matches Some(b) ==> b.wf()
    }

    /// Makes a core. `gpu_ready` says whether the graphics processor could be
    /// set up, and if not, why; `coverage` is what the calibration covers.
    pub fn new<J: Projection, I: CameraInput>(
        gpu: G,
        gpu_name: String,
        config: StitchCoreConfig<J, I>,
        gpu_ready: Result<(), String>,
        coverage: CoverageBoundary,
    ) -> (r: Result<Self, StitchCoreError>)
        requires
            config.replay_buffer_duration matches Some(d) ==> d.wf(),
        ensures
            match gpu_ready {
                Err(why) => r matches Err(StitchCoreError::Pipeline(e)) && e@ == why@,
                Ok(_) => if brought(config.camera_input) != projected(config.projection) {
                    r matches Err(StitchCoreError::Config(e)) && e@ == mismatch(
                        brought(config.camera_input),
                        projected(config.projection),
                    )
                } else {
                    &&& r matches Ok(core)
                    &&& core.wf()
                    &&& core.pipeline == (StitchPipeline {
                        gpu,
                        gpu_name,
                        calibration: config.calibration,
                        viewport: config.viewport,
                        input_width: config.input_width,
                        input_height: config.input_height,
                    })
                    &&& core.output_width == config.viewport.width
                    &&& core.output_height == config.viewport.height
                    &&& core.projection_name@ == projection_label(config.projection)
                    &&& core.cameras == brought(config.camera_input)
                    &&& core.coverage == Some(coverage)
                    &&& core.ball_tracker is None && core.player_tracker is None
                    &&& core.panner is None && core.detector is None
                    &&& core.previous_panner_pose == (ViewportPosition {
                        yaw: F32 { bits: 0 },
                        pitch: F32 { bits: 0 },
                        fov_degrees: None,
                    })
                    &&& core.detection_interval == 1
                    &&& core.last_detections@.len() == 0
                    &&& core.constrained_look
                    &&& core.frame_count == 0
                    &&& core.session_start is None
                    &&& match config.replay_buffer_duration {
                        Some(d) => core.replay matches Some(b) && b.window == d && b@ == (
                        Reel { shots: Seq::empty(), window: d@ }),
                        None => core.replay is None,
                    }
                },
            },
    {
        if let Err(why) = gpu_ready {
            return Err(StitchCoreError::Pipeline(why));
        }
        let (projection_name, projected) = match &config.projection {
            Some(p) => (p.name(), p.camera_count()),
            None => (LShapeProjection.name(), LShapeProjection.camera_count()),
        };
        let cameras = match &config.camera_input {
            Some(i) => i.camera_count(),
            None => StereoCameraInput.camera_count(),
        };
        if cameras != projected {
            let mut e: String = String::from_str("camera_input.camera_count() = ");
            push_decimal(&mut e, cameras as u64);
            e.append(" but projection.camera_count() = ");
            push_decimal(&mut e, projected as u64);
            e.append("; these must match so StitchCore receives one frame per camera plane");
            return Err(StitchCoreError::Config(e));
        }
        let replay = match config.replay_buffer_duration {
            Some(d) => Some(ReplayBuffer::new(d)),
            None => None,
        };
        Ok(
            StitchCore {
                output_width: config.viewport.width,
                output_height: config.viewport.height,
                pipeline: StitchPipeline {
                    gpu,
                    gpu_name,
                    calibration: config.calibration,
                    viewport: config.viewport,
                    input_width: config.input_width,
                    input_height: config.input_height,
                },
                projection_name,
                cameras,
                coverage: Some(coverage),
                ball_tracker: None,
                player_tracker: None,
                panner: None,
                previous_panner_pose: ViewportPosition::default(),
                detector: None,
                detection_interval: 1,
                last_detections: Vec::new(),
                replay,
                constrained_look: true,
                frame_count: 0,
                session_start: None,
            },
        )
    }

    /// Sets the tracker of the ball, in place of any other.
    pub fn set_ball_tracker(&mut self, tracker: T)
        ensures
            *final(self) == (StitchCore { ball_tracker: Some(tracker), ..*old(self) }),
    {
        self.ball_tracker = Some(tracker);
    }

    /// Takes the tracker of the ball away.
    pub fn clear_ball_tracker(&mut self)
        ensures
            *final(self) == (StitchCore { ball_tracker: None, ..*old(self) }),
    {
        self.ball_tracker = None;
    }

    /// Sets the tracker of the players, in place of any other.
    pub fn set_player_tracker(&mut self, tracker: T)
        ensures
            *final(self) == (StitchCore { player_tracker: Some(tracker), ..*old(self) }),
    {
        self.player_tracker = Some(tracker);
    }

    /// Takes the tracker of the players away.
    pub fn clear_player_tracker(&mut self)
        ensures
            *final(self) == (StitchCore { player_tracker: None, ..*old(self) }),
    {
        self.player_tracker = None;
    }

    /// Sets the panner, in place of any other.
    pub fn set_panner(&mut self, panner: P)
        ensures
            *final(self) == (StitchCore { panner: Some(panner), ..*old(self) }),
    {
        self.panner = Some(panner);
    }

    /// Takes the panner away.
    pub fn clear_panner(&mut self)
        ensures
            *final(self) == (StitchCore { panner: None, ..*old(self) }),
    {
        self.panner = None;
    }

    /// Sets the detector, in place of any other.
    pub fn set_detector(&mut self, detector: D)
        ensures
            *final(self) == (StitchCore { detector: Some(detector), ..*old(self) }),
    {
        self.detector = Some(detector);
    }

    /// Takes the detector away, and forgets what it saw last.
    pub fn clear_detector(&mut self)
        ensures
            final(self).last_detections@.len() == 0,
            *final(self) == (StitchCore {
                detector: None,
                last_detections: final(self).last_detections,
                ..*old(self)
            }),
    {
        self.detector = None;
        self.last_detections.clear();
    }

    /// Sets on every how many frames detection runs; at least on each.
    pub fn set_detection_interval(&mut self, interval: u64)
        ensures
            *final(self) == (StitchCore {
                detection_interval: at_least_one(interval),
                ..*old(self)
            }),
    {
        self.detection_interval = if interval < 1 {
            1
        } else {
            interval
        };
    }

    /// On every how many frames detection runs.
    pub fn detection_interval(&self) -> (r: u64)
        ensures
            r == self.detection_interval,
    {
        self.detection_interval
    }

    /// The angle of view that a pose comes to: its own or the present one, and
    /// no wider than the covered part allows.
    pub open spec fn fov_for(self, pose: ViewportPosition, coverage: CoverageBoundary) -> F32 {
        (match pose.fov_degrees {
            Some(f) => f,
            None => self.pipeline.viewport.fov_degrees,
        }).lesser(coverage.max_fov)
    }

    /// A pose moved into the covered part, `clamped` being where that lies.
    pub open spec fn clamped_pose(self, pose: ViewportPosition, clamped: ClampedPosition)
        -> ViewportPosition {
        match self.coverage {
            Some(c) => ViewportPosition {
                yaw: clamped.yaw,
                pitch: clamped.pitch.minus(self.pipeline.viewport.rig_tilt),
                fov_degrees: Some(self.fov_for(pose, c)),
            },
            None => pose,
        }
    }

    fn choose_fov(&self, pose: &ViewportPosition, coverage: &CoverageBoundary) -> (r: F32)
        ensures
            r == self.fov_for(*pose, *coverage),
    {
        let wanted = match pose.fov_degrees {
            Some(f) => f,
            None => self.pipeline.fov(),
        };
        wanted.min(coverage.max_fov_degrees())
    }

    /// What the covered part is to be asked for a pose; nothing where no part
    /// is known.
    pub fn clamp_query(&self, pose: ViewportPosition) -> (r: Option<ClampQuery>)
        ensures
            match self.coverage {
                Some(c) => r == Some(
                    ClampQuery {
                        yaw: pose.yaw,
                        pitch: pose.pitch,
                        fov_degrees: self.fov_for(pose, c),
                        aspect: self.pipeline.viewport.ratio(),
                    },
                ),
                None => r is None,
            },
    {
        match &self.coverage {
            Some(c) => Some(
                ClampQuery {
                    yaw: pose.yaw,
                    pitch: pose.pitch,
                    fov_degrees: self.choose_fov(&pose, c),
                    aspect: self.pipeline.viewport().aspect_ratio(),
                },
            ),
            None => None,
        }
    }

    /// A pose moved into the covered part, with the rig's lean taken out.
    /// `clamped` answers `clamp_query`. A pose stays where no part is known.
    pub fn safe_clamp(&self, pose: ViewportPosition, clamped: ClampedPosition) -> (r:
        ViewportPosition)
        ensures
            r == self.clamped_pose(pose, clamped),
    {
        match &self.coverage {
            Some(c) => ViewportPosition {
                yaw: clamped.yaw,
                pitch: clamped.pitch.sub(self.pipeline.viewport().rig_tilt),
                fov_degrees: Some(self.choose_fov(&pose, c)),
            },
            None => pose,
        }
    }

    /// A pose taken as it is, but for an angle of view beyond the largest that
    /// is covered.
    pub open spec fn free_pose(self, pose: ViewportPosition) -> ViewportPosition {
        ViewportPosition {
            fov_degrees: match (pose.fov_degrees, self.coverage) {
                (Some(fov), Some(c)) => Some(fov.lesser(c.max_fov)),
                _ => pose.fov_degrees,
            },
            ..pose
        }
    }

    fn limit_fov(&self, pose: ViewportPosition) -> (r: ViewportPosition)
        ensures
            r == self.free_pose(pose),
    {
        let fov_degrees = match (pose.fov_degrees, &self.coverage) {
            (Some(fov), Some(c)) => Some(fov.min(c.max_fov_degrees())),
            _ => pose.fov_degrees,
        };
        ViewportPosition { fov_degrees, ..pose }
    }

    /// Where the next frame looks: where the panner says, or straight ahead
    /// without one; moved into the covered part, or, where that is switched off,
    /// with no more than the largest angle of view.
    pub open spec fn pose_for(self, panned: Option<ViewportPosition>, clamped: ClampedPosition)
        -> ViewportPosition {
        let raw = match panned {
            Some(p) => p,
            None => ViewportPosition {
                yaw: F32 { bits: 0 },
                pitch: F32 { bits: 0 },
                fov_degrees: None,
            },
        };
        if self.constrained_look {
            self.clamped_pose(raw, clamped)
        } else {
            self.free_pose(raw)
        }
    }

    /// Where the next frame looks. `panned` is what the panner says, and
    /// `clamped` answers `clamp_query` for it. The angle of view that comes of
    /// it is the present one from then on.
    pub fn current_pose(&mut self, panned: Option<ViewportPosition>, clamped: ClampedPosition)
        -> (r: ViewportPosition)
        ensures
            r == old(self).pose_for(panned, clamped),
            *final(self) == (match r.fov_degrees {
                Some(fov_degrees) => StitchCore {
                    pipeline: StitchPipeline {
                        viewport: ViewportConfig { fov_degrees, ..old(self).pipeline.viewport },
                        ..old(self).pipeline
                    },
                    ..*old(self)
                },
                None => *old(self),
            }),
    {
        let raw = match panned {
            Some(p) => p,
            None => ViewportPosition::default(),
        };
        let pose = if self.constrained_look {
            self.safe_clamp(raw, clamped)
        } else {
            self.limit_fov(raw)
        };
        if let Some(fov) = pose.fov_degrees {
            self.pipeline.set_fov(fov);
        }
        pose
    }

    /// What the cameras cover.
    pub fn coverage(&self) -> (r: Option<&CoverageBoundary>)
        ensures
            match self.coverage {
                Some(c) => r == Some(&c),
                None => r is None,
            },
    {
        match &self.coverage {
            Some(c) => Some(c),
            None => None,
        }
    }

    /// Whether poses are moved into the covered part.
    pub fn constrained_look(&self) -> (r: bool)
        ensures
            r == self.constrained_look,
    {
        self.constrained_look
    }

    /// Switches on or off that poses are moved into the covered part.
    pub fn set_constrained_look(&mut self, enabled: bool)
        ensures
            *final(self) == (StitchCore { constrained_look: enabled, ..*old(self) }),
    {
        self.constrained_look = enabled;
    }

    /// Switches over whether poses are moved into the covered part, and says
    /// what now holds.
    pub fn toggle_constrained_look(&mut self) -> (r: bool)
        ensures
            r == !old(self).constrained_look,
            *final(self) == (StitchCore { constrained_look: r, ..*old(self) }),
    {
        self.constrained_look = !self.constrained_look;
        self.constrained_look
    }

    /// How far the panorama reaches.
    pub fn panorama_extent(&self) -> (r: Option<PanoramaExtent>)
        ensures
            match self.coverage {
                Some(c) => r == Some(
                    PanoramaExtent {
                        yaw_min: c.yaw.0,
                        yaw_max: c.yaw.1,
                        pitch_min: c.pitch.0,
                        pitch_max: c.pitch.1,
                    },
                ),
                None => r is None,
            },
    {
        match &self.coverage {
            Some(c) => {
                let (yaw_min, yaw_max) = c.yaw_range();
                let (pitch_min, pitch_max) = c.pitch_range();
                Some(PanoramaExtent { yaw_min, yaw_max, pitch_min, pitch_max })
            },
            None => None,
        }
    }

    /// The name of the projection.
    pub fn projection_name(&self) -> (r: &'static str)
        ensures
            r@ == self.projection_name@,
    {
        self.projection_name
    }

    /// How many cameras bring frames.
    pub fn camera_count(&self) -> (r: u8)
        ensures
            r == self.cameras,
    {
        self.cameras
    }

    /// Changes the calibration, and with it what is covered.
    pub fn update_calibration(
        &mut self,
        calibration: MatchCalibration,
        coverage: CoverageBoundary,
    )
        ensures
            *final(self) == (StitchCore {
                pipeline: StitchPipeline { calibration, ..old(self).pipeline },
                coverage: Some(coverage),
                ..*old(self)
            }),
    {
        self.pipeline.update_calibration(calibration);
        self.coverage = Some(coverage);
    }

    /// Keeps the frames of the given stretch of time for replay: with an empty
    /// buffer where none were kept, else with those kept so far that are no
    /// older than it. Without a stretch stops it and lets go of those kept.
    pub fn enable_replay_buffer(&mut self, duration: Option<Duration>)
        requires
            old(self).replay matches Some(b) ==> b.wf(),
            duration matches Some(d) ==> d.wf(),
        ensures
            match duration {
                Some(d) => {
                    &&& final(self).replay is Some
                    &&& final(self).replay->0.wf()
                    &&& final(self).replay->0.window == d
                    &&& final(self).replay->0@ == (match old(self).replay {
                        Some(b) => Reel { shots: recent(b@.shots, d@), window: d@ },
                        None => Reel { shots: Seq::empty(), window: d@ },
                    })
                    &&& (old(self).replay is Some && d@ >= old(self).replay->0.window@)
                        ==> final(self).replay->0@.shots == old(self).replay->0@.shots
                },
                None => final(self).replay is None,
            },
            *final(self) == (StitchCore { replay: final(self).replay, ..*old(self) }),
    {
        match duration {
            Some(d) => match self.replay.take() {
                Some(b) => {
                    let mut buffer: ReplayBuffer = b;
                    buffer.resize(d);
                    self.replay = Some(buffer);
                },
                None => self.replay = Some(ReplayBuffer::new(d)),
            },
            None => self.replay = None,
        }
    }

    /// The frames kept for replay.
    pub fn replay_buffer(&self) -> (r: Option<&ReplayBuffer>)
        ensures
            match self.replay {
                Some(b) => r == Some(&b),
                None => r is None,
            },
    {
        match &self.replay {
            Some(b) => Some(b),
            None => None,
        }
    }

    /// The frames kept for replay, to be changed.
    pub fn replay_buffer_mut(&mut self) -> (r: Option<&mut ReplayBuffer>)
        ensures
            match r {
                Some(b) => old(self).replay == Some(*b) && *final(self) == (StitchCore {
                    replay: Some(*final(b)),
                    ..*old(self)
                }),
                None => old(self).replay is None && *final(self) == *old(self),
            },
    {
        self.replay.as_mut()
    }

    /// The width and height of the picture.
    pub fn output_dims(&self) -> (r: (u32, u32))
        ensures
            r == (self.output_width, self.output_height),
    {
        (self.output_width, self.output_height)
    }

    /// How many frames were submitted.
    pub fn frame_count(&self) -> (r: u64)
        ensures
            r == self.frame_count,
    {
        self.frame_count
    }

    /// The renderer.
    pub fn pipeline(&self) -> (r: &StitchPipeline<G>)
        ensures
            *r == self.pipeline,
    {
        &self.pipeline
    }

    /// The renderer, to be changed.
    pub fn pipeline_mut(&mut self) -> (r: &mut StitchPipeline<G>)
        ensures
            *r == old(self).pipeline,
            *final(self) == (StitchCore { pipeline: *final(r), ..*old(self) }),
    {
        &mut self.pipeline
    }

    /// What the graphics processor is reached through.
    pub fn gpu(&self) -> (r: &G)
        ensures
            *r == self.pipeline.gpu,
    {
        self.pipeline.gpu()
    }
}

impl<T, P, D, G> DetectionTarget for StitchCore<T, P, D, G> {
    type Tracker = T;

    type Panner = P;

    type Detector = D;

    type Gpu = G;

    fn set_detector(&mut self, detector: D)
        ensures
            *final(self) == (StitchCore { detector: Some(detector), ..*old(self) }),
    {
        self.detector = Some(detector);
    }

    fn set_detection_interval(&mut self, interval: u64)
        ensures
            *final(self) == (StitchCore {
                detection_interval: at_least_one(interval),
                ..*old(self)
            }),
    {
        StitchCore::set_detection_interval(self, interval);
    }

    fn set_ball_tracker(&mut self, tracker: T)
        ensures
            *final(self) == (StitchCore { ball_tracker: Some(tracker), ..*old(self) }),
    {
        self.ball_tracker = Some(tracker);
    }

    fn set_player_tracker(&mut self, tracker: T)
        ensures
            *final(self) == (StitchCore { player_tracker: Some(tracker), ..*old(self) }),
    {
        self.player_tracker = Some(tracker);
    }

    fn set_panner(&mut self, panner: P)
        ensures
            *final(self) == (StitchCore { panner: Some(panner), ..*old(self) }),
    {
        self.panner = Some(panner);
    }

    fn source_info(&self) -> (r: (u32, u32))
        ensures
            r == (self.pipeline.input_width, self.pipeline.input_height),
    {
        self.pipeline.source_info()
    }

    fn gpu(&self) -> (r: &G)
        ensures
            *r == self.pipeline.gpu,
    {
        self.pipeline.gpu()
    }
}

/// The angle of view never exceeds what is covered, whether poses are moved into
/// the covered part or not; where they are, there always is one.
pub proof fn law_fov_within_coverage<T, P, D, G>(
    core: StitchCore<T, P, D, G>,
    panned: Option<ViewportPosition>,
    clamped: ClampedPosition,
)
    requires
        core.coverage is Some,
    ensures
        ({
            let pose = core.pose_for(panned, clamped);
            &&& pose.fov_degrees matches Some(fov) ==> !core.coverage->0.max_fov.below(fov)
            &&& core.constrained_look ==> pose.fov_degrees is Some
        }),
{
}

/// Whether poses are moved or not changes nothing of `safe_clamp`. Where they are
/// not, a panner's yaw and pitch are taken as they are, and its angle of view is
/// the lesser of what it asks for and the largest that is covered.
pub proof fn law_look_switch<T, P, D, G>(
    core: StitchCore<T, P, D, G>,
    pose: ViewportPosition,
    clamped: ClampedPosition,
    enabled: bool,
)
    ensures
        (StitchCore { constrained_look: enabled, ..core }).clamped_pose(pose, clamped)
            == core.clamped_pose(pose, clamped),
        ({
            let free = (StitchCore { constrained_look: false, ..core }).pose_for(
                Some(pose),
                clamped,
            );
            &&& free.yaw == pose.yaw && free.pitch == pose.pitch
            &&& free.fov_degrees == (match (pose.fov_degrees, core.coverage) {
                (Some(fov), Some(c)) => Some(fov.lesser(c.max_fov)),
                _ => pose.fov_degrees,
            })
        }),
{
}

} // verus!
