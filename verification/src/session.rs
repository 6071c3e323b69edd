//! A session: a core with encoders behind it.
use crate::calibration::MatchCalibration;
use crate::detect_target::{at_least_one, DetectionTarget};
use crate::pipeline::{InputFormat, OutputFormat, StitchPipeline, ViewportConfig};
use crate::projection::LShapeProjection;
use crate::replay::Duration;
use crate::single::F32;
use crate::stitch_core::{
    CoverageBoundary, StereoCameraInput, StitchCore, StitchCoreConfig, StitchCoreError,
};
use crate::viewport::PanoramaExtent;
use crate::world::{ViewportPosition, WorldState};
use vstd::prelude::*;

verus! {

/// What a session is made of.
pub struct SessionConfig {
    pub calibration: MatchCalibration,
    pub viewport: ViewportConfig,
    pub input_width: u32,
    pub input_height: u32,
    pub output_format: OutputFormat,
    pub input_format: InputFormat,
}

/// What a session is to be made of, as far as it is known. `E` is an encoder,
/// `D` a detector, and `G` what the graphics processor is reached through.
pub struct StitchSessionBuilder<D, E, G> {
    pub calibration: Option<MatchCalibration>,
    pub viewport: Option<ViewportConfig>,
    pub input_width: Option<u32>,
    pub input_height: Option<u32>,
    pub output_format: OutputFormat,
    pub input_format: InputFormat,
    pub gpu: Option<G>,
    pub encoder: Option<E>,
    pub detector: Option<D>,
    pub detection_interval: u64,
}

/// How a session fares.
#[derive(Clone, Copy, Debug, PartialEq, Eq, Structural)]
pub struct SessionMetrics {
    pub frames_processed: u64,
    pub frames_dropped: u64,
    pub elapsed: Duration,
    pub fps_average: F32,
    pub total_frames: Option<u64>,
}

/// What is measured of a session.
#[derive(Clone, Copy, Debug, PartialEq, Eq, Structural)]
pub struct TelemetrySnapshot {
    pub avg_encode_worker_ms: F32,
    pub backpressure_stalls: u64,
    pub backpressure_ms: F32,
}

/// What an encoder measures: frames, the average time for one, how often and
/// how long it held its caller up.
#[derive(Clone, Copy, Debug, PartialEq, Eq, Structural)]
pub struct EncoderStats {
    pub frames: u64,
    pub avg_encode_ms: F32,
    pub stalls: u64,
    pub stalled_ms: F32,
}

/// A session. `T` is a tracker, `P` a panner, `D` a detector, `E` an encoder,
/// and `G` what the graphics processor is reached through.
pub struct StitchSession<T, P, D, E, G> {
    pub core: StitchCore<T, P, D, G>,
    pub encoder: Option<E>,
    /// Further encoders, for more than one output.
    pub extra_encoders: Vec<E>,
    pub detector: Option<D>,
    pub detection_interval: u64,
    pub ball_tracker: Option<T>,
    pub player_tracker: Option<T>,
    pub panner: Option<P>,
    pub previous_panner_pose: ViewportPosition,
    /// What is known of the frames to come.
    pub lookahead_world_states: Vec<WorldState>,
    pub last_world_state: WorldState,
    pub skip_detection: bool,
    pub lookahead_frames: usize,
    pub frame_count: u64,
    pub session_start: Option<Duration>,
    pub frames_dropped: u64,
    pub telemetry: TelemetrySnapshot,
}

/// The bits of the least time that an average is taken over, in seconds.
pub const LEAST_SECONDS: u32 = 0x3A83_126F;

impl<T, P, D, E, G> StitchSession<T, P, D, E, G> {
    /// Holds of every session.
    pub open spec fn wf(self) -> bool {
        &&& self.core.wf()
        &&& self.detection_interval >= 1
        &&& self.session_start matches Some(s) ==> s.wf()
    }

    /// A builder that knows nothing yet.
    pub fn builder() -> (r: StitchSessionBuilder<D, E, G>)
        ensures
            r == (StitchSessionBuilder::<D, E, G> {
                calibration: None,
                viewport: None,
                input_width: None,
                input_height: None,
                output_format: OutputFormat::Rgba8Unorm,
                input_format: InputFormat::Yuv420p,
                gpu: None,
                encoder: None,
                detector: None,
                detection_interval: 1,
            }),
    {
        StitchSessionBuilder {
            calibration: None,
            viewport: None,
            input_width: None,
            input_height: None,
            output_format: OutputFormat::Rgba8Unorm,
            input_format: InputFormat::Yuv420p,
            gpu: None,
            encoder: None,
            detector: None,
            detection_interval: 1,
        }
    }

    /// Makes a session on a two-plane core without replay. `gpu_ready` says
    /// whether the graphics processor could be set up, and if not, why;
    /// `coverage` is what the calibration covers.
    pub fn with_gpu(
        gpu: G,
        gpu_name: String,
        config: SessionConfig,
        gpu_ready: Result<(), String>,
        coverage: CoverageBoundary,
    ) -> (r: Result<Self, StitchCoreError>)
        ensures
            match gpu_ready {
                Err(why) => r matches Err(StitchCoreError::Pipeline(e)) && e@ == why@,
                Ok(_) => {
                    &&& r matches Ok(s)
                    &&& s.wf()
                    &&& s.core.pipeline == (StitchPipeline {
                        gpu,
                        gpu_name,
                        calibration: config.calibration,
                        viewport: config.viewport,
                        input_width: config.input_width,
                        input_height: config.input_height,
                    })
                    &&& s.core.output_width == config.viewport.width
                    &&& s.core.output_height == config.viewport.height
                    &&& s.core.projection_name@ == "l-shape-stereo-2camera"@
                    &&& s.core.cameras == 2
                    &&& s.core.coverage == Some(coverage)
                    &&& s.core.replay is None
                    &&& s.core.constrained_look
                    &&& s.core.ball_tracker is None && s.core.player_tracker is None
                    &&& s.core.panner is None && s.core.detector is None
                    &&& s.core.previous_panner_pose == (ViewportPosition {
                        yaw: F32 { bits: 0 },
                        pitch: F32 { bits: 0 },
                        fov_degrees: None,
                    })
                    &&& s.core.detection_interval == 1
                    &&& s.core.last_detections@.len() == 0
                    &&& s.core.frame_count == 0
                    &&& s.core.session_start is None
                    &&& s.encoder is None && s.extra_encoders@.len() == 0
                    &&& s.detector is None && s.detection_interval == 1
                    &&& s.ball_tracker is None && s.player_tracker is None && s.panner is None
                    &&& s.previous_panner_pose == (ViewportPosition {
                        yaw: F32 { bits: 0 },
                        pitch: F32 { bits: 0 },
                        fov_degrees: None,
                    })
                    &&& s.lookahead_world_states@.len() == 0 && s.lookahead_frames == 0
                    &&& s.last_world_state.ball is None
                    &&& s.last_world_state.players@.len() == 0
                    &&& !s.skip_detection
                    &&& s.frame_count == 0 && s.frames_dropped == 0
                    &&& s.session_start is None
                    &&& s.telemetry == (TelemetrySnapshot {
                        avg_encode_worker_ms: F32 { bits: 0 },
                        backpressure_stalls: 0,
                        backpressure_ms: F32 { bits: 0 },
                    })
                },
            },
    {
        let core_config: StitchCoreConfig<LShapeProjection, StereoCameraInput> = StitchCoreConfig {
            calibration: config.calibration,
            viewport: config.viewport,
            input_width: config.input_width,
            input_height: config.input_height,
            output_format: config.output_format,
            input_format: config.input_format,
            projection: None,
            camera_input: None,
            replay_buffer_duration: None,
        };
        let core = match StitchCore::new(gpu, gpu_name, core_config, gpu_ready, coverage) {
            Ok(c) => c,
            Err(e) => {
                return Err(e);
            },
        };
        Ok(
            StitchSession {
                core,
                encoder: None,
                extra_encoders: Vec::new(),
                detector: None,
                detection_interval: 1,
                ball_tracker: None,
                player_tracker: None,
                panner: None,
                previous_panner_pose: ViewportPosition::default(),
                lookahead_world_states: Vec::new(),
                last_world_state: WorldState { ball: None, players: Vec::new() },
                skip_detection: false,
                lookahead_frames: 0,
                frame_count: 0,
                session_start: None,
                frames_dropped: 0,
                telemetry: TelemetrySnapshot {
                    avg_encode_worker_ms: F32::from_bits(0),
                    backpressure_stalls: 0,
                    backpressure_ms: F32::from_bits(0),
                },
            },
        )
    }

    /// What the cameras cover.
    pub fn coverage(&self) -> (r: Option<&CoverageBoundary>)
        ensures
            match self.core.coverage {
                Some(c) => r == Some(&c),
                None => r is None,
            },
    {
        self.core.coverage()
    }

    /// How far the panorama reaches.
    pub fn panorama_extent(&self) -> (r: Option<PanoramaExtent>)
        ensures
            match self.core.coverage {
                Some(c) => r == Some(
                    PanoramaExtent {
                        yaw_min: c.yaw.0,
                        yaw_max: c.yaw.1,
                        pitch_min: c.pitch.0,
                        pitch_max: c.pitch.1,
                    },
                ),
                None => r is None,
            },
    {
        self.core.panorama_extent()
    }

    /// How many frames were processed.
    pub fn frame_count(&self) -> (r: u64)
        ensures
            r == self.frame_count,
    {
        self.frame_count
    }

    /// The renderer.
    pub fn pipeline(&self) -> (r: &StitchPipeline<G>)
        ensures
            *r == self.core.pipeline,
    {
        self.core.pipeline()
    }

    /// The renderer, to be changed.
    pub fn pipeline_mut(&mut self) -> (r: &mut StitchPipeline<G>)
        ensures
            *r == old(self).core.pipeline,
            *final(self) == (StitchSession {
                core: StitchCore { pipeline: *final(r), ..old(self).core },
                ..*old(self)
            }),
    {
        self.core.pipeline_mut()
    }

    /// The core.
    pub fn stitch_core(&self) -> (r: &StitchCore<T, P, D, G>)
        ensures
            *r == self.core,
    {
        &self.core
    }

    /// The core, to be changed.
    pub fn core_mut(&mut self) -> (r: &mut StitchCore<T, P, D, G>)
        ensures
            *r == old(self).core,
            *final(self) == (StitchSession { core: *final(r), ..*old(self) }),
    {
        &mut self.core
    }

    /// What the graphics processor is reached through.
    pub fn gpu(&self) -> (r: &G)
        ensures
            *r == self.core.pipeline.gpu,
    {
        self.core.gpu()
    }

    /// The name of the graphics processor.
    pub fn gpu_name(&self) -> (r: &str)
        ensures
            r@ == self.core.pipeline.gpu_name@,
    {
        self.core.pipeline().gpu_name()
    }

    /// How the session fares. `elapsed` is the time since its first frame,
    /// which counts only once there was one.
    pub fn metrics(&self, elapsed: Duration) -> (r: SessionMetrics)
        ensures
            ({
                let spent = if self.session_start is Some {
                    elapsed
                } else {
                    Duration { secs: 0, nanos: 0 }
                };
                r == (SessionMetrics {
                    frames_processed: self.frame_count,
                    frames_dropped: self.frames_dropped,
                    elapsed: spent,
                    fps_average: F32::of_whole(self.frame_count as nat).over(
                        spent.seconds_single().greater(F32 { bits: LEAST_SECONDS }),
                    ),
                    total_frames: None,
                })
            }),
    {
        let spent = if self.session_start.is_some() {
            elapsed
        } else {
            Duration { secs: 0, nanos: 0 }
        };
        let secs = spent.as_secs_f32().max(F32::from_bits(LEAST_SECONDS));
        SessionMetrics {
            frames_processed: self.frame_count,
            frames_dropped: self.frames_dropped,
            elapsed: spent,
            fps_average: F32::from_whole(self.frame_count).div(secs),
            total_frames: None,
        }
    }

    /// What is measured of the session, with what its encoder measures.
    /// `stats` is what the encoder measures, if there is one.
    pub fn telemetry_snapshot(&self, stats: Option<EncoderStats>) -> (r: TelemetrySnapshot)
        ensures
            r == (match (self.encoder, stats) {
                (Some(_), Some(s)) => TelemetrySnapshot {
                    avg_encode_worker_ms: s.avg_encode_ms,
                    backpressure_stalls: s.stalls,
                    backpressure_ms: s.stalled_ms,
                },
                _ => self.telemetry,
            }),
    {
        let mut snap = self.telemetry;
        if self.encoder.is_some() {
            if let Some(s) = stats {
                snap.avg_encode_worker_ms = s.avg_encode_ms;
                snap.backpressure_stalls = s.stalls;
                snap.backpressure_ms = s.stalled_ms;
            }
        }
        snap
    }

    /// What is measured of the session, to be changed.
    pub fn telemetry_mut(&mut self) -> (r: &mut TelemetrySnapshot)
        ensures
            *r == old(self).telemetry,
            *final(self) == (StitchSession { telemetry: *final(r), ..*old(self) }),
    {
        &mut self.telemetry
    }

    /// Begins to finish: the pending frames are fetched, each goes to every
    /// encoder, and then the encoders are closed. `finished` ends it.
    pub fn finish(&self) -> (r: Finishing)
        requires
            self.extra_encoders@.len() < usize::MAX,
        ensures
            r == (Finishing {
                encoders: (self.extra_encoders.len() + if self.encoder is Some {
                    1int
                } else {
                    0int
                }) as usize,
                frame_count: self.frame_count,
                step: FinishStep::Flush,
            }),
            r.wf(),
    {
        let first: usize = if self.encoder.is_some() {
            1
        } else {
            0
        };
        Finishing {
            encoders: self.extra_encoders.len() + first,
            frame_count: self.frame_count,
            step: FinishStep::Flush,
        }
    }

    /// Ends a finishing: the frames that it handed on are counted, and the
    /// encoders that it closed are gone. Where handing a frame on failed all
    /// encoders stay. One that could not be closed is gone as well, and where
    /// it is a further one, so are all of those.
    pub fn finished(&mut self, f: Finishing)
        requires
            f.over(),
        ensures
            final(self).frame_count == f.frame_count,
            final(self).encoder == (if f.step == FinishStep::Failed {
                old(self).encoder
            } else {
                None
            }),
            final(self).extra_encoders@ == (if f.keeps_further(old(self).encoder is Some) {
                old(self).extra_encoders@
            } else {
                Seq::<E>::empty()
            }),
            *final(self) == (StitchSession {
                frame_count: f.frame_count,
                encoder: final(self).encoder,
                extra_encoders: final(self).extra_encoders,
                ..*old(self)
            }),
    {
        self.frame_count = f.frame_count;
        match f.step {
            FinishStep::Failed => {},
            FinishStep::NotClosed { encoder } => {
                let further = self.encoder.is_none() || encoder > 0;
                self.encoder = None;
                if further {
                    self.extra_encoders = Vec::new();
                }
            },
            _ => {
                self.encoder = None;
                self.extra_encoders = Vec::new();
            },
        }
    }
}

impl<T, P, D, E, G> DetectionTarget for StitchSession<T, P, D, E, G> {
    type Tracker = T;

    type Panner = P;

    type Detector = D;

    type Gpu = G;

    fn set_detector(&mut self, detector: D)
        ensures
            *final(self) == (StitchSession { detector: Some(detector), ..*old(self) }),
    {
        self.detector = Some(detector);
    }

    fn set_detection_interval(&mut self, interval: u64)
        ensures
            *final(self) == (StitchSession {
                detection_interval: at_least_one(interval),
                ..*old(self)
            }),
    {
        self.detection_interval = if interval < 1 {
            1
        } else {
            interval
        };
    }

    fn set_ball_tracker(&mut self, tracker: T)
        ensures
            *final(self) == (StitchSession { ball_tracker: Some(tracker), ..*old(self) }),
    {
        self.ball_tracker = Some(tracker);
    }

    fn set_player_tracker(&mut self, tracker: T)
        ensures
            *final(self) == (StitchSession { player_tracker: Some(tracker), ..*old(self) }),
    {
        self.player_tracker = Some(tracker);
    }

    fn set_panner(&mut self, panner: P)
        ensures
            *final(self) == (StitchSession { panner: Some(panner), ..*old(self) }),
    {
        self.panner = Some(panner);
    }

    fn source_info(&self) -> (r: (u32, u32))
        ensures
            r == (self.core.pipeline.input_width, self.core.pipeline.input_height),
    {
        self.core.pipeline.source_info()
    }

    fn gpu(&self) -> (r: &G)
        ensures
            *r == self.core.pipeline.gpu,
    {
        self.core.gpu()
    }
}

/// What finishing needs done next.
#[derive(Clone, Copy, Debug, PartialEq, Eq, Structural)]
pub enum FinishStep {
    /// The next pending frame is to be fetched.
    Flush,
    /// The frame in hand is to go to an encoder; the first is the main one.
    Submit { encoder: usize },
    /// An encoder is to be closed.
    Close { encoder: usize },
    /// All is done.
    Finished,
    /// Fetching a frame or handing it on failed, and the rest is left undone.
    Failed,
    /// Closing an encoder failed, and the rest is left undone.
    NotClosed { encoder: usize },
}

/// How a step went.
#[derive(Clone, Copy, Debug, PartialEq, Eq, Structural)]
pub enum FinishReply {
    /// There was a frame, or the work was done.
    Done,
    /// There was no further frame.
    Empty,
    /// The step failed.
    Error,
}

/// The finishing of a session.
#[derive(Clone, Copy, Debug, PartialEq, Eq, Structural)]
pub struct Finishing {
    pub encoders: usize,
    /// Frames handed to the encoders so far, from the beginning of the session.
    pub frame_count: u64,
    pub step: FinishStep,
}

impl Finishing {
    /// Holds of every finishing.
    pub open spec fn wf(self) -> bool {
        match self.step {
            FinishStep::Submit { encoder } => encoder < self.encoders,
            FinishStep::Close { encoder } => encoder < self.encoders,
            FinishStep::NotClosed { encoder } => encoder < self.encoders,
            _ => true,
        }
    }

    /// No frame can be handed on without the count overflowing.
    pub open spec fn counted_out(self, reply: FinishReply) -> bool {
        &&& self.frame_count == u64::MAX
        &&& match self.step {
            FinishStep::Flush => self.encoders == 0 && reply == FinishReply::Done,
            FinishStep::Submit { encoder } => encoder + 1 == self.encoders && reply
                != FinishReply::Error,
            _ => false,
        }
    }

    /// Nothing is left to do.
    pub open spec fn over(self) -> bool {
        self.step == FinishStep::Finished || self.step == FinishStep::Failed || self.step
            is NotClosed
    }

    /// The further encoders stay with the session once the finishing is over.
    /// `main` says whether there was a main encoder.
    pub open spec fn keeps_further(self, main: bool) -> bool {
        match self.step {
            FinishStep::Failed => true,
            FinishStep::NotClosed { encoder } => main && encoder == 0,
            _ => false,
        }
    }

    /// The finishing after a step went as the reply says.
    pub open spec fn after(self, reply: FinishReply) -> Finishing {
        let next = (self.frame_count + 1) as u64;
        match (self.step, reply) {
            (FinishStep::Finished, _) => self,
            (FinishStep::Failed, _) => self,
            (FinishStep::NotClosed { .. }, _) => self,
            (FinishStep::Close { encoder }, FinishReply::Error) => Finishing {
                step: FinishStep::NotClosed { encoder },
                ..self
            },
            (_, FinishReply::Error) => Finishing { step: FinishStep::Failed, ..self },
            (FinishStep::Flush, FinishReply::Done) => if self.encoders == 0 {
                Finishing { frame_count: next, ..self }
            } else {
                Finishing { step: FinishStep::Submit { encoder: 0 }, ..self }
            },
            (FinishStep::Flush, FinishReply::Empty) => if self.encoders == 0 {
                Finishing { step: FinishStep::Finished, ..self }
            } else {
                Finishing { step: FinishStep::Close { encoder: 0 }, ..self }
            },
            (FinishStep::Submit { encoder }, _) => if encoder + 1 < self.encoders {
                Finishing { step: FinishStep::Submit { encoder: (encoder + 1) as usize }, ..self }
            } else {
                Finishing { step: FinishStep::Flush, frame_count: next, ..self }
            },
            (FinishStep::Close { encoder }, _) => if encoder + 1 < self.encoders {
                Finishing { step: FinishStep::Close { encoder: (encoder + 1) as usize }, ..self }
            } else {
                Finishing { step: FinishStep::Finished, ..self }
            },
        }
    }

    /// The time stamp of the frame in hand: its number.
    pub fn pts(&self) -> (r: u64)
        ensures
            r == self.frame_count,
    {
        self.frame_count
    }

    /// Goes on after a step went as the reply says.
    pub fn advance(&mut self, reply: FinishReply)
        requires
            old(self).wf(),
            !old(self).counted_out(reply),
        ensures
            *final(self) == old(self).after(reply),
            final(self).wf(),
    {
        match self.step {
            FinishStep::Finished => {},
            FinishStep::Failed => {},
            FinishStep::NotClosed { .. } => {},
            FinishStep::Flush => match reply {
                FinishReply::Error => {
                    self.step = FinishStep::Failed;
                },
                FinishReply::Done => {
                    if self.encoders == 0 {
                        self.frame_count = self.frame_count + 1;
                    } else {
                        self.step = FinishStep::Submit { encoder: 0 };
                    }
                },
                FinishReply::Empty => {
                    self.step = if self.encoders == 0 {
                        FinishStep::Finished
                    } else {
                        FinishStep::Close { encoder: 0 }
                    };
                },
            },
            FinishStep::Submit { encoder } => match reply {
                FinishReply::Error => {
                    self.step = FinishStep::Failed;
                },
                _ => {
                    if encoder + 1 < self.encoders {
                        self.step = FinishStep::Submit { encoder: encoder + 1 };
                    } else {
                        self.frame_count = self.frame_count + 1;
                        self.step = FinishStep::Flush;
                    }
                },
            },
            FinishStep::Close { encoder } => match reply {
                FinishReply::Error => {
                    self.step = FinishStep::NotClosed { encoder };
                },
                _ => {
                    self.step = if encoder + 1 < self.encoders {
                        FinishStep::Close { encoder: encoder + 1 }
                    } else {
                        FinishStep::Finished
                    };
                },
            },
        }
    }
}

/// A finishing after as many steps as there are replies.
pub open spec fn finished_after(f: Finishing, replies: Seq<FinishReply>) -> Finishing
    decreases replies.len(),
{
    if replies.len() == 0 {
        f
    } else {
        finished_after(f, replies.drop_last()).after(replies.last())
    }
}

/// One frame is fetched and then handed to every encoder before it is counted;
/// only then is the next one fetched.
pub proof fn law_frame_reaches_every_encoder(f: Finishing, n: nat)
    requires
        f.wf(),
        f.step == FinishStep::Flush,
        f.encoders > 0,
        f.frame_count < u64::MAX,
        n <= f.encoders,
    ensures
        ({
            let g = finished_after(f, Seq::new(n + 1, |i: int| FinishReply::Done));
            if n < f.encoders {
                g == (Finishing { step: FinishStep::Submit { encoder: n as usize }, ..f })
            } else {
                g == (Finishing { frame_count: (f.frame_count + 1) as u64, ..f })
            }
        }),
    decreases n,
{
    let replies = Seq::new(n + 1, |i: int| FinishReply::Done);
    reveal_with_fuel(finished_after, 2);
    if n > 0 {
        law_frame_reaches_every_encoder(f, (n - 1) as nat);
        assert(replies.drop_last() =~= Seq::new(n, |i: int| FinishReply::Done));
    } else {
        assert(replies.drop_last() =~= Seq::<FinishReply>::empty());
    }
}

/// When no frame is left, every encoder is closed in turn, and then all is
/// done.
pub proof fn law_every_encoder_is_closed(f: Finishing, n: nat)
    requires
        f.wf(),
        f.step == FinishStep::Flush,
        n <= f.encoders,
    ensures
        ({
            let g = finished_after(
                f,
                Seq::new(
                    n + 1,
                    |i: int|
                        if i == 0 {
                            FinishReply::Empty
                        } else {
                            FinishReply::Done
                        },
                ),
            );
            g == (Finishing {
                step: if n < f.encoders {
                    FinishStep::Close { encoder: n as usize }
                } else {
                    FinishStep::Finished
                },
                ..f
            })
        }),
    decreases n,
{
    let reply = |i: int|
        if i == 0 {
            FinishReply::Empty
        } else {
            FinishReply::Done
        };
    let replies = Seq::new(n + 1, reply);
    reveal_with_fuel(finished_after, 2);
    if n > 0 {
        law_every_encoder_is_closed(f, (n - 1) as nat);
        assert(replies.drop_last() =~= Seq::new(n, reply));
    } else {
        assert(replies.drop_last() =~= Seq::<FinishReply>::empty());
    }
}

/// Going on by some replies and then by others is going on by all of them.
proof fn lemma_finished_in_turn(f: Finishing, a: Seq<FinishReply>, b: Seq<FinishReply>)
    ensures
        finished_after(f, a + b) == finished_after(finished_after(f, a), b),
    decreases b.len(),
{
    if b.len() == 0 {
        assert(a + b =~= a);
    } else {
        lemma_finished_in_turn(f, a, b.drop_last());
        assert((a + b).drop_last() =~= a + b.drop_last());
    }
}

/// The replies of a finishing of `n` frames in which nothing fails: each frame is
/// fetched and handed to every encoder, and then every encoder is closed.
pub open spec fn smooth_replies(encoders: nat, n: nat) -> Seq<FinishReply>
    decreases n,
{
    if n == 0 {
        Seq::new(
            encoders + 1,
            |i: int|
                if i == 0 {
                    FinishReply::Empty
                } else {
                    FinishReply::Done
                },
        )
    } else {
        Seq::new(encoders + 1, |i: int| FinishReply::Done) + smooth_replies(
            encoders,
            (n - 1) as nat,
        )
    }
}

/// A finishing in which nothing fails ends with every pending frame counted.
pub proof fn law_pending_frames_are_counted(f: Finishing, n: nat)
    requires
        f.wf(),
        f.step == FinishStep::Flush,
        f.frame_count + n <= u64::MAX,
    ensures
        finished_after(f, smooth_replies(f.encoders as nat, n)) == (Finishing {
            frame_count: (f.frame_count + n) as u64,
            step: FinishStep::Finished,
            ..f
        }),
    decreases n,
{
    let k = f.encoders as nat;
    if n == 0 {
        law_every_encoder_is_closed(f, k);
    } else {
        let frame = Seq::new(k + 1, |i: int| FinishReply::Done);
        let next = Finishing { frame_count: (f.frame_count + 1) as u64, ..f };
        if k > 0 {
            law_frame_reaches_every_encoder(f, k);
        } else {
            reveal_with_fuel(finished_after, 2);
            assert(frame.drop_last() =~= Seq::<FinishReply>::empty());
        }
        assert(finished_after(f, frame) == next);
        law_pending_frames_are_counted(next, (n - 1) as nat);
        lemma_finished_in_turn(f, frame, smooth_replies(k, (n - 1) as nat));
    }
}

} // verus!
