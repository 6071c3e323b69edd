//! The core for a single fisheye camera: how its calibration is scaled, when
//! it detects, and how its view is kept inside the picture.
use crate::calibration::{placeholder_calibration, CameraParams, MatchCalibration};
use crate::detect_target::{
    all_placed, at_least_one, detection_due, map_detections_to_panorama, Detection,
    DetectionTarget, MappedDetection,
};
use crate::double::F64;
use crate::pipeline::{
    size_refusal, InputFormat, MonoLens, MonoPipeline, OutputFormat, PipelineError, ViewportConfig,
};
use crate::projection::CylindricalProjectionConfig;
use crate::readback::{after_frames, law_pictures_lag_by_two, ReadbackRing};
use crate::replay::{Duration, RenderOutcome};
use crate::single::F32;
use crate::viewport::HALF;
use crate::world::{CameraId, ViewportPosition};
use vstd::prelude::*;

verus! {

/// The bits of the angle from the optical axis up to which a calibration is
/// trusted: 110 degrees in radians.
pub const DEFAULT_MAX_THETA_RAD: u32 = 0x3FF5_BE0B;

/// The bits of a thousand, as a double.
pub const THOUSAND_D: u64 = 0x408F_4000_0000_0000;

/// What a mono core is made of.
#[derive(Clone, Copy, Debug)]
pub struct MonoStitchCoreConfig {
    pub camera: CameraParams,
    /// The angle from the optical axis up to which the calibration is trusted.
    pub max_theta_rad: F32,
    pub viewport: ViewportConfig,
    pub input_width: u32,
    pub input_height: u32,
    pub output_format: OutputFormat,
    pub input_format: InputFormat,
}

/// A calibration for frames of another size: lengths grow with the width,
/// distortion stays.
pub open spec fn rescaled(camera: CameraParams, width: u32, height: u32) -> CameraParams {
    if camera.width == width && camera.height == height {
        camera
    } else {
        let scale = F64::of_whole(width as nat).over(F64::of_whole(camera.width as nat));
        CameraParams {
            width,
            height,
            fx: camera.fx.times(scale),
            fy: camera.fy.times(scale),
            cx: camera.cx.times(scale),
            cy: camera.cy.times(scale),
            d: camera.d,
        }
    }
}

/// The picture of a mono core that is not told otherwise.
pub open spec fn plain_viewport() -> ViewportConfig {
    ViewportConfig {
        width: 1920,
        height: 1080,
        fov_degrees: F32 { bits: 0x4296_0000 },
        blend_width: F32 { bits: 0 },
        rig_tilt: F32 { bits: 0 },
        rig_roll: F32 { bits: 0 },
        lens_correction_amount: F32 { bits: 0x3F80_0000 },
    }
}

impl MonoStitchCoreConfig {
    /// What a core is made of for frames of the given size; the calibration is
    /// scaled to them.
    pub fn new(camera: CameraParams, input_width: u32, input_height: u32) -> (r: Self)
        ensures
            r == (MonoStitchCoreConfig {
                camera: rescaled(camera, input_width, input_height),
                max_theta_rad: F32 { bits: DEFAULT_MAX_THETA_RAD },
                viewport: plain_viewport(),
                input_width,
                input_height,
                output_format: OutputFormat::Rgba8Unorm,
                input_format: InputFormat::Yuv420p,
            }),
    {
        let camera = if camera.width == input_width && camera.height == input_height {
            camera
        } else {
            let scale = F64::from_whole(input_width as u64).div(
                F64::from_whole(camera.width as u64),
            );
            CameraParams {
                width: input_width,
                height: input_height,
                fx: camera.fx.mul(scale),
                fy: camera.fy.mul(scale),
                cx: camera.cx.mul(scale),
                cy: camera.cy.mul(scale),
                d: camera.d,
            }
        };
        MonoStitchCoreConfig {
            camera,
            max_theta_rad: F32::from_bits(DEFAULT_MAX_THETA_RAD),
            viewport: ViewportConfig {
                width: 1920,
                height: 1080,
                fov_degrees: F32::from_bits(0x4296_0000),
                blend_width: F32::from_bits(0),
                rig_tilt: F32::from_bits(0),
                rig_roll: F32::from_bits(0),
                lens_correction_amount: F32::from_bits(0x3F80_0000),
            },
            input_width,
            input_height,
            output_format: OutputFormat::Rgba8Unorm,
            input_format: InputFormat::Yuv420p,
        }
    }
}

/// Scaling to the calibration's own size changes nothing, scaling always gives
/// the size asked for, and the distortion is never touched.
pub proof fn law_rescale(camera: CameraParams, width: u32, height: u32)
    ensures
        rescaled(camera, camera.width, camera.height) == camera,
        rescaled(camera, width, height).width == width,
        rescaled(camera, width, height).height == height,
        rescaled(camera, width, height).d == camera.d,
        rescaled(rescaled(camera, width, height), width, height) == rescaled(
            camera,
            width,
            height,
        ),
{
}

/// The cylinder on which frames of the given size are neither stretched nor
/// squeezed.
pub open spec fn cylinder_for(width: u32, height: u32) -> CylindricalProjectionConfig {
    let radius = F32 { bits: 0x4516_0000 };
    let sweep = F32 { bits: 0x4049_0FDB };
    CylindricalProjectionConfig {
        focal_length: radius,
        angular_sweep_rad: sweep,
        screen_rotation_rad: F32 { bits: 0 },
        video_height: radius.times(sweep).times(
            F32::of_whole(height as nat).over(F32::of_whole(width as nat)),
        ),
    }
}

fn fit_cylinder(width: u32, height: u32) -> (r: CylindricalProjectionConfig)
    ensures
        r == cylinder_for(width, height),
{
    let mut c = CylindricalProjectionConfig::default();
    c.video_height =
    CylindricalProjectionConfig::video_height_for_aspect(
        c.focal_length,
        c.angular_sweep_rad,
        width,
        height,
    );
    c
}

/// A range with a margin taken off each side; the middle where nothing is
/// left, and zero where there is no middle.
pub open spec fn inset(range: (F32, F32), margin: F32) -> (F32, F32) {
    let lo = range.0.plus(margin);
    let hi = range.1.minus(margin);
    let middle = lo.plus(hi).times(F32 { bits: HALF });
    if lo.at_most(hi) {
        (lo, hi)
    } else if middle.finite() {
        (middle, middle)
    } else {
        (F32 { bits: 0 }, F32 { bits: 0 })
    }
}

fn inset_range(range: (F32, F32), margin: F32) -> (r: (F32, F32))
    ensures
        r == inset(range, margin),
{
    let lo = range.0.add(margin);
    let hi = range.1.sub(margin);
    if lo.le(hi) {
        (lo, hi)
    } else {
        let middle = lo.add(hi).mul(F32::from_bits(HALF));
        if middle.is_finite() {
            (middle, middle)
        } else {
            (F32::from_bits(0), F32::from_bits(0))
        }
    }
}

proof fn lemma_finite_is_a_number(x: F32)
    requires
        x.finite(),
    ensures
        !x.nan(),
{
}

/// A range with a margin taken off can always be clamped to, whatever the range
/// and the margin.
pub proof fn law_inset_can_be_clamped_to(range: (F32, F32), margin: F32)
    ensures
        inset(range, margin).0.at_most(inset(range, margin).1),
{
    let middle = range.0.plus(margin).plus(range.1.minus(margin)).times(F32 { bits: HALF });
    if middle.finite() {
        lemma_finite_is_a_number(middle);
    }
}

/// The core for one camera. `T` is a tracker, `P` a panner, `D` a detector, and
/// `G` what the graphics processor is reached through.
pub struct MonoStitchCore<T, P, D, G> {
    pub pipeline: MonoPipeline<G>,
    /// The pictures on their way back.
    pub readback: ReadbackRing,
    pub output_width: u32,
    pub output_height: u32,
    pub ball_tracker: Option<T>,
    pub player_tracker: Option<T>,
    pub panner: Option<P>,
    pub previous_panner_pose: ViewportPosition,
    pub detector: Option<D>,
    pub detection_interval: u64,
    pub last_detections: Vec<MappedDetection>,
    /// Stands for the calibration of two cameras that a panner may ask for.
    pub placeholder_calibration: MatchCalibration,
    pub frame_count: u64,
    /// When the first frame was submitted.
    pub session_start: Option<Duration>,
    /// What the camera covers.
    pub raw_yaw_bounds: (F32, F32),
    pub raw_pitch_bounds: (F32, F32),
}

impl<T, P, D, G> MonoStitchCore<T, P, D, G> {
    /// Holds of every core.
    pub open spec fn wf(self) -> bool {
        &&& self.detection_interval >= 1
        &&& self.session_start matches Some(s) ==> s.wf()
        &&& self.readback.wf()
    }

    /// Makes a core. `bounds` is what the camera covers; `viewport_valid` says
    /// whether the picture is possible, and if not, why.
    pub fn new(
        gpu: G,
        gpu_name: String,
        config: MonoStitchCoreConfig,
        viewport_valid: Result<(), String>,
        bounds: ((F32, F32), (F32, F32)),
    ) -> (r: Result<Self, PipelineError>)
        ensures
            match (viewport_valid, size_refusal(config.input_width, config.input_height)) {
                (Err(e), _) => r matches Err(PipelineError::InvalidConfig { reason }) && reason@
                    == e@,
                (Ok(_), Some(why)) => r matches Err(PipelineError::InvalidConfig { reason })
                    && reason@ == why,
                (Ok(_), None) => {
                    &&& r matches Ok(core)
                    &&& core.wf()
                    &&& core.pipeline == (MonoPipeline {
                        gpu,
                        gpu_name,
                        config: cylinder_for(config.input_width, config.input_height),
                        lens: MonoLens {
                            camera: config.camera,
                            max_theta_rad: config.max_theta_rad,
                        },
                        viewport: config.viewport,
                        input_width: config.input_width,
                        input_height: config.input_height,
                        input_format: config.input_format,
                    })
                    &&& core.readback == (ReadbackRing { submitted: 0, fetched: 0 })
                    &&& core.placeholder_calibration == placeholder_calibration()
                    &&& core.output_width == config.viewport.width
                    &&& core.output_height == config.viewport.height
                    &&& core.ball_tracker is None && core.player_tracker is None
                    &&& core.panner is None && core.detector is None
                    &&& core.previous_panner_pose == (ViewportPosition {
                        yaw: F32 { bits: 0 },
                        pitch: F32 { bits: 0 },
                        fov_degrees: None,
                    })
                    &&& core.detection_interval == 1
                    &&& core.last_detections@.len() == 0
                    &&& core.frame_count == 0
                    &&& core.session_start is None
                    &&& core.raw_yaw_bounds == bounds.0
                    &&& core.raw_pitch_bounds == bounds.1
                },
            },
    {
        let output_width = config.viewport.width;
        let output_height = config.viewport.height;
        let pipeline = match MonoPipeline::with_gpu(
            gpu,
            gpu_name,
            fit_cylinder(config.input_width, config.input_height),
            MonoLens { camera: config.camera, max_theta_rad: config.max_theta_rad },
            config.viewport,
            viewport_valid,
            config.input_width,
            config.input_height,
            config.input_format,
        ) {
            Ok(p) => p,
            Err(e) => {
                return Err(e);
            },
        };
        Ok(
            MonoStitchCore {
                pipeline,
                readback: ReadbackRing::new(),
                output_width,
                output_height,
                ball_tracker: None,
                player_tracker: None,
                panner: None,
                previous_panner_pose: ViewportPosition::default(),
                detector: None,
                detection_interval: 1,
                last_detections: Vec::new(),
                placeholder_calibration: MatchCalibration::mono_placeholder(),
                frame_count: 0,
                session_start: None,
                raw_yaw_bounds: bounds.0,
                raw_pitch_bounds: bounds.1,
            },
        )
    }

    /// The angle of view that a pose comes to: its own or the present one.
    pub open spec fn fov_for(self, pose: ViewportPosition) -> F32 {
        match pose.fov_degrees {
            Some(f) => f,
            None => self.pipeline.viewport.fov_degrees,
        }
    }

    /// Half the vertical angle of view that a pose comes to, in radians, and
    /// the picture's width over its height.
    pub fn view_shape(&self, pose: &ViewportPosition) -> (r: (F32, F32))
        ensures
            r.0 == self.fov_for(*pose).radians().times(F32 { bits: HALF }),
            r.1 == F32::of_whole(self.output_width as nat).over(
                F32::of_whole(
                    if self.output_height < 1 {
                        1
                    } else {
                        self.output_height as nat
                    },
                ),
            ),
    {
        let fov = match pose.fov_degrees {
            Some(f) => f,
            None => self.pipeline.fov(),
        };
        let height: u64 = if self.output_height < 1 {
            1
        } else {
            self.output_height as u64
        };
        (
            fov.to_radians().mul(F32::from_bits(HALF)),
            F32::from_whole(self.output_width as u64).div(F32::from_whole(height)),
        )
    }

    /// What the camera covers, with the reach of the view's corners taken off.
    pub fn inset_bounds_for_fov(&self, corner_margin: F32) -> (r: ((F32, F32), (F32, F32)))
        ensures
            r == (
                inset(self.raw_yaw_bounds, corner_margin),
                inset(self.raw_pitch_bounds, corner_margin),
            ),
            r.0.0.at_most(r.0.1),
            r.1.0.at_most(r.1.1),
    {
        proof {
            law_inset_can_be_clamped_to(self.raw_yaw_bounds, corner_margin);
            law_inset_can_be_clamped_to(self.raw_pitch_bounds, corner_margin);
        }
        (
            inset_range(self.raw_yaw_bounds, corner_margin),
            inset_range(self.raw_pitch_bounds, corner_margin),
        )
    }

    /// A pose moved so that the whole view stays inside the picture, if its
    /// corners reach `corner_margin` from the middle.
    pub open spec fn clamped_pose(self, pose: ViewportPosition, corner_margin: F32)
        -> ViewportPosition {
        let yaw = inset(self.raw_yaw_bounds, corner_margin);
        let pitch = inset(self.raw_pitch_bounds, corner_margin);
        ViewportPosition {
            yaw: pose.yaw.clamped(yaw.0, yaw.1),
            pitch: pose.pitch.clamped(pitch.0, pitch.1),
            fov_degrees: Some(self.fov_for(pose)),
        }
    }

    /// Moves a pose so that the whole view stays inside the picture, if its
    /// corners reach `corner_margin` from the middle.
    pub fn clamp_pose_for_fov(&self, pose: ViewportPosition, corner_margin: F32) -> (r:
        ViewportPosition)
        ensures
            r == self.clamped_pose(pose, corner_margin),
    {
        let fov = match pose.fov_degrees {
            Some(f) => f,
            None => self.pipeline.fov(),
        };
        let (yaw, pitch) = self.inset_bounds_for_fov(corner_margin);
        ViewportPosition {
            yaw: pose.yaw.clamp(yaw.0, yaw.1),
            pitch: pose.pitch.clamp(pitch.0, pitch.1),
            fov_degrees: Some(fov),
        }
    }

    /// Sets the tracker of the ball, in place of any other.
    pub fn set_ball_tracker(&mut self, tracker: T)
        ensures
            *final(self) == (MonoStitchCore { ball_tracker: Some(tracker), ..*old(self) }),
    {
        self.ball_tracker = Some(tracker);
    }

    /// Sets the tracker of the players, in place of any other.
    pub fn set_player_tracker(&mut self, tracker: T)
        ensures
            *final(self) == (MonoStitchCore { player_tracker: Some(tracker), ..*old(self) }),
    {
        self.player_tracker = Some(tracker);
    }

    /// Sets the panner, in place of any other.
    pub fn set_panner(&mut self, panner: P)
        ensures
            *final(self) == (MonoStitchCore { panner: Some(panner), ..*old(self) }),
    {
        self.panner = Some(panner);
    }

    /// Sets the detector, in place of any other.
    pub fn set_detector(&mut self, detector: D)
        ensures
            *final(self) == (MonoStitchCore { detector: Some(detector), ..*old(self) }),
    {
        self.detector = Some(detector);
    }

    /// Sets on every how many frames detection runs; at least on each.
    pub fn set_detection_interval(&mut self, interval: u64)
        ensures
            *final(self) == (MonoStitchCore {
                detection_interval: at_least_one(interval),
                ..*old(self)
            }),
    {
        self.detection_interval = if interval < 1 {
            1
        } else {
            interval
        };
    }

    /// What the graphics processor is reached through.
    pub fn gpu(&self) -> (r: &G)
        ensures
            *r == self.pipeline.gpu,
    {
        self.pipeline.gpu()
    }

    /// The renderer.
    pub fn pipeline(&self) -> (r: &MonoPipeline<G>)
        ensures
            *r == self.pipeline,
    {
        &self.pipeline
    }

    /// How many frames were submitted.
    pub fn frame_count(&self) -> (r: u64)
        ensures
            r == self.frame_count,
    {
        self.frame_count
    }

    /// The width and height of the picture.
    pub fn output_dims(&self) -> (r: (u32, u32))
        ensures
            r == (self.output_width, self.output_height),
    {
        (self.output_width, self.output_height)
    }

    /// Whether detection runs on the frame to come.
    pub fn should_run_detection(&self) -> (r: bool)
        ensures
            r == detection_due(self.detection_interval, self.frame_count),
    {
        self.detection_interval > 0 && self.frame_count % self.detection_interval == 0
    }

    /// The camera that the detector is asked about for the frame to come, if one
    /// is attached and detection is due: the left one, which stands for the only
    /// camera there is.
    pub open spec fn asked(self) -> Option<CameraId> {
        if self.detector is Some && detection_due(self.detection_interval, self.frame_count) {
            Some(CameraId::Left)
        } else {
            None
        }
    }

    /// Begins a frame at the given time. Where detection is to run on it, says
    /// which camera the detector is to be asked about. The first frame begins the
    /// session.
    pub fn begin_frame(&mut self, now: Duration) -> (r: Option<CameraId>)
        requires
            old(self).wf(),
            now.wf(),
        ensures
            final(self).wf(),
            r == old(self).asked(),
            *final(self) == (MonoStitchCore {
                session_start: match old(self).session_start {
                    Some(s) => Some(s),
                    None => Some(now),
                },
                ..*old(self)
            }),
    {
        if self.session_start.is_none() {
            self.session_start = Some(now);
        }
        if self.detector.is_some() && self.should_run_detection() {
            Some(CameraId::Left)
        } else {
            None
        }
    }

    /// Takes what the detector saw, each with where it lies in the panorama, in
    /// place of what it saw before. Where the detector failed, it saw nothing.
    pub fn take_detections(
        &mut self,
        found: Option<Vec<Detection>>,
        positions: &Vec<Option<ViewportPosition>>,
    )
        requires
            found matches Some(v) ==> v@.len() == positions@.len(),
        ensures
            final(self).last_detections@ == (match found {
                Some(v) => all_placed(v@, positions@),
                None => Seq::<MappedDetection>::empty(),
            }),
            *final(self) == (MonoStitchCore {
                last_detections: final(self).last_detections,
                ..*old(self)
            }),
    {
        self.last_detections = match found {
            Some(v) => map_detections_to_panorama(&v, positions),
            None => Vec::new(),
        };
    }

    /// The time since the session began, in milliseconds; zero before it.
    pub fn timestamp_ms(&self, now: Duration) -> (r: F64)
        requires
            self.wf(),
            now.wf(),
        ensures
            match self.session_start {
                Some(s) => exists|d: Duration|
                    #![trigger d.seconds_double()]
                    d.wf() && d@ == (if now@ >= s@ {
                        (now@ - s@) as nat
                    } else {
                        0
                    }) && r == d.seconds_double().times(F64 { bits: THOUSAND_D }),
                None => r == (F64 { bits: 0 }),
            },
    {
        match self.session_start {
            Some(s) => {
                let d = now.less(&s);
                let secs = d.as_secs_f64();
                assert(secs == d.seconds_double());
                secs.mul(F64::from_bits(THOUSAND_D))
            },
            None => F64::from_bits(0),
        }
    }

    /// Where the frame looks: where the panner says, or straight ahead without
    /// one, kept inside the picture. The angle of view that comes of it is the
    /// present one from then on.
    pub fn resolve_current_pose(&mut self, panned: Option<ViewportPosition>, corner_margin: F32)
        -> (r: ViewportPosition)
        ensures
            r == old(self).clamped_pose(
                match panned {
                    Some(p) => p,
                    None => ViewportPosition {
                        yaw: F32 { bits: 0 },
                        pitch: F32 { bits: 0 },
                        fov_degrees: None,
                    },
                },
                corner_margin,
            ),
            *final(self) == (MonoStitchCore {
                pipeline: MonoPipeline {
                    viewport: ViewportConfig {
                        fov_degrees: r.fov_degrees->0,
                        ..old(self).pipeline.viewport
                    },
                    ..old(self).pipeline
                },
                ..*old(self)
            }),
    {
        let raw = match panned {
            Some(p) => p,
            None => ViewportPosition::default(),
        };
        let pose = self.clamp_pose_for_fov(raw, corner_margin);
        if let Some(fov) = pose.fov_degrees {
            self.pipeline.set_fov(fov);
        }
        pose
    }

    /// The frame whose picture has to be fetched when the next one is submitted:
    /// none for the first two, then the one two before it.
    pub fn frame_due(&self) -> (r: Option<u64>)
        requires
            self.wf(),
        ensures
            r == self.readback.due(),
    {
        self.readback.frame_due()
    }

    /// Counts a frame that was rendered, and hands out the picture that was due:
    /// `rgba` holds it, where there is one.
    pub fn submit_frame_yuv<'a>(&mut self, rgba: Option<&'a [u8]>) -> (r: RenderOutcome<'a>)
        requires
            old(self).wf(),
            old(self).frame_count < u64::MAX,
            old(self).readback.submitted < u64::MAX,
            rgba is Some <==> old(self).readback.due() is Some,
        ensures
            *final(self) == (MonoStitchCore {
                frame_count: (old(self).frame_count + 1) as u64,
                readback: old(self).readback.submitted_one(),
                ..*old(self)
            }),
            final(self).wf(),
            match rgba {
                Some(bytes) => r matches RenderOutcome::Rgba(b) && b@ == bytes@,
                None => r is Warmup,
            },
    {
        self.frame_count = self.frame_count + 1;
        self.readback.submit();
        match rgba {
            Some(bytes) => RenderOutcome::Rgba(bytes),
            None => RenderOutcome::Warmup,
        }
    }

    /// The frame whose picture is to be fetched next, of those still on their
    /// way after the last one was submitted.
    pub fn flush_pending(&mut self) -> (r: Option<u64>)
        requires
            old(self).wf(),
        ensures
            r == old(self).readback.pending(),
            *final(self) == (MonoStitchCore {
                readback: old(self).readback.flushed_one(),
                ..*old(self)
            }),
            final(self).wf(),
    {
        self.readback.flush()
    }
}

/// A core after frames were submitted, given the picture that comes back of each.
pub open spec fn submitted<T, P, D, G>(
    core: MonoStitchCore<T, P, D, G>,
    n: nat,
) -> MonoStitchCore<T, P, D, G>
    decreases n,
{
    if n == 0 {
        core
    } else {
        let before = submitted(core, (n - 1) as nat);
        MonoStitchCore {
            frame_count: (before.frame_count + 1) as u64,
            readback: before.readback.submitted_one(),
            ..before
        }
    }
}

/// On a new core, frame number `n` hands out nothing if it is one of the first
/// two and else the picture of frame number `n - 2`; frames are counted one by
/// one; and a detector, where one is attached, is asked about it exactly if its
/// number is a multiple of the interval, and then about the left camera.
pub proof fn law_each_frame_hands_out_the_second_last<T, P, D, G>(
    core: MonoStitchCore<T, P, D, G>,
    n: nat,
)
    requires
        core.wf(),
        core.readback == (ReadbackRing { submitted: 0, fetched: 0 }),
        core.frame_count == 0,
        n < u64::MAX,
    ensures
        ({
            let now = submitted(core, n);
            &&& now.wf()
            &&& now.frame_count == n
            &&& now.readback == after_frames(n)
            &&& now.readback.due() == (if n < 2 {
                None
            } else {
                Some((n - 2) as u64)
            })
            &&& now.detection_interval == core.detection_interval
            &&& now.detector == core.detector
            &&& now.asked() == (if core.detector is Some && n % core.detection_interval as nat
                == 0 {
                Some(CameraId::Left)
            } else {
                None
            })
        }),
    decreases n,
{
    law_pictures_lag_by_two(n);
    if n > 0 {
        law_each_frame_hands_out_the_second_last(core, (n - 1) as nat);
    }
}

/// A pose kept inside the picture lies within what the camera covers, whatever
/// the panner said, with the view's corners taken off; and asking again for it
/// changes nothing.
pub proof fn law_pose_stays_inside<T, P, D, G>(
    core: MonoStitchCore<T, P, D, G>,
    pose: ViewportPosition,
    corner_margin: F32,
)
    requires
        !pose.yaw.nan(),
        !pose.pitch.nan(),
    ensures
        ({
            let r = core.clamped_pose(pose, corner_margin);
            let yaw = inset(core.raw_yaw_bounds, corner_margin);
            let pitch = inset(core.raw_pitch_bounds, corner_margin);
            &&& yaw.0.at_most(r.yaw) && r.yaw.at_most(yaw.1)
            &&& pitch.0.at_most(r.pitch) && r.pitch.at_most(pitch.1)
            &&& core.clamped_pose(r, corner_margin) == r
        }),
{
    law_inset_can_be_clamped_to(core.raw_yaw_bounds, corner_margin);
    law_inset_can_be_clamped_to(core.raw_pitch_bounds, corner_margin);
}

/// Detection runs on the first frame and then on every interval-th one.
pub proof fn law_detection_recurs(interval: u64, frame: u64)
    requires
        interval >= 1,
        frame + interval <= u64::MAX,
    ensures
        detection_due(interval, 0),
        detection_due(interval, frame) == detection_due(interval, (frame + interval) as u64),
        interval == 1 ==> detection_due(interval, frame),
{
    let next = frame + interval;
    assert(next % (interval as int) == frame % interval) by {
        vstd::arithmetic::div_mod::lemma_mod_add_multiples_vanish(
            frame as int,
            interval as int,
        );
    }
}

impl<T, P, D, G> DetectionTarget for MonoStitchCore<T, P, D, G> {
    type Tracker = T;

    type Panner = P;

    type Detector = D;

    type Gpu = G;

    fn set_detector(&mut self, detector: D)
        ensures
            *final(self) == (MonoStitchCore { detector: Some(detector), ..*old(self) }),
    {
        self.detector = Some(detector);
    }

    fn set_detection_interval(&mut self, interval: u64)
        ensures
            *final(self) == (MonoStitchCore {
                detection_interval: at_least_one(interval),
                ..*old(self)
            }),
    {
        MonoStitchCore::set_detection_interval(self, interval);
    }

    fn set_ball_tracker(&mut self, tracker: T)
        ensures
            *final(self) == (MonoStitchCore { ball_tracker: Some(tracker), ..*old(self) }),
    {
        self.ball_tracker = Some(tracker);
    }

    fn set_player_tracker(&mut self, tracker: T)
        ensures
            *final(self) == (MonoStitchCore { player_tracker: Some(tracker), ..*old(self) }),
    {
        self.player_tracker = Some(tracker);
    }

    fn set_panner(&mut self, panner: P)
        ensures
            *final(self) == (MonoStitchCore { panner: Some(panner), ..*old(self) }),
    {
        self.panner = Some(panner);
    }

    fn source_info(&self) -> (r: (u32, u32))
        ensures
            r == (self.pipeline.input_width, self.pipeline.input_height),
    {
        self.pipeline.source_info()
    }

    fn gpu(&self) -> (r: &G)
        ensures
            *r == self.pipeline.gpu,
    {
        self.pipeline.gpu()
    }
}

} // verus!
