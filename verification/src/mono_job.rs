//! Turning one recorded video into another that follows the ball.
use crate::calibration::CameraParams;
use crate::detect_target::at_least_one;
use crate::double::F64;
use crate::mono_core::{plain_viewport, rescaled, MonoStitchCoreConfig, DEFAULT_MAX_THETA_RAD};
use crate::pipeline::{InputFormat, OutputFormat, ViewportConfig};
use crate::single::F32;
use vstd::prelude::*;
use vstd::string::StringExecFns;

verus! {

/// How a video is compressed.
#[derive(Clone, Copy, Debug, PartialEq, Eq, Structural)]
pub enum Codec {
    H264,
    Hevc,
    Av1,
}

/// How good a video is to be.
#[derive(Clone, Copy, Debug, PartialEq, Eq, Structural)]
pub enum Quality {
    Fast,
    Balanced,
    High,
}

/// How large a video may get: as its quality asks, or at a constant rate.
#[derive(Clone, Copy, Debug, PartialEq, Eq, Structural)]
pub enum Bitrate {
    Quality(Quality),
    Crf(u8),
}

/// What kind of file a video is.
#[derive(Clone, Copy, Debug, PartialEq, Eq, Structural)]
pub enum Format {
    /// MP4, which is whole once it is closed.
    Mp4,
    /// MP4 in fragments, which can be read while it is written.
    FragmentedMp4,
    /// Matroska.
    Mkv,
}

/// Why a job failed.
#[derive(Clone, Debug)]
pub enum MonoJobError {
    /// The video could not be read.
    Decode(String),
    /// There is no graphics processor.
    Gpu(String),
    /// A frame could not be rendered.
    Core(String),
    /// A frame could not be written.
    Encoder(String),
}

impl MonoJobError {
    /// What is said of the failure: where it happened, and why.
    pub open spec fn said(self) -> Seq<char> {
        match self {
            MonoJobError::Decode(why) => "decode: "@ + why@,
            MonoJobError::Gpu(why) => "GPU: "@ + why@,
            MonoJobError::Core(why) => "stitch core: "@ + why@,
            MonoJobError::Encoder(why) => "encoder: "@ + why@,
        }
    }

    /// What is said of the failure.
    pub fn message(&self) -> (r: String)
        ensures
            r@ == self.said(),
    {
        let (part, why): (&'static str, &String) = match self {
            MonoJobError::Decode(why) => ("decode: ", why),
            MonoJobError::Gpu(why) => ("GPU: ", why),
            MonoJobError::Core(why) => ("stitch core: ", why),
            MonoJobError::Encoder(why) => ("encoder: ", why),
        };
        let mut text: String = String::from_str(part);
        text.append(why.as_str());
        text
    }
}

/// What came of a job.
#[derive(Clone, Copy, Debug, PartialEq, Eq, Structural)]
pub struct MonoJobResult {
    /// How many frames were written.
    pub frame_count: u64,
}

/// A job. `H` is what sets detection up before the first frame.
pub struct MonoJob<H> {
    pub input: String,
    pub output: String,
    pub camera: CameraParams,
    pub max_theta_rad: F32,
    pub rig_tilt: F32,
    pub rig_roll: F32,
    pub codec: Codec,
    pub bitrate: Bitrate,
    pub format: Format,
    pub resolution: Option<(u32, u32)>,
    pub encoder_name: Option<String>,
    pub quality_value: Option<u8>,
    pub preset: Option<String>,
    pub with_audio: bool,
    pub detection_interval: u64,
    pub session_hook: Option<H>,
}

/// What the encoder of a job is told.
pub struct EncoderPlan {
    pub width: u32,
    pub height: u32,
    /// Frames in so many seconds.
    pub fps: (i32, i32),
    /// The encoder by its name, in place of the codec's usual one.
    pub encoder_name: Option<String>,
    pub codec: Codec,
    pub quality: Quality,
    pub quality_value: Option<u8>,
    /// The encoder's own preset.
    pub preset: Option<String>,
    /// The file whose sound is taken over.
    pub audio_source: Option<String>,
    pub container: Format,
}

/// What a job does with a video of known size and rate.
pub struct JobPlan {
    pub core: MonoStitchCoreConfig,
    pub encoder: EncoderPlan,
    /// Frames in a second.
    pub fps: F64,
    pub detection_interval: u64,
}

/// A frame rate, or thirty in a second where it makes no sense.
pub open spec fn sensible_rate(rate: (i32, i32)) -> (i32, i32) {
    if rate.0 > 0 && rate.1 > 0 {
        rate
    } else {
        (30, 1)
    }
}

fn copy_text(text: &Option<String>) -> (r: Option<String>)
    ensures
        r == *text,
{
    match text {
        Some(s) => Some(s.clone()),
        None => None,
    }
}

impl<H> MonoJob<H> {
    /// A job with everything else left to itself.
    pub fn new(input: String, output: String, camera: CameraParams) -> (r: Self)
        ensures
            r == (MonoJob::<H> {
                input,
                output,
                camera,
                max_theta_rad: F32 { bits: DEFAULT_MAX_THETA_RAD },
                rig_tilt: F32 { bits: 0 },
                rig_roll: F32 { bits: 0 },
                codec: Codec::H264,
                bitrate: Bitrate::Quality(Quality::Balanced),
                format: Format::Mp4,
                resolution: None,
                encoder_name: None,
                quality_value: None,
                preset: None,
                with_audio: true,
                detection_interval: 1,
                session_hook: None,
            }),
    {
        MonoJob {
            input,
            output,
            camera,
            max_theta_rad: F32::from_bits(DEFAULT_MAX_THETA_RAD),
            rig_tilt: F32::from_bits(0),
            rig_roll: F32::from_bits(0),
            codec: Codec::H264,
            bitrate: Bitrate::Quality(Quality::Balanced),
            format: Format::Mp4,
            resolution: None,
            encoder_name: None,
            quality_value: None,
            preset: None,
            with_audio: true,
            detection_interval: 1,
            session_hook: None,
        }
    }

    /// Sets the angle up to which the calibration is trusted.
    pub fn max_theta_rad(self, radians: F32) -> (r: Self)
        ensures
            r == (MonoJob { max_theta_rad: radians, ..self }),
    {
        MonoJob { max_theta_rad: radians, ..self }
    }

    /// Sets how the rig leans, in radians.
    pub fn rig_tilt_roll(self, tilt: F32, roll: F32) -> (r: Self)
        ensures
            r == (MonoJob { rig_tilt: tilt, rig_roll: roll, ..self }),
    {
        MonoJob { rig_tilt: tilt, rig_roll: roll, ..self }
    }

    /// Sets how the video is compressed.
    pub fn codec(self, codec: Codec) -> (r: Self)
        ensures
            r == (MonoJob { codec, ..self }),
    {
        MonoJob { codec, ..self }
    }

    /// Sets how good the video is to be.
    pub fn quality(self, quality: Quality) -> (r: Self)
        ensures
            r == (MonoJob { bitrate: Bitrate::Quality(quality), ..self }),
    {
        MonoJob { bitrate: Bitrate::Quality(quality), ..self }
    }

    /// Sets the width and height of the video.
    pub fn resolution(self, width: u32, height: u32) -> (r: Self)
        ensures
            r == (MonoJob { resolution: Some((width, height)), ..self }),
    {
        MonoJob { resolution: Some((width, height)), ..self }
    }

    /// Sets the encoder by its name.
    pub fn encoder_name(self, name: String) -> (r: Self)
        ensures
            r == (MonoJob { encoder_name: Some(name), ..self }),
    {
        MonoJob { encoder_name: Some(name), ..self }
    }

    /// Sets the quality as a number.
    pub fn quality_value(self, quality: u8) -> (r: Self)
        ensures
            r == (MonoJob { quality_value: Some(quality), ..self }),
    {
        MonoJob { quality_value: Some(quality), ..self }
    }

    /// Sets the encoder's own preset.
    pub fn preset(self, preset: String) -> (r: Self)
        ensures
            r == (MonoJob { preset: Some(preset), ..self }),
    {
        MonoJob { preset: Some(preset), ..self }
    }

    /// Sets whether the sound is taken over.
    pub fn with_audio(self, enabled: bool) -> (r: Self)
        ensures
            r == (MonoJob { with_audio: enabled, ..self }),
    {
        MonoJob { with_audio: enabled, ..self }
    }

    /// Sets on every how many frames detection runs; at least on each.
    pub fn detection_interval(self, interval: u64) -> (r: Self)
        ensures
            r == (MonoJob { detection_interval: at_least_one(interval), ..self }),
    {
        let interval: u64 = if interval < 1 {
            1
        } else {
            interval
        };
        MonoJob { detection_interval: interval, ..self }
    }

    /// Sets what is done before the first frame.
    pub fn on_session(self, hook: H) -> (r: Self)
        ensures
            r == (MonoJob { session_hook: Some(hook), ..self }),
    {
        MonoJob { session_hook: Some(hook), ..self }
    }

    /// The width and height of the video.
    pub open spec fn picture(self) -> (u32, u32) {
        match self.resolution {
            Some(size) => size,
            None => (1920, 1080),
        }
    }

    /// The quality that the encoder is told.
    pub open spec fn tier(self) -> Quality {
        match self.bitrate {
            Bitrate::Quality(q) => q,
            Bitrate::Crf(_) => Quality::Balanced,
        }
    }

    /// What the job does with frames of the given size, so many in so many
    /// seconds.
    pub fn plan(&self, input_width: u32, input_height: u32, rate: (i32, i32)) -> (r: JobPlan)
        ensures
            r.core == (MonoStitchCoreConfig {
                camera: rescaled(self.camera, input_width, input_height),
                max_theta_rad: self.max_theta_rad,
                viewport: ViewportConfig {
                    width: self.picture().0,
                    height: self.picture().1,
                    rig_tilt: self.rig_tilt,
                    rig_roll: self.rig_roll,
                    ..plain_viewport()
                },
                input_width,
                input_height,
                output_format: OutputFormat::Rgba8Unorm,
                input_format: InputFormat::Yuv420p,
            }),
            r.encoder == (EncoderPlan {
                width: self.picture().0,
                height: self.picture().1,
                fps: sensible_rate(rate),
                encoder_name: self.encoder_name,
                codec: self.codec,
                quality: self.tier(),
                quality_value: self.quality_value,
                preset: self.preset,
                audio_source: if self.with_audio {
                    Some(self.input)
                } else {
                    None
                },
                container: self.format,
            }),
            r.fps == F64::of_whole(sensible_rate(rate).0 as nat).over(
                F64::of_whole(sensible_rate(rate).1 as nat),
            ),
            r.detection_interval == self.detection_interval,
    {
        let (width, height): (u32, u32) = match self.resolution {
            Some(size) => size,
            None => (1920, 1080),
        };
        let mut core = MonoStitchCoreConfig::new(self.camera, input_width, input_height);
        core.max_theta_rad = self.max_theta_rad;
        core.viewport.width = width;
        core.viewport.height = height;
        core.viewport.rig_tilt = self.rig_tilt;
        core.viewport.rig_roll = self.rig_roll;
        core.input_format = InputFormat::Yuv420p;
        let fps: (i32, i32) = if rate.0 > 0 && rate.1 > 0 {
            rate
        } else {
            (30, 1)
        };
        let quality = match self.bitrate {
            Bitrate::Quality(q) => q,
            Bitrate::Crf(_) => Quality::Balanced,
        };
        JobPlan {
            core,
            encoder: EncoderPlan {
                width,
                height,
                fps,
                encoder_name: copy_text(&self.encoder_name),
                codec: self.codec,
                quality,
                quality_value: self.quality_value,
                preset: copy_text(&self.preset),
                audio_source: if self.with_audio {
                    Some(self.input.clone())
                } else {
                    None
                },
                container: self.format,
            },
            fps: F64::from_whole(fps.0 as u64).div(F64::from_whole(fps.1 as u64)),
            detection_interval: self.detection_interval,
        }
    }

    /// Begins to run the job, and hands out its hook, which is to be run before
    /// anything else.
    pub fn run(&mut self) -> (r: (JobRun, Option<H>))
        ensures
            r.0 == begun_run(old(self).session_hook is Some),
            r.1 == old(self).session_hook,
            *final(self) == (MonoJob { session_hook: None, ..*old(self) }),
    {
        let hook = self.session_hook.take();
        let step = if hook.is_some() {
            JobStep::Hook
        } else {
            JobStep::Open
        };
        (JobRun { frame_count: 0, step }, hook)
    }
}

/// What a running job needs done next.
#[derive(Clone, Copy, Debug, PartialEq, Eq, Structural)]
pub enum JobStep {
    /// The hook is to be run, on the core and with the rate of the video. It
    /// cannot fail.
    Hook,
    /// The encoder is to be opened, and the core told how often to detect.
    Open,
    /// Whether the user wants to stop is to be found out.
    Poll,
    /// The next frame is to be read.
    Decode,
    /// The frame is to be rendered.
    Submit,
    /// The rendered pixels are to be written.
    Write,
    /// The next frame still on its way is to be fetched.
    Flush,
    /// The fetched pixels are to be written.
    WriteFlushed,
    /// The video is to be closed.
    Finish,
    /// All is done.
    Done,
    /// A step failed.
    Failed(FailedPart),
}

/// What failed.
#[derive(Clone, Copy, Debug, PartialEq, Eq, Structural)]
pub enum FailedPart {
    Decode,
    Core,
    Encoder,
}

/// How a step went.
#[derive(Clone, Copy, Debug, PartialEq, Eq, Structural)]
pub enum JobReply {
    /// The user wants to stop; there was a frame; it was done.
    Yes,
    /// The user does not want to stop; there was no frame.
    No,
    /// The step failed.
    Error,
}

/// A running job.
#[derive(Clone, Copy, Debug, PartialEq, Eq, Structural)]
pub struct JobRun {
    /// How many frames were written.
    pub frame_count: u64,
    pub step: JobStep,
}

impl JobRun {
    /// What fails when a step fails.
    pub open spec fn part(self) -> FailedPart {
        match self.step {
            JobStep::Poll => FailedPart::Decode,
            JobStep::Decode => FailedPart::Decode,
            JobStep::Submit => FailedPart::Core,
            JobStep::Flush => FailedPart::Core,
            _ => FailedPart::Encoder,
        }
    }

    /// This step writes a frame.
    pub open spec fn writes(self, reply: JobReply) -> bool {
        (self.step == JobStep::Write || self.step == JobStep::WriteFlushed) && reply
            != JobReply::Error
    }

    /// Nothing is left to do.
    pub open spec fn over(self) -> bool {
        self.step == JobStep::Done || self.step is Failed
    }

    /// The step that follows.
    pub open spec fn next_step(self, reply: JobReply) -> JobStep {
        let yes = reply == JobReply::Yes;
        if self.over() {
            self.step
        } else if self.step == JobStep::Hook {
            JobStep::Open
        } else if reply == JobReply::Error {
            JobStep::Failed(self.part())
        } else {
            match self.step {
                JobStep::Open => JobStep::Poll,
                JobStep::Poll => if yes {
                    JobStep::Flush
                } else {
                    JobStep::Decode
                },
                JobStep::Decode => if yes {
                    JobStep::Submit
                } else {
                    JobStep::Flush
                },
                JobStep::Submit => if yes {
                    JobStep::Write
                } else {
                    JobStep::Poll
                },
                JobStep::Write => JobStep::Poll,
                JobStep::Flush => if yes {
                    JobStep::WriteFlushed
                } else {
                    JobStep::Finish
                },
                JobStep::WriteFlushed => JobStep::Flush,
                _ => JobStep::Done,
            }
        }
    }

    /// The frame loop after a step went as the reply says.
    pub open spec fn after(self, reply: JobReply) -> JobRun {
        JobRun {
            frame_count: if self.writes(reply) {
                (self.frame_count + 1) as u64
            } else {
                self.frame_count
            },
            step: self.next_step(reply),
        }
    }

    /// Goes on after a step went as the reply says.
    pub fn advance(&mut self, reply: JobReply)
        requires
            old(self).frame_count < u64::MAX,
        ensures
            *final(self) == old(self).after(reply),
    {
        let (yes, error) = match reply {
            JobReply::Yes => (true, false),
            JobReply::No => (false, false),
            JobReply::Error => (false, true),
        };
        match self.step {
            JobStep::Done => {},
            JobStep::Failed(_) => {},
            JobStep::Hook => {
                self.step = JobStep::Open;
            },
            JobStep::Open => {
                self.step = if error {
                    JobStep::Failed(FailedPart::Encoder)
                } else {
                    JobStep::Poll
                };
            },
            JobStep::Poll => {
                self.step = if error {
                    JobStep::Failed(FailedPart::Decode)
                } else if yes {
                    JobStep::Flush
                } else {
                    JobStep::Decode
                };
            },
            JobStep::Decode => {
                self.step = if error {
                    JobStep::Failed(FailedPart::Decode)
                } else if yes {
                    JobStep::Submit
                } else {
                    JobStep::Flush
                };
            },
            JobStep::Submit => {
                self.step = if error {
                    JobStep::Failed(FailedPart::Core)
                } else if yes {
                    JobStep::Write
                } else {
                    JobStep::Poll
                };
            },
            JobStep::Write => {
                if error {
                    self.step = JobStep::Failed(FailedPart::Encoder);
                } else {
                    self.frame_count = self.frame_count + 1;
                    self.step = JobStep::Poll;
                }
            },
            JobStep::Flush => {
                self.step = if error {
                    JobStep::Failed(FailedPart::Core)
                } else if yes {
                    JobStep::WriteFlushed
                } else {
                    JobStep::Finish
                };
            },
            JobStep::WriteFlushed => {
                if error {
                    self.step = JobStep::Failed(FailedPart::Encoder);
                } else {
                    self.frame_count = self.frame_count + 1;
                    self.step = JobStep::Flush;
                }
            },
            JobStep::Finish => {
                self.step = if error {
                    JobStep::Failed(FailedPart::Encoder)
                } else {
                    JobStep::Done
                };
            },
        }
    }

    /// What came of the job, once it is over: how many frames were written, or
    /// what failed and why. Nothing before that.
    pub fn outcome(&self, why: String) -> (r: Option<Result<MonoJobResult, MonoJobError>>)
        ensures
            match self.step {
                JobStep::Done => r == Some(
                    Ok::<MonoJobResult, MonoJobError>(
                        MonoJobResult { frame_count: self.frame_count },
                    ),
                ),
                JobStep::Failed(FailedPart::Decode) => r == Some(
                    Err::<MonoJobResult, MonoJobError>(MonoJobError::Decode(why)),
                ),
                JobStep::Failed(FailedPart::Core) => r == Some(
                    Err::<MonoJobResult, MonoJobError>(MonoJobError::Core(why)),
                ),
                JobStep::Failed(FailedPart::Encoder) => r == Some(
                    Err::<MonoJobResult, MonoJobError>(MonoJobError::Encoder(why)),
                ),
                _ => r is None,
            },
    {
        match self.step {
            JobStep::Done => Some(Ok(MonoJobResult { frame_count: self.frame_count })),
            JobStep::Failed(FailedPart::Decode) => Some(Err(MonoJobError::Decode(why))),
            JobStep::Failed(FailedPart::Core) => Some(Err(MonoJobError::Core(why))),
            JobStep::Failed(FailedPart::Encoder) => Some(Err(MonoJobError::Encoder(why))),
            _ => None,
        }
    }
}

/// A run that begins, with a hook or without.
pub open spec fn begun_run(hooked: bool) -> JobRun {
    JobRun {
        frame_count: 0,
        step: if hooked {
            JobStep::Hook
        } else {
            JobStep::Open
        },
    }
}

/// A registered hook is run exactly once, before any frame is read: it is the
/// first step and never comes again, and a job without one never asks for it.
pub proof fn law_hook_runs_once_and_first(hooked: bool, replies: Seq<JobReply>)
    ensures
        run_after(begun_run(hooked), replies).step == JobStep::Hook <==> hooked && replies.len()
            == 0,
        replies.len() <= (if hooked {
            1int
        } else {
            0int
        }) ==> run_after(begun_run(hooked), replies).step == JobStep::Hook || run_after(
            begun_run(hooked),
            replies,
        ).step == JobStep::Open,
    decreases replies.len(),
{
    if replies.len() > 0 {
        law_hook_runs_once_and_first(hooked, replies.drop_last());
    }
}

/// A running job after as many steps as there are replies.
pub open spec fn run_after(run: JobRun, replies: Seq<JobReply>) -> JobRun
    decreases replies.len(),
{
    if replies.len() == 0 {
        run
    } else {
        run_after(run, replies.drop_last()).after(replies.last())
    }
}

/// How many steps in the course of the replies wrote a frame.
pub open spec fn written(run: JobRun, replies: Seq<JobReply>) -> nat
    decreases replies.len(),
{
    if replies.len() == 0 {
        0
    } else {
        let before = run_after(run, replies.drop_last());
        written(run, replies.drop_last()) + if before.writes(replies.last()) {
            1nat
        } else {
            0nat
        }
    }
}

/// The count is that of the frames written, whatever happens.
pub proof fn law_count_is_of_frames_written(run: JobRun, replies: Seq<JobReply>)
    requires
        run.frame_count + replies.len() <= u64::MAX,
    ensures
        run_after(run, replies).frame_count == run.frame_count + written(run, replies),
        written(run, replies) <= replies.len(),
    decreases replies.len(),
{
    if replies.len() > 0 {
        law_count_is_of_frames_written(run, replies.drop_last());
    }
}

/// Pixels that came back are always written before anything else is done, be
/// it that they came of rendering or that they were still on their way.
pub proof fn law_pixels_are_written(run: JobRun)
    ensures
        run.step == JobStep::Submit ==> run.after(JobReply::Yes).step == JobStep::Write,
        run.step == JobStep::Flush ==> run.after(JobReply::Yes).step == JobStep::WriteFlushed,
        run.after(JobReply::No).step == JobStep::Finish && run.step != JobStep::Finish
            ==> run.step == JobStep::Flush,
{
}

/// A job is closed only after nothing more is on its way, whether it was
/// stopped or the video ended; and once over it stays as it is.
pub proof fn law_over_stays(run: JobRun, reply: JobReply)
    ensures
        run.over() ==> run.after(reply) == run,
        run.after(reply).step == JobStep::Done && run.step != JobStep::Done ==> run.step
            == JobStep::Finish,
        run.after(reply).step == JobStep::Finish && run.step != JobStep::Finish ==> run.step
            == JobStep::Flush && reply == JobReply::No,
{
}

} // verus!
