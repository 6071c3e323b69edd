//! What the command line is taken for.
use crate::autocam::{
    missing_message, path_verdict, validate_model_path, AutocamConfig, ModelPathError,
    TrackingMode,
};
use crate::calibration::CameraParams;
use crate::detect_target::at_least_one;
use crate::mono_core::DEFAULT_MAX_THETA_RAD;
use crate::mono_job::{Bitrate, Codec, Format, MonoJob, Quality};
use crate::panner_config::{preset, FieldPannerConfig};
use crate::pipeline::push_size;
use crate::single::F32;
use crate::text::{chars_of, decimal, number, read_number, same_text};
use vstd::prelude::*;
use vstd::string::{StrSliceExecFns, StringExecFns};

verus! {

/// From zero to one.
pub open spec fn fraction(x: F32) -> bool {
    (F32 { bits: 0 }).at_most(x) && x.at_most(F32 { bits: 0x3F80_0000 })
}

/// The width of the seam, if it is from zero to one; else the number again.
pub fn parse_blend(v: F32) -> (r: Result<F32, F32>)
    ensures
        r == (if fraction(v) {
            Ok::<F32, F32>(v)
        } else {
            Err::<F32, F32>(v)
        }),
{
    if F32::from_bits(0).le(v) && v.le(F32::from_bits(0x3F80_0000)) {
        Ok(v)
    } else {
        Err(v)
    }
}

/// Why a size is refused.
#[derive(Clone, Debug)]
pub enum SizeError {
    /// Nothing stands between width and height.
    NoCross,
    /// The width is not a number that fits.
    Width(String),
    /// The height is not a number that fits.
    Height(String),
    /// One of the two is zero.
    Zero { width: u32, height: u32 },
    /// The width is not divisible by four.
    OddWidth(u32),
    /// The height is odd.
    OddHeight(u32),
}

/// A letter that stands between width and height.
pub open spec fn cross(c: char) -> bool {
    c == 'x' || c == 'X'
}

/// Where the first such letter is; the length of the text where there is none.
pub open spec fn cross_at(s: Seq<char>) -> int
    decreases s.len(),
{
    if s.len() == 0 || cross(s[0]) {
        0
    } else {
        1 + cross_at(s.skip(1))
    }
}

/// What a width and a height are taken for.
pub open spec fn size_verdict(r: Result<(u32, u32), SizeError>, w: u32, h: u32) -> bool {
    if w == 0 || h == 0 {
        r == Err::<(u32, u32), SizeError>(SizeError::Zero { width: w, height: h })
    } else if w % 4 != 0 {
        r == Err::<(u32, u32), SizeError>(SizeError::OddWidth(w))
    } else if h % 2 != 0 {
        r == Err::<(u32, u32), SizeError>(SizeError::OddHeight(h))
    } else {
        r == Ok::<(u32, u32), SizeError>((w, h))
    }
}

/// A width and a height with an `x` between them: the width divisible by four,
/// the height even, neither zero.
pub fn parse_wxh(s: &str) -> (r: Result<(u32, u32), SizeError>)
    ensures
        ({
            let k = cross_at(s@);
            let w = s@.take(k);
            let h = s@.skip(k + 1);
            if k >= s@.len() {
                r == Err::<(u32, u32), SizeError>(SizeError::NoCross)
            } else {
                match (number(w, u32::MAX as nat), number(h, u32::MAX as nat)) {
                    (None, _) => r matches Err(SizeError::Width(t)) && t@ == w,
                    (Some(_), None) => r matches Err(SizeError::Height(t)) && t@ == h,
                    (Some(a), Some(b)) => size_verdict(r, a as u32, b as u32),
                }
            }
        }),
{
    let v: Vec<char> = chars_of(s);
    let n: usize = v.len();
    let mut k: usize = 0;
    assert(v@.skip(0) =~= v@);
    while k < n && v[k] != 'x' && v[k] != 'X'
        invariant
            k <= n,
            n == v@.len(),
            cross_at(v@) == k + cross_at(v@.skip(k as int)),
        decreases n - k,
    {
        assert(v@.skip(k as int).skip(1) =~= v@.skip(k + 1));
        k += 1;
    }
    proof {
        if k < n {
            assert(v@.skip(k as int)[0] == v@[k as int]);
        }
    }
    if k >= n {
        return Err(SizeError::NoCross);
    }
    proof {
        assert(v@.subrange(0, k as int) =~= s@.take(k as int));
        assert(v@.subrange(k + 1, n as int) =~= s@.skip(k + 1));
    }
    let w: u32 = match read_number(&v, 0, k, u32::MAX as u64) {
        Some(w) => w as u32,
        None => {
            return Err(SizeError::Width(s.substring_char(0, k).to_owned()));
        },
    };
    let h: u32 = match read_number(&v, k + 1, n, u32::MAX as u64) {
        Some(h) => h as u32,
        None => {
            return Err(SizeError::Height(s.substring_char(k + 1, n).to_owned()));
        },
    };
    if w == 0 || h == 0 {
        return Err(SizeError::Zero { width: w, height: h });
    }
    if w % 4 != 0 {
        return Err(SizeError::OddWidth(w));
    }
    if h % 2 != 0 {
        return Err(SizeError::OddHeight(h));
    }
    Ok((w, h))
}

/// A size is accepted only if frames of it can be packed: the width is a
/// positive multiple of four, the height a positive multiple of two.
pub proof fn law_accepted_size_can_be_packed(
    r: Result<(u32, u32), SizeError>,
    w: u32,
    h: u32,
)
    requires
        size_verdict(r, w, h),
    ensures
        r is Ok <==> w > 0 && h > 0 && w % 4 == 0 && h % 2 == 0,
        r matches Ok(size) ==> size == (w, h),
{
}

/// What the mono command is given.
pub struct MonoArgs<'a> {
    pub input: &'a str,
    pub output: &'a str,
    pub width: u32,
    pub height: u32,
    pub encoder_name: Option<String>,
    pub codec: &'a str,
    pub quality: &'a str,
    pub quality_value: Option<u8>,
    pub preset: Option<String>,
    pub no_audio: bool,
    pub model_path: Option<&'a str>,
    pub detection_interval: u64,
    pub tracking_mode: &'a str,
    pub panner_preset: Option<&'a str>,
    pub panner_config_path: Option<&'a str>,
    pub allow_no_tracking: bool,
}

/// The largest width or height of a video.
pub const MAX_OUTPUT: u32 = 8192;

/// Why the mono command is refused.
#[derive(Clone, Debug)]
pub enum MonoRefusal {
    /// The video's size is impossible. Holds the message.
    Size(String),
    /// There is nothing to detect with. Holds the message.
    NoModel(String),
    /// The model is not there.
    Model(ModelPathError),
    /// There is no such codec.
    Codec(String),
    /// There is no such quality.
    Quality(String),
    /// There is no such panner. Holds the message.
    Preset(String),
}

/// How the camera is to be steered.
#[derive(Clone, Debug)]
pub enum MonoTracking {
    /// To and fro, so far to each side, once in so many seconds.
    Sweep { reach: F32, period: F32 },
    /// By what is detected.
    Auto(AutocamConfig),
}

/// What the mono command comes to.
pub struct MonoPlan {
    pub job: MonoJob<MonoTracking>,
    /// The panner that was asked for by name.
    pub panner: Option<FieldPannerConfig>,
}

/// A video can have this size.
pub open spec fn possible_output(width: u32, height: u32) -> bool {
    0 < width && width <= MAX_OUTPUT && 0 < height && height <= MAX_OUTPUT
}

/// What is said of an impossible size.
pub open spec fn impossible_output(width: u32, height: u32) -> Seq<char> {
    "Output dimensions "@ + (decimal(width as nat) + "x"@ + decimal(height as nat))
        + " out of range: width and height must be 1..=8192"@
}

/// Whether a video can have this size, and if not, what is said of it.
pub fn check_output_size(width: u32, height: u32) -> (r: Result<(), String>)
    ensures
        if possible_output(width, height) {
            r is Ok
        } else {
            r matches Err(e) && e@ == impossible_output(width, height)
        },
{
    if width > 0 && width <= MAX_OUTPUT && height > 0 && height <= MAX_OUTPUT {
        Ok(())
    } else {
        let mut e: String = String::from_str("Output dimensions ");
        push_size(&mut e, width, height);
        e.append(" out of range: width and height must be 1..=8192");
        Err(e)
    }
}

/// The codec of a name, one of those that the help of the command line lists.
pub open spec fn codec_named(name: Seq<char>) -> Option<Codec> {
    if name == "h264"@ {
        Some(Codec::H264)
    } else if name == "hevc"@ {
        Some(Codec::Hevc)
    } else if name == "av1"@ {
        Some(Codec::Av1)
    } else {
        None
    }
}

/// The codec of a name.
pub fn parse_codec(name: &str) -> (r: Option<Codec>)
    ensures
        r == codec_named(name@),
{
    if same_text(name, "h264") {
        Some(Codec::H264)
    } else if same_text(name, "hevc") {
        Some(Codec::Hevc)
    } else if same_text(name, "av1") {
        Some(Codec::Av1)
    } else {
        None
    }
}

/// The quality of a name, one of those that the help of the command line lists.
pub open spec fn quality_named(name: Seq<char>) -> Option<Quality> {
    if name == "fast"@ {
        Some(Quality::Fast)
    } else if name == "balanced"@ {
        Some(Quality::Balanced)
    } else if name == "high"@ {
        Some(Quality::High)
    } else {
        None
    }
}

/// The quality of a name.
pub fn parse_quality(name: &str) -> (r: Option<Quality>)
    ensures
        r == quality_named(name@),
{
    if same_text(name, "fast") {
        Some(Quality::Fast)
    } else if same_text(name, "balanced") {
        Some(Quality::Balanced)
    } else if same_text(name, "high") {
        Some(Quality::High)
    } else {
        None
    }
}

/// What is said of a panner that there is not.
pub open spec fn unknown_preset(name: Seq<char>) -> Seq<char> {
    "unknown --panner-preset '"@ + name
        + "' (expected: broadcast, action, frame_all, basketball)"@
}

/// What is said where there is nothing to detect with.
pub open spec fn model_missing() -> Seq<char> {
    "mono requires --model unless --tracking sweep (there is no default detector)"@
}

/// The panner that is asked for, if it is known or none is.
pub open spec fn panner_asked(name: Option<&str>) -> Option<Option<FieldPannerConfig>> {
    match name {
        Some(n) => match preset(n@) {
            Some(c) => Some(Some(c)),
            None => None,
        },
        None => Some(None),
    }
}

/// The job is the one that the arguments describe.
pub open spec fn job_of(
    job: MonoJob<MonoTracking>,
    args: MonoArgs<'_>,
    camera: CameraParams,
    codec: Codec,
    quality: Quality,
) -> bool {
    &&& job.input@ == args.input@
    &&& job.output@ == args.output@
    &&& job.camera == camera
    &&& job.max_theta_rad == (F32 { bits: DEFAULT_MAX_THETA_RAD })
    &&& job.rig_tilt == (F32 { bits: 0 })
    &&& job.rig_roll == (F32 { bits: 0 })
    &&& job.codec == codec
    &&& job.bitrate == Bitrate::Quality(quality)
    &&& job.format == Format::Mp4
    &&& job.resolution == Some((args.width, args.height))
    &&& job.encoder_name == args.encoder_name
    &&& job.quality_value == args.quality_value
    &&& job.preset == args.preset
    &&& job.with_audio == !args.no_audio
    &&& job.detection_interval == at_least_one(args.detection_interval)
    &&& job.session_hook is None
}

/// What the mono command comes to, given what is known of its model.
pub open spec fn mono_verdict(
    r: Result<MonoPlan, MonoRefusal>,
    args: MonoArgs<'_>,
    camera: CameraParams,
    model: Result<(), ModelPathError>,
) -> bool {
    if !possible_output(args.width, args.height) {
        r matches Err(MonoRefusal::Size(e)) && e@ == impossible_output(args.width, args.height)
    } else if args.tracking_mode@ != "sweep"@ && args.model_path is None {
        r matches Err(MonoRefusal::NoModel(e)) && e@ == model_missing()
    } else if args.model_path is Some && model is Err {
        r == Err::<MonoPlan, MonoRefusal>(MonoRefusal::Model(model->Err_0))
    } else {
        match (codec_named(args.codec@), quality_named(args.quality@), panner_asked(
            args.panner_preset,
        )) {
            (None, _, _) => r matches Err(MonoRefusal::Codec(e)) && e@ == args.codec@,
            (Some(_), None, _) => r matches Err(MonoRefusal::Quality(e)) && e@ == args.quality@,
            (Some(_), Some(_), None) => r matches Err(MonoRefusal::Preset(e)) && e@
                == unknown_preset(args.panner_preset->0@),
            (Some(codec), Some(quality), Some(panner)) => r matches Ok(plan) && plan.panner
                == panner && job_of(plan.job, args, camera, codec, quality),
        }
    }
}

/// What the mono command comes to, given what is known of its model.
pub fn plan_mono(
    args: MonoArgs<'_>,
    camera: CameraParams,
    model: Result<(), ModelPathError>,
) -> (r: Result<MonoPlan, MonoRefusal>)
    ensures
        mono_verdict(r, args, camera, model),
{
    if let Err(e) = check_output_size(args.width, args.height) {
        return Err(MonoRefusal::Size(e));
    }
    if !same_text(args.tracking_mode, "sweep") && args.model_path.is_none() {
        return Err(
            MonoRefusal::NoModel(
                String::from_str(
                    "mono requires --model unless --tracking sweep (there is no default detector)",
                ),
            ),
        );
    }
    if args.model_path.is_some() {
        if let Err(e) = model {
            return Err(MonoRefusal::Model(e));
        }
    }
    let codec: Codec = match parse_codec(args.codec) {
        Some(c) => c,
        None => {
            return Err(MonoRefusal::Codec(args.codec.to_owned()));
        },
    };
    let quality: Quality = match parse_quality(args.quality) {
        Some(q) => q,
        None => {
            return Err(MonoRefusal::Quality(args.quality.to_owned()));
        },
    };
    let mut job: MonoJob<MonoTracking> = MonoJob::new(
        args.input.to_owned(),
        args.output.to_owned(),
        camera,
    ).codec(codec).quality(quality).resolution(args.width, args.height).detection_interval(
        args.detection_interval,
    ).with_audio(!args.no_audio);
    if let Some(name) = args.encoder_name {
        job = job.encoder_name(name);
    }
    if let Some(q) = args.quality_value {
        job = job.quality_value(q);
    }
    if let Some(p) = args.preset {
        job = job.preset(p);
    }
    let panner: Option<FieldPannerConfig> = match args.panner_preset {
        Some(name) => match FieldPannerConfig::from_preset_name(name) {
            Some(c) => Some(c),
            None => {
                let mut e: String = String::from_str("unknown --panner-preset '");
                e.append(name);
                e.append("' (expected: broadcast, action, frame_all, basketball)");
                return Err(MonoRefusal::Preset(e));
            },
        },
        None => None,
    };
    Ok(MonoPlan { job, panner })
}

/// What the mono command comes to. Whether the model is there is for the disk
/// to say; it is only asked where a model is named.
pub fn run_mono(args: MonoArgs<'_>, camera: CameraParams) -> (r: Result<MonoPlan, MonoRefusal>)
    ensures
        args.model_path matches Some(p) ==> exists|
            found: Result<bool, String>,
            model: Result<(), ModelPathError>,
        |
            #[trigger] path_verdict(model, p@, found) && #[trigger] mono_verdict(
                r,
                args,
                camera,
                model,
            ),
        args.model_path matches Some(p) ==> possible_output(args.width, args.height) && p@.len()
            == 0 ==> (r matches Err(MonoRefusal::Model(ModelPathError::NotFound(m))) && m@
            == missing_message(p@)),
        args.model_path is None ==> mono_verdict(r, args, camera, Ok(())),
{
    let model: Result<(), ModelPathError> = match args.model_path {
        Some(path) => validate_model_path(path),
        None => Ok(()),
    };
    let ghost said = model;
    let ghost given = args;
    let r = plan_mono(args, camera, model);
    assert(mono_verdict(r, given, camera, said));
    proof {
        if let Some(path) = given.model_path {
            let found = choose|found: Result<bool, String>| path_verdict(said, path@, found);
            assert(path_verdict(said, path@, found));
        }
    }
    r
}

/// The bits of how far a sweep reaches to each side, in radians.
pub const SWEEP_REACH: u32 = 0x3F4C_CCCD;

/// The bits of how long a sweep takes, in seconds.
pub const SWEEP_PERIOD: u32 = 0x4120_0000;

/// The bits of the confidence from which a ball counts when it alone is
/// followed.
pub const BALL_CONFIDENCE: u32 = 0x3E80_0000;

/// What the camera follows, as a name has it.
pub open spec fn mode_named(name: Seq<char>) -> TrackingMode {
    if name == "ball"@ {
        TrackingMode::Ball
    } else {
        TrackingMode::Field
    }
}

/// How the camera is to be steered: it sweeps where that is asked for, else it
/// follows what a model detects.
pub fn tracking_for(
    tracking_mode: &str,
    model_path: &str,
    detection_interval: u64,
    panner: Option<FieldPannerConfig>,
) -> (r: MonoTracking)
    ensures
        if tracking_mode@ == "sweep"@ {
            r == (MonoTracking::Sweep {
                reach: F32 { bits: SWEEP_REACH },
                period: F32 { bits: SWEEP_PERIOD },
            })
        } else {
            &&& r matches MonoTracking::Auto(c)
            &&& c.model_path@ == model_path@
            &&& c.tracking_mode == mode_named(tracking_mode@)
            &&& c.detection_interval == detection_interval
            &&& c.field_roi is None
            &&& !c.is_10bit
            &&& c.field_panner_config == panner
            &&& c.confidence_threshold == (if mode_named(tracking_mode@) == TrackingMode::Ball {
                Some(F32 { bits: BALL_CONFIDENCE })
            } else {
                None
            })
        },
{
    if same_text(tracking_mode, "sweep") {
        return MonoTracking::Sweep {
            reach: F32::from_bits(SWEEP_REACH),
            period: F32::from_bits(SWEEP_PERIOD),
        };
    }
    let ball: bool = same_text(tracking_mode, "ball");
    let mode: TrackingMode = if ball {
        TrackingMode::Ball
    } else {
        TrackingMode::Field
    };
    let mut c: AutocamConfig = AutocamConfig::new(model_path.to_owned()).with_tracking_mode(
        mode,
    ).with_detection_interval(detection_interval);
    if ball {
        c.confidence_threshold = Some(F32::from_bits(BALL_CONFIDENCE));
    }
    c.field_panner_config = panner;
    MonoTracking::Auto(c)
}

/// What became of setting tracking up.
#[derive(Clone, Debug)]
pub enum TrackingNote {
    /// The camera is steered.
    Enabled,
    /// It is not, which is allowed. Holds the message.
    Warned(String),
    /// It is not, and the command is to fail. Holds the message.
    Failed(String),
}

/// What is said where tracking could not be set up.
pub open spec fn tracking_message(setup: Result<bool, String>) -> Seq<char> {
    match setup {
        Ok(_) =>
            "Tracking requested but no CPU detector backend is compiled in. Pass --allow-no-tracking to continue without tracking."@,
        Err(e) => "Autocam setup failed: "@ + e@
            + ". Pass --allow-no-tracking to continue without tracking."@,
    }
}

/// What became of setting tracking up. `setup` says whether there is anything
/// to detect with, or why it failed.
pub fn tracking_outcome(setup: Result<bool, String>, allow_no_tracking: bool) -> (r: TrackingNote)
    ensures
        if setup matches Ok(b) && b {
            r is Enabled
        } else if allow_no_tracking {
            r matches TrackingNote::Warned(m) && m@ == tracking_message(setup)
        } else {
            r matches TrackingNote::Failed(m) && m@ == tracking_message(setup)
        },
{
    let message: String = match setup {
        Ok(true) => {
            return TrackingNote::Enabled;
        },
        Ok(false) => String::from_str(
            "Tracking requested but no CPU detector backend is compiled in. Pass --allow-no-tracking to continue without tracking.",
        ),
        Err(e) => {
            let mut m: String = String::from_str("Autocam setup failed: ");
            m.append(e.as_str());
            m.append(". Pass --allow-no-tracking to continue without tracking.");
            m
        },
    };
    if allow_no_tracking {
        TrackingNote::Warned(message)
    } else {
        TrackingNote::Failed(message)
    }
}

/// What the command says in the end: how many frames were written, or that
/// tracking failed.
pub fn mono_report(frame_count: u64, tracking_failed: bool) -> (r: Result<u64, String>)
    ensures
        if tracking_failed {
            r matches Err(e) && e@
                == "tracking setup failed (see above); pass --allow-no-tracking to continue without it"@
        } else {
            r == Ok::<u64, String>(frame_count)
        },
{
    if tracking_failed {
        Err(
            String::from_str(
                "tracking setup failed (see above); pass --allow-no-tracking to continue without it",
            ),
        )
    } else {
        Ok(frame_count)
    }
}

} // verus!
