use reco::autocam::{ModelPathError, TrackingMode};
use reco::calibration::CameraParams;
use reco::cli::{
    check_output_size, mono_report, parse_blend, parse_codec, parse_quality, parse_wxh, plan_mono,
    run_mono, tracking_for, tracking_outcome, MonoArgs, MonoRefusal, MonoTracking, SizeError,
    TrackingNote,
};
use reco::double::F64;
use reco::mono_job::{
    Bitrate, Codec, FailedPart, Format, JobReply, JobStep, MonoJob, MonoJobError, MonoJobResult,
    Quality,
};
use reco::panner_config::FieldPannerConfig;
use reco::pipeline::InputFormat;
use reco::single::F32;

fn f(x: f32) -> F32 {
    F32::from_bits(x.to_bits())
}

fn d(x: f64) -> F64 {
    F64::from_bits(x.to_bits())
}

fn camera() -> CameraParams {
    CameraParams {
        width: 1920,
        height: 1080,
        fx: d(700.0),
        fy: d(700.0),
        cx: d(960.0),
        cy: d(540.0),
        d: [d(0.0); 4],
    }
}

#[test]
fn sizes_are_width_and_height() {
    assert!(matches!(parse_wxh("1280x720"), Ok((1280, 720))));
    assert!(matches!(parse_wxh("854x480"), Err(SizeError::OddWidth(854))));
    assert!(matches!(parse_wxh("856X480"), Ok((856, 480))));
    assert!(matches!(parse_wxh("+8x+2"), Ok((8, 2))));
    assert!(matches!(parse_wxh("1280"), Err(SizeError::NoCross)));
    assert!(matches!(parse_wxh("0x720"), Err(SizeError::Zero { width: 0, height: 720 })));
    assert!(matches!(parse_wxh("1280x721"), Err(SizeError::OddHeight(721))));
    match parse_wxh("12a0x720") {
        Err(SizeError::Width(t)) => assert_eq!(t, "12a0"),
        other => panic!("{other:?}"),
    }
    match parse_wxh("1280x7x2") {
        Err(SizeError::Height(t)) => assert_eq!(t, "7x2"),
        other => panic!("{other:?}"),
    }
    assert!(matches!(parse_wxh("4294967296x2"), Err(SizeError::Width(_))));
    assert!(matches!(parse_wxh("x2"), Err(SizeError::Width(_))));
}

#[test]
fn seams_are_fractions() {
    assert_eq!(parse_blend(f(0.15)), Ok(f(0.15)));
    assert_eq!(parse_blend(f(1.0)), Ok(f(1.0)));
    assert_eq!(parse_blend(f(1.01)), Err(f(1.01)));
    assert_eq!(parse_blend(f(-0.1)), Err(f(-0.1)));
    assert!(parse_blend(f(f32::NAN)).is_err());
}

#[test]
fn outputs_have_a_largest_size() {
    assert!(check_output_size(8192, 1).is_ok());
    assert_eq!(
        check_output_size(8193, 720),
        Err("Output dimensions 8193x720 out of range: width and height must be 1..=8192".to_string())
    );
    assert!(check_output_size(0, 720).is_err() && check_output_size(720, 0).is_err());
}

#[test]
fn codecs_and_qualities_have_names() {
    assert_eq!(parse_codec("h264"), Some(Codec::H264));
    assert_eq!(parse_codec("hevc"), Some(Codec::Hevc));
    assert_eq!(parse_codec("av1"), Some(Codec::Av1));
    assert_eq!(parse_codec("vp9"), None);
    assert_eq!(parse_quality("fast"), Some(Quality::Fast));
    assert_eq!(parse_quality("balanced"), Some(Quality::Balanced));
    assert_eq!(parse_quality("high"), Some(Quality::High));
    assert_eq!(parse_quality("best"), None);
}

fn args<'a>() -> MonoArgs<'a> {
    MonoArgs {
        input: "in.mp4",
        output: "out.mp4",
        width: 1280,
        height: 720,
        encoder_name: None,
        codec: "hevc",
        quality: "high",
        quality_value: Some(70),
        preset: None,
        no_audio: true,
        model_path: Some("/"),
        detection_interval: 0,
        tracking_mode: "ball",
        panner_preset: Some("Basketball"),
        panner_config_path: None,
        allow_no_tracking: false,
    }
}

#[test]
fn the_command_becomes_a_job() {
    let plan = match run_mono(args(), camera()) {
        Ok(plan) => plan,
        Err(e) => panic!("{e:?}"),
    };
    assert_eq!(plan.job.input, "in.mp4");
    assert_eq!(plan.job.output, "out.mp4");
    assert_eq!((plan.job.codec, plan.job.bitrate), (Codec::Hevc, Bitrate::Quality(Quality::High)));
    assert_eq!(plan.job.resolution, Some((1280, 720)));
    assert_eq!((plan.job.quality_value, plan.job.with_audio), (Some(70), false));
    assert_eq!(plan.job.detection_interval, 1);
    assert_eq!(plan.panner, Some(FieldPannerConfig::basketball()));
}

#[test]
fn the_command_is_refused_for_a_reason() {
    let no = |a: MonoArgs<'_>| match plan_mono(a, camera(), Ok(())) {
        Ok(_) => panic!("accepted"),
        Err(e) => e,
    };
    assert!(matches!(no(MonoArgs { width: 0, ..args() }), MonoRefusal::Size(_)));
    match no(MonoArgs { model_path: None, ..args() }) {
        MonoRefusal::NoModel(m) => assert_eq!(
            m,
            "mono requires --model unless --tracking sweep (there is no default detector)"
        ),
        other => panic!("{other:?}"),
    }
    match no(MonoArgs { codec: "vp9", ..args() }) {
        MonoRefusal::Codec(c) => assert_eq!(c, "vp9"),
        other => panic!("{other:?}"),
    }
    match no(MonoArgs { quality: "best", ..args() }) {
        MonoRefusal::Quality(q) => assert_eq!(q, "best"),
        other => panic!("{other:?}"),
    }
    match no(MonoArgs { panner_preset: Some("nope"), ..args() }) {
        MonoRefusal::Preset(m) => assert_eq!(
            m,
            "unknown --panner-preset 'nope' (expected: broadcast, action, frame_all, basketball)"
        ),
        other => panic!("{other:?}"),
    }
    let gone = Err(ModelPathError::NotFound("gone".to_string()));
    match plan_mono(args(), camera(), gone) {
        Err(MonoRefusal::Model(ModelPathError::NotFound(m))) => assert_eq!(m, "gone"),
        _ => panic!("the model is gone"),
    }
    let missing = MonoArgs { model_path: Some("/no-such-model.onnx"), ..args() };
    assert!(matches!(run_mono(missing, camera()), Err(MonoRefusal::Model(_))));
}

#[test]
fn a_sweep_needs_no_model() {
    let a = MonoArgs { model_path: None, tracking_mode: "sweep", panner_preset: None, ..args() };
    let plan = match run_mono(a, camera()) {
        Ok(plan) => plan,
        Err(e) => panic!("{e:?}"),
    };
    assert!(plan.panner.is_none() && plan.job.session_hook.is_none());
    match tracking_for("sweep", "", 1, None) {
        MonoTracking::Sweep { reach, period } => assert_eq!((reach, period), (f(0.8), f(10.0))),
        other => panic!("{other:?}"),
    }
}

#[test]
fn the_ball_alone_counts_from_a_quarter() {
    match tracking_for("ball", "m.onnx", 5, Some(FieldPannerConfig::action())) {
        MonoTracking::Auto(c) => {
            assert_eq!(c.model_path, "m.onnx");
            assert_eq!(c.tracking_mode, TrackingMode::Ball);
            assert_eq!(c.detection_interval, 5);
            assert_eq!(c.confidence_threshold, Some(f(0.25)));
            assert_eq!(c.field_panner_config, Some(FieldPannerConfig::action()));
        }
        other => panic!("{other:?}"),
    }
    match tracking_for("anything", "m.onnx", 5, None) {
        MonoTracking::Auto(c) => {
            assert_eq!(c.tracking_mode, TrackingMode::Field);
            assert_eq!(c.confidence_threshold, None);
        }
        other => panic!("{other:?}"),
    }
}

#[test]
fn tracking_may_fail_where_that_is_allowed() {
    assert!(matches!(tracking_outcome(Ok(true), false), TrackingNote::Enabled));
    match tracking_outcome(Ok(false), true) {
        TrackingNote::Warned(m) => assert!(m.starts_with("Tracking requested but no CPU detector")),
        other => panic!("{other:?}"),
    }
    match tracking_outcome(Err("boom".to_string()), false) {
        TrackingNote::Failed(m) => assert_eq!(
            m,
            "Autocam setup failed: boom. Pass --allow-no-tracking to continue without tracking."
        ),
        other => panic!("{other:?}"),
    }
    assert_eq!(mono_report(12, false), Ok(12));
    assert!(mono_report(12, true).unwrap_err().starts_with("tracking setup failed"));
}

fn job() -> MonoJob<u8> {
    MonoJob::new("in.mp4".to_string(), "out.mp4".to_string(), camera())
}

#[test]
fn a_job_begins_with_defaults() {
    let j = job();
    assert_eq!((j.codec, j.bitrate), (Codec::H264, Bitrate::Quality(Quality::Balanced)));
    assert!(j.with_audio && j.resolution.is_none() && j.session_hook.is_none());
    let j = j
        .max_theta_rad(f(1.5))
        .rig_tilt_roll(f(0.1), f(0.2))
        .codec(Codec::Av1)
        .quality(Quality::Fast)
        .resolution(640, 480)
        .encoder_name("libx264".to_string())
        .quality_value(50)
        .preset("veryfast".to_string())
        .with_audio(false)
        .detection_interval(0)
        .on_session(9);
    assert_eq!((j.max_theta_rad, j.rig_tilt, j.rig_roll), (f(1.5), f(0.1), f(0.2)));
    assert_eq!((j.encoder_name.as_deref(), j.preset.as_deref()), (Some("libx264"), Some("veryfast")));
    assert_eq!((j.detection_interval, j.session_hook), (1, Some(9)));
    let p = j.plan(3840, 2160, (30000, 1001));
    assert_eq!((p.encoder.width, p.encoder.height, p.encoder.fps), (640, 480, (30000, 1001)));
    assert_eq!(p.fps, d(30000.0 / 1001.0));
    assert_eq!((p.encoder.codec, p.encoder.quality), (Codec::Av1, Quality::Fast));
    assert!(p.encoder.audio_source.is_none());
    assert_eq!(p.encoder.encoder_name.as_deref(), Some("libx264"));
    assert_eq!(p.encoder.preset.as_deref(), Some("veryfast"));
    assert_eq!((p.encoder.quality_value, p.encoder.container), (Some(50), Format::Mp4));
    assert_eq!((p.core.viewport.width, p.core.viewport.height), (640, 480));
    assert_eq!((p.core.viewport.rig_tilt, p.core.max_theta_rad), (f(0.1), f(1.5)));
    assert_eq!(p.core.input_format, InputFormat::Yuv420p);
    assert_eq!(p.core.camera.fx, d(1400.0));
}

#[test]
fn a_rate_that_makes_no_sense_is_thirty() {
    let p = job().plan(1920, 1080, (0, 1));
    assert_eq!((p.encoder.fps, p.fps), ((30, 1), d(30.0)));
    assert_eq!((p.encoder.width, p.encoder.height), (1920, 1080));
    let mut j = job();
    assert_eq!(p.encoder.audio_source, Some(j.input.clone()));
    j.format = Format::Mkv;
    assert_eq!(j.plan(1920, 1080, (25, 1)).encoder.container, Format::Mkv);
    j.bitrate = Bitrate::Crf(18);
    assert_eq!(j.plan(1920, 1080, (25, 0)).encoder.quality, Quality::Balanced);
}

#[test]
fn a_job_writes_what_it_rendered_and_what_was_on_its_way() {
    let (mut run, hook) = job().run();
    assert!(hook.is_none());
    let (mut left, mut warm, mut flying) = (5, 2, 0);
    loop {
        let reply = match run.step {
            JobStep::Poll => JobReply::No,
            JobStep::Decode if left == 0 => JobReply::No,
            JobStep::Decode => {
                left -= 1;
                JobReply::Yes
            }
            JobStep::Submit if warm > 0 => {
                warm -= 1;
                flying += 1;
                JobReply::No
            }
            JobStep::Submit => JobReply::Yes,
            JobStep::Flush if flying == 0 => JobReply::No,
            JobStep::Flush => {
                flying -= 1;
                JobReply::Yes
            }
            JobStep::Done | JobStep::Failed(_) => break,
            _ => JobReply::Yes,
        };
        run.advance(reply);
    }
    assert_eq!(run.step, JobStep::Done);
    assert_eq!(run.frame_count, 5);
    match run.outcome(String::new()) {
        Some(Ok(MonoJobResult { frame_count })) => assert_eq!(frame_count, 5),
        _ => panic!("the job is done"),
    }
}

#[test]
fn a_hook_runs_once_and_before_the_first_frame() {
    let mut job = job().on_session(9);
    let (mut run, hook) = job.run();
    assert_eq!((run.step, hook, job.session_hook), (JobStep::Hook, Some(9), None));
    for reply in [JobReply::Error, JobReply::Yes, JobReply::No, JobReply::Yes, JobReply::Yes] {
        run.advance(reply);
        assert_ne!(run.step, JobStep::Hook);
    }
    assert_eq!(run.step, JobStep::Write);
    assert_eq!(job.run().1, None, "it was handed out");
}

#[test]
fn a_stopped_job_still_writes_what_was_on_its_way() {
    let mut run = job().run().0;
    assert_eq!(run.step, JobStep::Open);
    run.advance(JobReply::Yes);
    assert_eq!(run.step, JobStep::Poll);
    run.advance(JobReply::Yes);
    assert_eq!(run.step, JobStep::Flush);
    assert!(run.outcome(String::new()).is_none());
    run.advance(JobReply::Yes);
    run.advance(JobReply::Yes);
    run.advance(JobReply::No);
    assert_eq!((run.step, run.frame_count), (JobStep::Finish, 1));
}

#[test]
fn a_job_says_what_failed() {
    assert_eq!(MonoJobError::Gpu("none".to_string()).message(), "GPU: none");
    let (y, n, e) = (JobReply::Yes, JobReply::No, JobReply::Error);
    for (steps, part) in [
        (vec![e], FailedPart::Encoder),
        (vec![y, n, e], FailedPart::Decode),
        (vec![y, n, y, e], FailedPart::Core),
        (vec![y, n, y, y, e], FailedPart::Encoder),
        (vec![y, y, e], FailedPart::Core),
        (vec![y, y, n, e], FailedPart::Encoder),
    ] {
        let mut run = job().run().0;
        for s in steps {
            run.advance(s);
        }
        assert_eq!(run.step, JobStep::Failed(part));
        let error = match run.outcome("why".to_string()) {
            Some(Err(e)) => e,
            _ => panic!("the job failed"),
        };
        let said = match part {
            FailedPart::Decode => "decode: why",
            FailedPart::Core => "stitch core: why",
            FailedPart::Encoder => "encoder: why",
        };
        assert_eq!(error.message(), said);
        match (part, error) {
            (FailedPart::Decode, MonoJobError::Decode(w)) => assert_eq!(w, "why"),
            (FailedPart::Core, MonoJobError::Core(w)) => assert_eq!(w, "why"),
            (FailedPart::Encoder, MonoJobError::Encoder(w)) => assert_eq!(w, "why"),
            (p, e) => panic!("{p:?} {e:?}"),
        }
    }
}
