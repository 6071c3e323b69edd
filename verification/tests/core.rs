use reco::calibration::{CameraParams, MatchCalibration};
use reco::detect_target::{map_detections_to_panorama, Detection, DetectionTarget, MappedDetection};
use reco::double::F64;
use reco::mono_core::{MonoStitchCore, MonoStitchCoreConfig, DEFAULT_MAX_THETA_RAD};
use reco::pipeline::{
    InputFormat, MonoLens, MonoPipeline, OutputFormat, PipelineError, StitchPipeline, ViewportConfig,
};
use reco::projection::{CylindricalProjection, CylindricalProjectionConfig, LShapeProjection};
use reco::replay::{Duration, RenderOutcome, ReplayBuffer, ReplayFrame};
use reco::session::{
    EncoderStats, FinishReply, FinishStep, SessionConfig, StitchSession, TelemetrySnapshot,
};
use reco::single::F32;
use reco::stitch_core::{
    ClampedPosition, CoverageBoundary, StereoCameraInput, StitchCore, StitchCoreConfig,
    StitchCoreError,
};
use reco::world::{CameraId, ViewportPosition};

fn f(x: f32) -> F32 {
    F32::from_bits(x.to_bits())
}

fn g(x: F32) -> f32 {
    f32::from_bits(x.to_bits())
}

fn d(x: f64) -> F64 {
    F64::from_bits(x.to_bits())
}

fn e(x: F64) -> f64 {
    f64::from_bits(x.to_bits())
}

fn frame(rgba: Vec<u8>, millis: u64) -> ReplayFrame {
    ReplayFrame {
        rgba,
        captured_at: Duration::from_millis(millis),
        pose: ViewportPosition::default(),
    }
}

#[test]
fn replay_buffer_trims_old_frames() {
    let mut buf = ReplayBuffer::new(Duration::from_secs(2));
    for i in 0..5 {
        buf.push(frame(vec![i as u8; 4], i as u64 * 1000));
    }
    assert_eq!(buf.len(), 3);
    assert_eq!(buf.frames().iter().next().unwrap().rgba[0], 2);
    assert_eq!(buf.latest().unwrap().rgba[0], 4);
}

#[test]
fn replay_buffer_boundary_inclusive() {
    let mut buf = ReplayBuffer::new(Duration::from_millis(100));
    buf.push(frame(vec![], 0));
    buf.push(frame(vec![], 100));
    assert_eq!(buf.len(), 2);
}

#[test]
fn replay_buffer_empty_semantics() {
    let buf = ReplayBuffer::new(Duration::from_secs(1));
    assert!(buf.is_empty());
    assert!(buf.latest().is_none());
    assert!(buf.oldest().is_none());
    assert_eq!(buf.len(), 0);
    assert_eq!(buf.buffered_duration(), Duration::zero());
    assert_eq!(buf.max_duration(), Duration::from_secs(1));
}

#[test]
fn replay_buffer_snapshot_and_take_preserve_ordering() {
    let mut buf = ReplayBuffer::new(Duration::from_secs(10));
    for i in 0..3u8 {
        buf.push(frame(vec![i; 4], i as u64 * 100));
    }
    let snap = buf.snapshot();
    assert_eq!(snap.len(), 3);
    assert_eq!(snap[0].rgba[0], 0);
    assert_eq!(snap[2].rgba[0], 2);
    assert_eq!(buf.len(), 3, "snapshot does not drain");

    let drained = buf.take();
    assert_eq!(drained.len(), 3);
    assert_eq!(drained[0].rgba[0], 0);
    assert!(buf.is_empty(), "take empties the buffer");
}

#[test]
fn replay_buffer_clear_drops_frames_keeps_max_duration() {
    let mut buf = ReplayBuffer::new(Duration::from_secs(5));
    buf.push(frame(vec![0u8; 4], 0));
    assert!(!buf.is_empty());
    buf.clear();
    assert!(buf.is_empty());
    assert_eq!(
        buf.max_duration(),
        Duration::from_secs(5),
        "clear preserves the configured window"
    );
}

#[test]
fn replay_buffer_duration_tracks_oldest_newest_spread() {
    let mut buf = ReplayBuffer::new(Duration::from_secs(10));
    buf.push(frame(vec![], 100));
    buf.push(frame(vec![], 850));
    assert_eq!(buf.buffered_duration(), Duration::from_millis(750));
    assert_eq!(buf.oldest().unwrap().captured_at, Duration::from_millis(100));
}

#[test]
fn durations_are_seconds_and_nanoseconds() {
    let a = Duration::from_millis(2500);
    assert_eq!(a, Duration { secs: 2, nanos: 500_000_000 });
    assert_eq!(a.less(&Duration::from_millis(700)), Duration::from_millis(1800));
    assert_eq!(Duration::from_millis(700).less(&a), Duration::zero());
    assert!(Duration::from_millis(700).shorter(&a));
    let native = std::time::Duration::from_millis(2500);
    assert_eq!(e(a.as_secs_f64()), native.as_secs_f64());
    assert_eq!(g(a.as_secs_f32()), native.as_secs_f32());
}

#[test]
fn render_outcome_warmup_constructs() {
    let outcome: RenderOutcome<'_> = RenderOutcome::Warmup;
    match outcome {
        RenderOutcome::Warmup => {}
        RenderOutcome::Rgba(_) => unreachable!("built a Warmup"),
    }
}

fn viewport() -> ViewportConfig {
    ViewportConfig {
        width: 1280,
        height: 720,
        fov_degrees: f(75.0),
        blend_width: f(0.05),
        rig_tilt: f(0.1),
        rig_roll: f(0.0),
        lens_correction_amount: f(1.0),
    }
}

fn coverage() -> CoverageBoundary {
    CoverageBoundary { max_fov: f(60.0), yaw: (f(-1.0), f(1.0)), pitch: (f(-0.25), f(0.5)) }
}

type Core = StitchCore<u8, u16, u32, &'static str>;

fn config<J, I>(projection: Option<J>, camera_input: Option<I>) -> StitchCoreConfig<J, I> {
    StitchCoreConfig {
        calibration: MatchCalibration::mono_placeholder(),
        viewport: viewport(),
        input_width: 3840,
        input_height: 2160,
        output_format: OutputFormat::Rgba8Unorm,
        input_format: InputFormat::Yuv420p,
        projection,
        camera_input,
        replay_buffer_duration: None,
    }
}

fn a_core() -> Core {
    let config = config::<LShapeProjection, StereoCameraInput>(None, None);
    match Core::new("gpu", "name".to_string(), config, Ok(()), coverage()) {
        Ok(made) => made,
        Err(e) => panic!("{e:?}"),
    }
}

#[test]
fn a_core_begins_plain() {
    let c = a_core();
    assert_eq!(c.output_dims(), (1280, 720));
    assert_eq!(c.frame_count(), 0);
    assert_eq!(c.detection_interval(), 1);
    assert_eq!(c.projection_name(), "l-shape-stereo-2camera");
    assert_eq!(c.camera_count(), 2);
    assert!(c.constrained_look() && c.replay_buffer().is_none());
    assert_eq!(*c.gpu(), "gpu");
    assert_eq!(c.pipeline().gpu_name(), "name");
    assert_eq!(DetectionTarget::source_info(&c), (3840, 2160));
}

#[test]
fn cameras_must_match_the_projection() {
    let one = config::<CylindricalProjection, StereoCameraInput>(
        Some(CylindricalProjection::default()),
        None,
    );
    match Core::new("gpu", "name".to_string(), one, Ok(()), coverage()) {
        Err(StitchCoreError::Config(why)) => assert_eq!(
            why,
            "camera_input.camera_count() = 2 but projection.camera_count() = 1; these must match so StitchCore receives one frame per camera plane"
        ),
        _ => panic!("one camera is not two"),
    }
    let two = config::<LShapeProjection, StereoCameraInput>(Some(LShapeProjection), None);
    let refused = Core::new("gpu", "name".to_string(), two, Err("no".to_string()), coverage());
    assert!(matches!(refused, Err(StitchCoreError::Pipeline(_))));
}

#[test]
fn what_is_attached_can_be_taken_away() {
    let mut c = a_core();
    c.set_ball_tracker(1);
    c.set_player_tracker(2);
    c.set_panner(3);
    c.set_detector(4);
    assert_eq!((c.ball_tracker, c.player_tracker), (Some(1), Some(2)));
    assert_eq!((c.panner, c.detector), (Some(3), Some(4)));
    c.last_detections.push(mapped());
    c.clear_ball_tracker();
    c.clear_player_tracker();
    c.clear_panner();
    c.clear_detector();
    assert!(c.ball_tracker.is_none() && c.player_tracker.is_none());
    assert!(c.panner.is_none() && c.detector.is_none());
    assert!(c.last_detections.is_empty());
    c.set_detection_interval(0);
    assert_eq!(c.detection_interval(), 1);
    c.set_detection_interval(3);
    assert_eq!(c.detection_interval(), 3);
}

#[test]
fn a_target_is_set_up_through_its_trait() {
    fn set_up<X: DetectionTarget<Tracker = u8, Panner = u16, Detector = u32>>(x: &mut X) {
        x.set_ball_tracker(7);
        x.set_player_tracker(8);
        x.set_panner(9);
        x.set_detector(10);
        x.set_detection_interval(0);
    }
    let mut c = a_core();
    set_up(&mut c);
    assert_eq!((c.ball_tracker, c.player_tracker), (Some(7), Some(8)));
    assert_eq!((c.panner, c.detector, c.detection_interval), (Some(9), Some(10), 1));
    let mut m = mono(10.0);
    set_up(&mut m);
    assert_eq!((m.panner, m.detector, m.detection_interval), (Some(9), Some(10), 1));
    assert_eq!(DetectionTarget::source_info(&m), (1920, 1080));
}

#[test]
fn poses_are_moved_into_what_is_covered() {
    let mut c = a_core();
    let pose = ViewportPosition { yaw: f(3.0), pitch: f(0.4), fov_degrees: None };
    let q = c.clamp_query(pose).unwrap();
    assert_eq!((g(q.yaw), g(q.pitch), g(q.fov_degrees)), (3.0, 0.4, 60.0));
    assert_eq!(g(q.aspect), 1280.0 / 720.0);
    let answer = ClampedPosition { yaw: f(0.75), pitch: f(0.25) };
    let r = c.safe_clamp(pose, answer);
    assert_eq!((g(r.yaw), g(r.pitch)), (0.75, 0.25_f32 - 0.1_f32));
    assert_eq!(r.fov_degrees, Some(f(60.0)));
    assert_eq!(c.current_pose(Some(pose), answer), r);
    assert_eq!(c.pipeline().fov(), f(60.0));
    assert!(!c.toggle_constrained_look());
    assert_eq!(c.current_pose(Some(pose), answer), pose);
    let wide = ViewportPosition { fov_degrees: Some(f(170.0)), ..pose };
    let most = c.coverage.unwrap().max_fov;
    assert!(g(most) < 170.0);
    assert_eq!(c.current_pose(Some(wide), answer), ViewportPosition {
        fov_degrees: Some(most),
        ..pose
    });
    assert_eq!(c.pipeline().fov(), most);
    assert_eq!(c.safe_clamp(pose, answer).yaw, f(0.75));
    c.set_constrained_look(true);
    assert!(c.constrained_look());
    c.coverage = None;
    assert_eq!(c.safe_clamp(pose, answer), pose);
    assert!(c.clamp_query(pose).is_none() && c.panorama_extent().is_none());
}

#[test]
fn the_extent_is_that_of_the_coverage() {
    let mut c = a_core();
    let x = c.panorama_extent().unwrap();
    assert_eq!((g(x.yaw_min), g(x.yaw_max)), (-1.0, 1.0));
    assert_eq!((g(x.pitch_min), g(x.pitch_max)), (-0.25, 0.5));
    let wider = CoverageBoundary { yaw: (f(-2.0), f(2.0)), ..coverage() };
    c.update_calibration(MatchCalibration::mono_placeholder(), wider);
    assert_eq!(g(c.coverage().unwrap().yaw_range().1), 2.0);
    assert_eq!(g(c.coverage().unwrap().pitch_range().0), -0.25);
}

#[test]
fn replay_can_be_switched_on_and_off() {
    let mut c = a_core();
    c.enable_replay_buffer(Some(Duration::from_secs(3)));
    c.replay_buffer_mut().unwrap().push(frame(vec![1], 5));
    assert_eq!(c.replay_buffer().unwrap().len(), 1);
    c.replay_buffer_mut().unwrap().push(frame(vec![2], 6000));
    c.replay_buffer_mut().unwrap().push(frame(vec![3], 7000));
    assert_eq!(c.replay_buffer().unwrap().len(), 2);
    c.enable_replay_buffer(Some(Duration::from_secs(9)));
    assert_eq!(c.replay_buffer().unwrap().len(), 2, "a longer window keeps all");
    assert_eq!(c.replay_buffer().unwrap().max_duration(), Duration::from_secs(9));
    c.enable_replay_buffer(Some(Duration::from_secs(1)));
    assert_eq!(c.replay_buffer().unwrap().len(), 2, "the edge is kept");
    c.enable_replay_buffer(Some(Duration::from_millis(999)));
    let kept = c.replay_buffer().unwrap();
    assert_eq!((kept.len(), kept.latest().unwrap().rgba[0]), (1, 3));
    c.enable_replay_buffer(None);
    assert!(c.replay_buffer().is_none() && c.replay_buffer_mut().is_none());
    c.pipeline_mut().set_fov(f(33.0));
    assert_eq!(c.pipeline().viewport().fov_degrees, f(33.0));
}

fn detection(x: f32) -> Detection {
    Detection {
        camera: CameraId::Left,
        class_id: 3,
        confidence: f(0.5),
        center_x: f(x),
        center_y: f(0.25),
        width: f(0.1),
        height: f(0.2),
    }
}

fn mapped() -> MappedDetection {
    map_detections_to_panorama(&vec![detection(0.5)], &vec![None])[0]
}

#[test]
fn detections_keep_their_place() {
    let at = Some(ViewportPosition { yaw: f(1.0), pitch: f(2.0), fov_degrees: None });
    let m = map_detections_to_panorama(&vec![detection(0.5), detection(0.75)], &vec![None, at]);
    assert_eq!(m.len(), 2);
    assert!(m[0].position.is_none());
    assert_eq!(m[1].position, at);
    assert_eq!(m[1].camera_center, (f(0.75), f(0.25)));
    assert_eq!(m[1].camera_size, (f(0.1), f(0.2)));
    assert_eq!(m[1].class_id, 3);
}

fn camera() -> CameraParams {
    CameraParams {
        width: 3840,
        height: 2160,
        fx: d(1400.0),
        fy: d(1400.0),
        cx: d(1920.0),
        cy: d(1080.0),
        d: [d(0.02), d(-0.01), d(0.0), d(0.0)],
    }
}

#[test]
fn a_calibration_is_scaled_to_the_video() {
    let c = MonoStitchCoreConfig::new(camera(), 1920, 1080);
    assert_eq!((c.camera.width, c.camera.height), (1920, 1080));
    assert_eq!((e(c.camera.fx), e(c.camera.cx), e(c.camera.cy)), (700.0, 960.0, 540.0));
    assert_eq!(c.camera.d, camera().d);
    assert_eq!(f32::from_bits(DEFAULT_MAX_THETA_RAD), 1.919_862_2);
    assert_eq!(g(c.max_theta_rad), 1.919_862_2);
    assert_eq!((c.viewport.width, c.viewport.height, g(c.viewport.fov_degrees)), (1920, 1080, 75.0));
    let same = MonoStitchCoreConfig::new(camera(), 3840, 2160);
    assert_eq!(e(same.camera.fx), 1400.0);
}

type Mono = MonoStitchCore<u8, u16, u32, &'static str>;

fn mono(reach: f32) -> Mono {
    let config = MonoStitchCoreConfig::new(camera(), 1920, 1080);
    let bounds = ((f(-reach), f(reach)), (f(-0.5), f(0.5)));
    match Mono::new("gpu", "name".to_string(), config, Ok(()), bounds) {
        Ok(m) => m,
        Err(e) => panic!("{e:?}"),
    }
}

#[test]
fn impossible_frames_are_refused() {
    for (w, h, why) in [
        (0, 1080, "input dimensions must be > 0, got 0x1080"),
        (20000, 1080, "input dimensions 20000x1080 exceed MAX_DIM (8192)"),
    ] {
        let config = MonoStitchCoreConfig::new(camera(), w, h);
        let bounds = ((f(0.0), f(0.0)), (f(0.0), f(0.0)));
        match Mono::new("gpu", String::new(), config, Ok(()), bounds) {
            Err(PipelineError::InvalidConfig { reason }) => assert_eq!(reason, why),
            Ok(_) => panic!("{w}x{h}"),
        }
    }
    let config = MonoStitchCoreConfig::new(camera(), 10, 10);
    let bounds = ((f(0.0), f(0.0)), (f(0.0), f(0.0)));
    match Mono::new("gpu", String::new(), config, Err("bad".to_string()), bounds) {
        Err(PipelineError::InvalidConfig { reason }) => assert_eq!(reason, "bad"),
        Ok(_) => panic!("the picture is impossible"),
    }
}

#[test]
fn a_view_is_kept_inside_the_picture() {
    let mut m = mono(1.0);
    let pose = ViewportPosition { yaw: f(3.0), pitch: f(-3.0), fov_degrees: Some(f(40.0)) };
    let (half, aspect) = m.view_shape(&pose);
    assert_eq!(g(half), 40.0_f32.to_radians() * 0.5);
    assert_eq!(g(aspect), 1920.0 / 1080.0);
    let r = m.resolve_current_pose(Some(pose), f(0.25));
    assert_eq!((g(r.yaw), g(r.pitch), r.fov_degrees), (0.75, -0.25, Some(f(40.0))));
    assert_eq!(m.pipeline().fov(), f(40.0));
    let r = m.resolve_current_pose(None, f(0.25));
    assert_eq!((g(r.yaw), g(r.pitch), r.fov_degrees), (0.0, 0.0, Some(f(40.0))));
}

#[test]
fn a_view_too_wide_looks_at_the_middle() {
    let m = mono(1.0);
    let (yaw, pitch) = m.inset_bounds_for_fov(f(2.0));
    assert_eq!((yaw, pitch), ((f(0.0), f(0.0)), (f(0.0), f(0.0))));
    let (yaw, _) = m.inset_bounds_for_fov(f(f32::NAN));
    assert_eq!(yaw, (f(0.0), f(0.0)));
    let boundless = mono(f32::INFINITY);
    let (yaw, _) = boundless.inset_bounds_for_fov(f(f32::INFINITY));
    assert_eq!(yaw, (f(0.0), f(0.0)));
}

#[test]
fn detection_runs_on_every_third_frame() {
    let mut m = mono(1.0);
    assert_eq!(m.begin_frame(Duration::from_secs(5)), None, "nothing to detect with");
    m.set_detector(1);
    m.set_detection_interval(3);
    let mut ran = Vec::new();
    for i in 0..7u64 {
        ran.push(m.begin_frame(Duration::from_secs(6 + i)));
        let picture = [i as u8];
        let due = m.frame_due();
        assert_eq!(due, i.checked_sub(2));
        m.submit_frame_yuv(due.map(|_| &picture[..]));
    }
    let left = Some(CameraId::Left);
    assert_eq!(ran, vec![left, None, None, left, None, None, left]);
    assert_eq!(m.frame_count(), 7);
    assert_eq!(e(m.timestamp_ms(Duration::from_millis(5250))), 250.0);
    assert_eq!(e(mono(1.0).timestamp_ms(Duration::from_secs(9))), 0.0);
}

#[test]
fn detections_are_replaced_or_forgotten() {
    let mut m = mono(1.0);
    m.take_detections(Some(vec![detection(0.5)]), &vec![None]);
    assert_eq!(m.last_detections.len(), 1);
    m.take_detections(None, &vec![]);
    assert!(m.last_detections.is_empty());
}

#[test]
fn rendered_pixels_are_handed_on() {
    let mut m = mono(1.0);
    for _ in 0..2 {
        assert_eq!(m.frame_due(), None);
        assert!(matches!(m.submit_frame_yuv(None), RenderOutcome::Warmup));
    }
    let bytes = [1u8, 2, 3, 4];
    assert_eq!(m.frame_due(), Some(0));
    match m.submit_frame_yuv(Some(&bytes)) {
        RenderOutcome::Rgba(b) => assert_eq!(b, &bytes),
        RenderOutcome::Warmup => panic!("there were pixels"),
    }
    assert_eq!((m.flush_pending(), m.flush_pending(), m.flush_pending()), (Some(1), Some(2), None));
    assert_eq!(m.output_dims(), (1920, 1080));
    assert_eq!(*m.gpu(), "gpu");
    m.set_ball_tracker(1);
    m.set_player_tracker(2);
    m.set_panner(3);
    assert_eq!((m.ball_tracker, m.player_tracker, m.panner), (Some(1), Some(2), Some(3)));
}

fn pipeline(input_format: InputFormat) -> MonoPipeline<()> {
    let config = CylindricalProjectionConfig::default();
    let lens = MonoLens { camera: camera(), max_theta_rad: f(1.5) };
    let name = "name".to_string();
    match MonoPipeline::with_gpu((), name, config, lens, viewport(), Ok(()), 64, 48, input_format) {
        Ok(p) => p,
        Err(e) => panic!("{e:?}"),
    }
}

#[test]
fn cyl_uniforms_gpu_matches_wgsl_layout() {
    let view = [f(0.5); 16];
    let words = pipeline(InputFormat::Yuv420p).render_to_target(view);
    assert_eq!(words.len() * 4, 96);
    assert_eq!(words.len() * 4 % 16, 0);
    assert_eq!(words[15], f(0.5));
    let rest: Vec<f32> = words[16..].iter().map(|w| g(*w)).collect();
    assert_eq!(
        rest,
        vec![
            2400.0,
            std::f32::consts::PI,
            0.0,
            1.0,
            75.0_f32.to_radians(),
            1280.0 / 720.0,
            0.0,
            0.0
        ]
    );
    assert_eq!(g(pipeline(InputFormat::Nv12).render_to_target(view)[22]), 1.0);
}

#[test]
fn a_pipeline_tells_what_it_was_given() {
    let mut p = pipeline(InputFormat::Yuv420p);
    assert_eq!(p.source_info(), (64, 48));
    assert_eq!(p.gpu_name(), "name");
    assert_eq!(*p.projection_config(), CylindricalProjectionConfig::default());
    assert_eq!(*p.viewport(), viewport());
    p.set_fov(f(20.0));
    assert_eq!(p.fov(), f(20.0));
}

type Session = StitchSession<u8, u16, u32, &'static str, ()>;

fn session() -> Session {
    let config = SessionConfig {
        calibration: MatchCalibration::mono_placeholder(),
        viewport: viewport(),
        input_width: 3840,
        input_height: 2160,
        output_format: OutputFormat::Rgba8Unorm,
        input_format: InputFormat::Yuv420p,
    };
    match Session::with_gpu((), "name".to_string(), config, Ok(()), coverage()) {
        Ok(s) => s,
        Err(e) => panic!("{e:?}"),
    }
}

#[test]
fn a_session_averages_its_rate() {
    let mut s = session();
    s.frame_count = 90;
    let idle = s.metrics(Duration::from_secs(3));
    assert_eq!(g(idle.fps_average), 90.0 / 0.001);
    assert_eq!(idle.elapsed, Duration::zero());
    s.session_start = Some(Duration::zero());
    let m = s.metrics(Duration::from_secs(3));
    assert_eq!(g(m.fps_average), 30.0);
    assert_eq!((m.frames_processed, m.frames_dropped, m.total_frames), (90, 0, None));
}

#[test]
fn a_session_knows_its_parts() {
    let mut s = session();
    assert_eq!(s.gpu_name(), "name");
    assert_eq!(s.frame_count(), 0);
    assert_eq!(s.panorama_extent(), s.stitch_core().panorama_extent());
    assert_eq!(g(s.coverage().unwrap().max_fov_degrees()), 60.0);
    s.pipeline_mut().set_fov(f(10.0));
    assert_eq!(s.pipeline().fov(), f(10.0));
    s.core_mut().set_panner(5);
    assert_eq!(s.stitch_core().panner, Some(5));
    let b = Session::builder();
    assert!(b.calibration.is_none() && b.viewport.is_none() && b.gpu.is_none());
    assert_eq!(b.detection_interval, 1);
    assert_eq!(DetectionTarget::source_info(&s), (3840, 2160));
}

#[test]
fn the_encoder_adds_to_what_is_measured() {
    let mut s = session();
    let stats =
        EncoderStats { frames: 9, avg_encode_ms: f(2.5), stalls: 4, stalled_ms: f(1.5) };
    let plain = TelemetrySnapshot {
        avg_encode_worker_ms: f(0.0),
        backpressure_stalls: 0,
        backpressure_ms: f(0.0),
    };
    assert_eq!(s.telemetry_snapshot(Some(stats)), plain);
    s.encoder = Some("main");
    let snap = s.telemetry_snapshot(Some(stats));
    assert_eq!((snap.backpressure_stalls, g(snap.avg_encode_worker_ms)), (4, 2.5));
    s.telemetry_mut().backpressure_stalls = 1;
    assert_eq!(s.telemetry_snapshot(None).backpressure_stalls, 1);
}

#[test]
fn finishing_hands_every_frame_to_every_encoder() {
    let mut s = session();
    s.encoder = Some("main");
    s.extra_encoders.push("extra");
    s.frame_count = 10;
    let mut job = s.finish();
    let mut log = Vec::new();
    let mut pending = 2;
    loop {
        let step = job.step;
        let reply = match step {
            FinishStep::Flush if pending == 0 => FinishReply::Empty,
            FinishStep::Flush => {
                pending -= 1;
                FinishReply::Done
            }
            FinishStep::Submit { encoder } => {
                log.push((encoder, job.pts() as i64));
                FinishReply::Done
            }
            FinishStep::Close { encoder } => {
                log.push((encoder, -1));
                FinishReply::Done
            }
            FinishStep::Finished | FinishStep::Failed | FinishStep::NotClosed { .. } => break,
        };
        job.advance(reply);
    }
    assert_eq!(job.step, FinishStep::Finished);
    assert_eq!(job.frame_count, 12);
    assert_eq!(log, vec![(0, 10), (1, 10), (0, 11), (1, 11), (0, -1), (1, -1)]);
    s.finished(job);
    assert_eq!(s.metrics(Duration::from_secs(1)).frames_processed, 12);
    assert!(s.encoder.is_none() && s.extra_encoders.is_empty());
    assert_eq!(s.finish().encoders, 0, "nothing is left to close");
}

#[test]
fn finishing_stops_at_the_first_failure() {
    let mut s = session();
    s.encoder = Some("main");
    let mut job = s.finish();
    job.advance(FinishReply::Done);
    job.advance(FinishReply::Error);
    assert_eq!(job.step, FinishStep::Failed);
    assert_eq!(job.frame_count, 0);
    job.advance(FinishReply::Done);
    assert_eq!(job.step, FinishStep::Failed);
    s.finished(job);
    assert_eq!((s.frame_count, s.encoder), (0, Some("main")));
    for (fails_at, further) in [(0, 1), (1, 0)] {
        let mut t = session();
        t.encoder = Some("main");
        t.extra_encoders.push("extra");
        let mut job = t.finish();
        job.advance(FinishReply::Empty);
        for _ in 0..fails_at {
            job.advance(FinishReply::Done);
        }
        job.advance(FinishReply::Error);
        assert_eq!(job.step, FinishStep::NotClosed { encoder: fails_at });
        t.finished(job);
        assert!(t.encoder.is_none());
        assert_eq!(t.extra_encoders.len(), further);
    }
    let mut none = session().finish();
    none.advance(FinishReply::Done);
    assert_eq!((none.step, none.frame_count), (FinishStep::Flush, 1));
    none.advance(FinishReply::Empty);
    assert_eq!(none.step, FinishStep::Finished);
}

#[test]
fn a_stitch_pipeline_tells_what_it_was_given() {
    let c = a_core();
    let p: &StitchPipeline<&'static str> = c.pipeline();
    assert_eq!(p.source_info(), (3840, 2160));
    assert_eq!(*p.gpu(), "gpu");
    assert!(p.calibration().validate().is_ok());
}

#[test]
fn stitch_core_error_is_send_sync() {
    fn assert_send_sync<T: Send + Sync>() {}
    assert_send_sync::<StitchCoreError>();
}
