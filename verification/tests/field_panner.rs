use reco::calibration::{CameraParams, MatchCalibration, PlaneLayout};
use reco::cluster::{bounding_box, find_densest, select_core};
use reco::double::F64;
use reco::field_panner::FieldPanner;
use reco::panner_config::{ClusterMode, FieldPannerConfig, FramingMode, PRESET_NAMES};
use reco::single::F32;
use reco::world::{
    CameraId, PanContext, PipelineEvent, TrackState, TrackedEntity, ViewportPosition, WorldState,
};

fn f(x: f32) -> F32 {
    F32::from_bits(x.to_bits())
}

fn d(x: f64) -> F64 {
    F64::from_bits(x.to_bits())
}

fn g(x: F32) -> f32 {
    f32::from_bits(x.to_bits())
}

fn pts(points: &[(f32, f32, f32)]) -> Vec<(F32, F32, F32)> {
    points.iter().map(|p| (f(p.0), f(p.1), f(p.2))).collect()
}

/// A decision in native numbers.
struct Aim {
    yaw: f32,
    pitch: f32,
    fov_degrees: Option<f32>,
}

fn native(p: ViewportPosition) -> Aim {
    Aim { yaw: g(p.yaw), pitch: g(p.pitch), fov_degrees: p.fov_degrees.map(g) }
}

fn decide(p: &mut FieldPanner, world: &WorldState, ctx: &PanContext) -> Aim {
    native(p.decide(world, ctx))
}

fn ahead(p: &mut FieldPanner, world: &WorldState, next: &Vec<WorldState>, ctx: &PanContext) -> Aim {
    native(p.decide_with_lookahead(world, next, ctx))
}

fn fov(p: &FieldPanner, spread: f32, pitch: f32, velocity: f32) -> f32 {
    g(p.target_fov(f(spread), f(pitch), f(velocity)))
}

fn player(yaw: f32, pitch: f32, id: u64) -> TrackedEntity {
    player_conf(yaw, pitch, id, 0.9)
}

fn player_conf(yaw: f32, pitch: f32, id: u64, confidence: f32) -> TrackedEntity {
    TrackedEntity {
        id,
        class_id: 0,
        yaw: f(yaw),
        pitch: f(pitch),
        confidence: f(confidence),
        state: TrackState::Tracking,
        age_frames: 5,
        origin: CameraId::Left,
    }
}

fn ball(yaw: f32, pitch: f32) -> TrackedEntity {
    TrackedEntity {
        id: 0,
        class_id: 32,
        yaw: f(yaw),
        pitch: f(pitch),
        confidence: f(0.8),
        state: TrackState::Tracking,
        age_frames: 1,
        origin: CameraId::Left,
    }
}

fn camera() -> CameraParams {
    CameraParams {
        width: 1920,
        height: 1080,
        fx: d(900.0),
        fy: d(900.0),
        cx: d(960.0),
        cy: d(540.0),
        d: [d(0.0); 4],
    }
}

fn cal() -> MatchCalibration {
    MatchCalibration {
        left: camera(),
        right: camera(),
        layout: PlaneLayout {
            camera_axis_offset: d(0.24),
            intersect: d(0.54),
            x_ty: d(0.0),
            x_rz: d(0.0),
            z_rx: d(0.0),
            x_rx: d(0.0),
            z_rz: d(0.0),
        },
        rig_tilt: d(0.0),
        rig_roll: d(0.0),
        sync_offset: 0,
        field_roi: None,
        lens_correction_amount: f(1.0),
        blend_width: f(0.05),
    }
}

fn ctx<'a>(frame_index: u64, cal: &'a MatchCalibration) -> PanContext<'a> {
    PanContext {
        frame_index,
        timestamp_ms: d(frame_index as f64 * (1000.0 / 30.0)),
        previous_position: ViewportPosition::default(),
        calibration: cal,
    }
}

#[test]
fn sanitized_orders_inverted_fov_and_no_panic() {
    // An inverted FOV range must not panic in target_fov.
    let cfg = FieldPannerConfig {
        fov_tight: f(60.0),
        fov_wide: f(30.0),
        ball_weight: f(1.5),
        lookahead_reactivity: f(100.0),
        keep_fraction: f(-0.2),
        ..Default::default()
    }
    .sanitized();
    assert!(g(cfg.fov_tight) <= g(cfg.fov_wide), "FOV range must be ordered");
    assert_eq!(g(cfg.fov_tight), 30.0);
    assert_eq!(g(cfg.fov_wide), 60.0);
    assert!((0.0..=1.0).contains(&g(cfg.ball_weight)));
    assert!((1.0..=10.0).contains(&g(cfg.lookahead_reactivity)));
    assert!(g(cfg.keep_fraction) > 0.0);

    // The panner must build and decide without panicking on what was
    // an inverted range (drives target_fov via a non-empty world).
    let cal = cal();
    let mut panner = FieldPanner::with_config(f(30.0), cfg);
    let w = WorldState {
        ball: None,
        players: vec![player(0.30, 0.0, 1), player(0.36, 0.0, 2)],
    };
    let _ = decide(&mut panner, &w, &ctx(0, &cal));
}

#[test]
fn presets_resolve_and_differ() {
    assert!(FieldPannerConfig::from_preset_name("broadcast").is_some());
    assert!(FieldPannerConfig::from_preset_name("ACTION").is_some());
    assert!(FieldPannerConfig::from_preset_name("nope").is_none());

    let b = FieldPannerConfig::broadcast();
    let a = FieldPannerConfig::action();
    let f = FieldPannerConfig::frame_all();

    assert_eq!(f.framing, FramingMode::FrameAll);
    assert!(!f.confidence_weighted);
    assert!(g(a.dead_zone_rad) < g(b.dead_zone_rad));
    assert!(g(a.fov_wide) < g(b.fov_wide));
    assert!(g(a.lookahead_reactivity) > g(b.lookahead_reactivity));

    // Every preset must already be in valid ranges.
    for name in PRESET_NAMES {
        let c = FieldPannerConfig::from_preset_name(name).unwrap();
        assert_eq!(c.clone(), c.sanitized());
    }
}

#[test]
fn basketball_preset_chases_faster_than_action() {
    assert!(FieldPannerConfig::from_preset_name("basketball").is_some());
    assert!(FieldPannerConfig::from_preset_name("BASKETBALL").is_some());

    let a = FieldPannerConfig::action();
    let bb = FieldPannerConfig::basketball();

    assert_eq!(
        g(bb.ball_weight), 1.0,
        "ball-only preset has no cluster to blend against"
    );
    assert!(
        g(bb.max_velocity_rad_per_sec) > g(a.max_velocity_rad_per_sec),
        "small court needs a faster chase for the same physical ball speed"
    );
    assert!(g(bb.lookahead_reactivity) > g(a.lookahead_reactivity));
    assert!(
        g(bb.fov_wide) < g(a.fov_wide),
        "indoor court is tighter than a pitch"
    );
}






fn tight_world() -> WorldState {
    WorldState {
        ball: None,
        players: vec![
            player(0.28, 0.0, 1),
            player(0.32, 0.0, 2),
            player(0.36, 0.0, 3),
            player(0.40, 0.0, 4),
            player(0.44, 0.0, 5),
        ],
    }
}

#[test]
fn follows_player_centroid() {
    // dead_zone off: this asserts the exact converged aim, which the
    // default dead-zone would (by design) stop short of.
    let mut p = FieldPanner::with_config(
        f(30.0),
        FieldPannerConfig {
            dead_zone_rad: f(0.0),
            ..Default::default()
        },
    );
    let cal = cal();
    let w = tight_world();
    // Per-frame delta clamp (0.015 rad) means the pose needs many
    // frames to converge on the target. Run until it settles.
    let mut out = decide(&mut p, &w, &ctx(0, &cal));
    for i in 1..200 {
        out = decide(&mut p, &w, &ctx(i, &cal));
    }
    // Trimmed centroid on 5 evenly-spaced players at 0.28..0.44
    // (keep 80% = 4) converges near the mean 0.36. Edge push 15%.
    assert!(
        (out.yaw - 0.414).abs() < 0.03,
        "expected ~0.414, got {}",
        out.yaw
    );
}

#[test]
fn no_cluster_holds_position() {
    let mut p = FieldPanner::new(f(30.0));
    let cal = cal();
    // Seed a pose then send an empty world — must not move.
    p.yaw = f(0.3);
    p.pitch = f(0.05);
    let out = decide(&mut p, &WorldState {
            ball: None,
            players: vec![],
        },
        &ctx(0, &cal),
    );
    assert!((out.yaw - 0.3).abs() < 1e-6);
    assert!((out.pitch - 0.05).abs() < 1e-6);
}

#[test]
fn trim_excludes_goalkeeper_outlier() {
    let mut p = FieldPanner::new(f(30.0));
    let cal = cal();
    let w = WorldState {
        ball: None,
        players: vec![
            player(0.30, 0.0, 1),
            player(0.34, 0.0, 2),
            player(0.38, 0.0, 3),
            player(0.42, 0.0, 4),
            player(2.0, 0.0, 99), // goalkeeper far away
        ],
    };
    let out = decide(&mut p, &w, &ctx(0, &cal));
    assert!(
        out.yaw < 1.0,
        "goalkeeper must not drag centroid: yaw={}",
        out.yaw
    );
}

#[test]
fn keep_fraction_trims_farthest_players() {
    let p = FieldPanner::with_config(
        f(30.0),
        FieldPannerConfig {
            keep_fraction: f(0.6),
            ..Default::default()
        },
    );
    // 3 tight players + 2 far outliers. keep 60% of 5 = 3.
    let points = pts(&[
        (0.30, 0.0, 1.0),
        (0.32, 0.0, 1.0),
        (0.34, 0.0, 1.0),
        (1.50, 0.0, 1.0),
        (1.60, 0.0, 1.0),
    ]);
    let kept = p.cluster_and_trim(&points);
    assert_eq!(kept.len(), 3, "keep 0.6 of 5 = 3");
    assert!(
        kept.iter().all(|&(y, _, _)| g(y) < 0.5),
        "the tight trio survives, outliers dropped: {kept:?}"
    );
}

#[test]
fn keep_fraction_respects_min_cluster_floor() {
    // A tiny keep_fraction still keeps at least min_cluster players.
    let p = FieldPanner::with_config(
        f(30.0),
        FieldPannerConfig {
            keep_fraction: f(0.01),
            min_cluster: 2,
            ..Default::default()
        },
    );
    let points = pts(&[
        (0.00, 0.0, 1.0),
        (0.10, 0.0, 1.0),
        (0.20, 0.0, 1.0),
        (5.00, 0.0, 1.0),
    ]);
    let kept = p.cluster_and_trim(&points);
    assert_eq!(kept.len(), 2, "min_cluster floors the keep count");
}

#[test]
fn ball_only_follows_ball_without_cluster() {
    // No players (no cluster) but a ball is present: FieldPanner
    // follows the ball directly instead of holding. This is what
    // lets one panner serve ball-centric modes too.
    // ball_weight 0.5 > 0; dead-zone off to assert exact convergence.
    let mut p = FieldPanner::with_config(
        f(30.0),
        FieldPannerConfig {
            dead_zone_rad: f(0.0),
            ..Default::default()
        },
    );
    let cal = cal();
    let w = WorldState {
        ball: Some(ball(0.5, 0.1)),
        players: vec![],
    };
    let mut out = decide(&mut p, &w, &ctx(0, &cal));
    for i in 1..300 {
        out = decide(&mut p, &w, &ctx(i, &cal));
    }
    assert!(
        (out.yaw - 0.5).abs() < 0.05,
        "ball-only should converge near ball yaw 0.5, got {}",
        out.yaw
    );
    assert!(
        (out.pitch - 0.1).abs() < 0.05,
        "ball-only should converge near ball pitch 0.1, got {}",
        out.pitch
    );
}

#[test]
fn lookahead_lead_aims_ahead_of_current() {
    let cal = cal();
    // Current cluster centered at yaw 0; the action is heading to 0.5.
    let cur = WorldState {
        ball: None,
        players: vec![
            player(-0.02, 0.0, 1),
            player(0.02, 0.0, 2),
            player(0.0, 0.0, 3),
        ],
    };
    let fut = WorldState {
        ball: None,
        players: vec![
            player(0.48, 0.0, 1),
            player(0.52, 0.0, 2),
            player(0.50, 0.0, 3),
        ],
    };
    // Isolate the lead: reactivity 1.0 (no damping boost) and
    // dead_zone 0.0 (so the lead isn't masked by the hold). Run a
    // few frames so the EMA-smoothed lead builds and moves the aim.
    let cfg = FieldPannerConfig {
        lookahead_reactivity: f(1.0),
        lead_gain: f(1.0),
        dead_zone_rad: f(0.0),
        ..Default::default()
    };
    let mut no_lead = FieldPanner::with_config(f(30.0), cfg.clone());
    let mut with_lead = FieldPanner::with_config(f(30.0), cfg);
    let mut out_no = decide(&mut no_lead, &cur, &ctx(0, &cal));
    let mut out_la =
        ahead(&mut with_lead, &cur, &vec![fut.clone()], &ctx(0, &cal));
    for i in 1..20 {
        out_no = decide(&mut no_lead, &cur, &ctx(i, &cal));
        out_la =
            ahead(&mut with_lead, &cur, &vec![fut.clone()], &ctx(i, &cal));
    }
    assert!(
        out_la.yaw > out_no.yaw,
        "lead should push the aim toward the future cluster: no-lead {} vs lead {}",
        out_no.yaw,
        out_la.yaw
    );
}

#[test]
fn ball_blend_pulls_toward_ball() {
    let mut p = FieldPanner::new(f(30.0)).with_ball_weight(f(0.3));
    let cal = cal();
    let mut w = tight_world();
    w.ball = Some(ball(0.80, 0.0));
    let mut out = decide(&mut p, &w, &ctx(0, &cal));
    for i in 1..200 {
        out = decide(&mut p, &w, &ctx(i, &cal));
    }
    // Ball at 0.80 pulls toward it, but not all the way.
    assert!(out.yaw > 0.414, "ball should pull yaw up, got {}", out.yaw);
    assert!(out.yaw < 0.80, "ball should not dominate, got {}", out.yaw);
}

#[test]
fn ball_lost_ignored_in_blend() {
    let mut p = FieldPanner::with_config(
        f(30.0),
        FieldPannerConfig {
            dead_zone_rad: f(0.0),
            ball_weight: f(0.3),
            ..Default::default()
        },
    );
    let cal = cal();
    let mut w = tight_world();
    let mut lost = ball(0.80, 0.0);
    lost.state = TrackState::Lost;
    w.ball = Some(lost);
    let mut out = decide(&mut p, &w, &ctx(0, &cal));
    for i in 1..200 {
        out = decide(&mut p, &w, &ctx(i, &cal));
    }
    // Lost ball must not pull the centroid — output should match
    // pure-cluster output for the same players.
    assert!(
        (out.yaw - 0.414).abs() < 0.03,
        "lost ball must not pull, got {}",
        out.yaw
    );
}

#[test]
fn lost_players_excluded() {
    let mut p = FieldPanner::new(f(30.0));
    let cal = cal();
    // Four live players at tight cluster + one lost player far
    // away. The lost one must be ignored so it can't drag the
    // centroid off the cluster.
    let mut lost = player(2.0, 0.0, 99);
    lost.state = TrackState::Lost;
    let w = WorldState {
        ball: None,
        players: vec![
            player(0.28, 0.0, 1),
            player(0.32, 0.0, 2),
            player(0.36, 0.0, 3),
            player(0.40, 0.0, 4),
            lost,
        ],
    };
    let out = decide(&mut p, &w, &ctx(0, &cal));
    assert!(
        out.yaw < 1.0,
        "lost player must not drag centroid: yaw={}",
        out.yaw
    );
}

#[test]
fn fov_narrows_for_tight_cluster() {
    let p = FieldPanner::new(f(30.0));
    let tight = fov(&p, 0.05, 0.0, 0.0);
    let wide = fov(&p, 0.40, 0.0, 0.0);
    assert!(tight < wide, "tight={tight} wide={wide}");
}

#[test]
fn fov_tighter_when_far() {
    let p = FieldPanner::new(f(30.0));
    let defaults = FieldPannerConfig::default();
    let near = fov(&p, 0.20, g(defaults.pitch_near), 0.0);
    let far = fov(&p, 0.20, g(defaults.pitch_far), 0.0);
    assert!(far < near, "far={far} near={near}");
}

#[test]
fn fov_ema_does_not_latch_on_nan() {
    let mut p = FieldPanner::new(f(30.0));
    let cal = cal();
    let baseline = g(p.current_fov);
    let nan_players: Vec<TrackedEntity> =
        (0..5).map(|i| player(f32::NAN, f32::NAN, i)).collect();
    let w = WorldState {
        ball: None,
        players: nan_players,
    };
    decide(&mut p, &w, &ctx(0, &cal));
    assert!(p.current_fov.is_finite(), "FOV latched NaN");
    assert!((g(p.current_fov) - baseline).abs() < 1e-6);
}

#[test]
fn yaw_pitch_do_not_latch_on_nan() {
    let mut p = FieldPanner::new(f(30.0));
    let cal = cal();
    p.yaw = f(0.3);
    p.pitch = f(0.05);
    let nan_players: Vec<TrackedEntity> =
        (0..5).map(|i| player(f32::NAN, f32::NAN, i)).collect();
    let w = WorldState {
        ball: None,
        players: nan_players,
    };
    decide(&mut p, &w, &ctx(0, &cal));
    assert!(p.yaw.is_finite());
    assert!(p.pitch.is_finite());
    assert!((g(p.yaw) - 0.3).abs() < 1e-6);
    assert!((g(p.pitch) - 0.05).abs() < 1e-6);
}

#[test]
fn position_includes_fov() {
    let mut p = FieldPanner::new(f(30.0));
    let cal = cal();
    let out = decide(&mut p, &tight_world(), &ctx(0, &cal));
    assert!(out.fov_degrees.is_some());
}

fn frame_all_config() -> FieldPannerConfig {
    FieldPannerConfig {
        framing: FramingMode::FrameAll,
        dead_zone_rad: f(0.0), // let the aim converge exactly for the assert
        ..Default::default()
    }
}

#[test]
fn frame_all_aims_at_bbox_midpoint_not_mean() {
    // Players bunched low + one high: midpoint of [0.0, 0.5] = 0.25,
    // whereas the mean would sit at ~0.2. Frame-all must use the
    // midpoint (and apply no edge-push), so the lone player isn't
    // clipped.
    let mut p = FieldPanner::with_config(f(30.0), frame_all_config());
    let cal = cal();
    let w = WorldState {
        ball: None,
        players: vec![
            player(0.0, 0.0, 1),
            player(0.1, 0.0, 2),
            player(0.5, 0.0, 3),
        ],
    };
    let mut out = decide(&mut p, &w, &ctx(0, &cal));
    for i in 1..400 {
        out = decide(&mut p, &w, &ctx(i, &cal));
    }
    assert!(
        (out.yaw - 0.25).abs() < 0.02,
        "frame-all should aim at the bbox midpoint 0.25, got {}",
        out.yaw
    );
}

#[test]
fn frame_all_fov_grows_with_player_extent() {
    let p = FieldPanner::with_config(f(30.0), frame_all_config());
    // spread is the half-extent; a wider squad needs a wider FOV.
    let tight = fov(&p, 0.05, 0.0, 0.0);
    let wide = fov(&p, 0.30, 0.0, 0.0);
    assert!(tight < wide, "tight={tight} wide={wide}");
    // The FOV must cover the full extent (2*spread) plus the margin.
    let half: f32 = 0.20;
    let got = fov(&p, half, 0.0, 0.0);
    let needed = (2.0 * half).to_degrees() + 2.0 * g(p.config.frame_all_margin_deg);
    assert!(
        got >= needed - 1e-3 || (got - g(p.config.fov_wide)).abs() < 1e-3,
        "frame-all FOV {got} must cover extent+margin {needed} (or be clamped to fov_wide)"
    );
}

#[test]
fn confidence_weighting_can_be_disabled() {
    // One low-confidence player near 0.0 and one high-confidence
    // player at 0.4. Weighted, the aim leans toward the confident
    // player; unweighted, it sits at the geometric mean.
    let cal = cal();
    let w = WorldState {
        ball: None,
        players: vec![
            player_conf(0.0, 0.0, 1, 0.2),
            player_conf(0.4, 0.0, 2, 0.95),
        ],
    };
    let base = FieldPannerConfig {
        // TrimmedMean: this exercises the centroid weighting with both
        // players kept (they sit 0.4 apart, beyond the Density
        // bandwidth, so Density would not co-cluster them).
        cluster_mode: ClusterMode::TrimmedMean,
        keep_fraction: f(1.0), // keep both so weighting is what differs
        dead_zone_rad: f(0.0),
        ball_weight: f(0.0),
        ..Default::default()
    };
    let mut weighted = FieldPanner::with_config(
        f(30.0),
        FieldPannerConfig {
            confidence_weighted: true,
            ..base.clone()
        },
    );
    let mut unweighted = FieldPanner::with_config(
        f(30.0),
        FieldPannerConfig {
            confidence_weighted: false,
            ..base
        },
    );
    let (mut ow, mut ou) = (
        decide(&mut weighted, &w, &ctx(0, &cal)),
        decide(&mut unweighted, &w, &ctx(0, &cal)),
    );
    for i in 1..400 {
        ow = decide(&mut weighted, &w, &ctx(i, &cal));
        ou = decide(&mut unweighted, &w, &ctx(i, &cal));
    }
    assert!(
        ow.yaw > ou.yaw,
        "confidence weighting should pull toward the confident player: weighted {} vs unweighted {}",
        ow.yaw,
        ou.yaw
    );
}

#[test]
fn lock_pitch_holds_tilt_but_pans_yaw() {
    // Players sit at pitch 0.2; with lock_pitch the camera must
    // converge to the locked tilt (0.0) while still tracking yaw.
    let cal = cal();
    let cfg = FieldPannerConfig {
        lock_pitch: true,
        locked_pitch_rad: f(0.0),
        dead_zone_rad: f(0.0),
        ball_weight: f(0.0),
        ..Default::default()
    };
    let mut p = FieldPanner::with_config(f(30.0), cfg);
    let w = WorldState {
        ball: None,
        players: vec![
            player(0.30, 0.2, 1),
            player(0.34, 0.2, 2),
            player(0.38, 0.2, 3),
        ],
    };
    let mut out = decide(&mut p, &w, &ctx(0, &cal));
    for i in 1..400 {
        out = decide(&mut p, &w, &ctx(i, &cal));
    }
    assert!(
        out.pitch.abs() < 1e-3,
        "lock_pitch should hold tilt at 0.0, got {}",
        out.pitch
    );
    assert!(
        out.yaw > 0.2,
        "yaw should still track the cluster, got {}",
        out.yaw
    );
}

/// A dominant near group plus a smaller far block. TrimmedMean's
/// reference is the global mean, dragged toward the far block;
/// Density locks onto the near group and excludes the far block.
fn bimodal_points() -> Vec<(f32, f32, f32)> {
    vec![
        (-0.05, 0.0, 1.0),
        (-0.02, 0.0, 1.0),
        (0.00, 0.0, 1.0),
        (0.03, 0.0, 1.0),
        (0.05, 0.0, 1.0),
        (0.02, 0.0, 1.0),
        (1.35, 0.0, 1.0),
        (1.40, 0.0, 1.0),
        (1.45, 0.0, 1.0),
    ]
}

#[test]
fn density_selects_dominant_group_not_dragged_by_far_block() {
    let p = FieldPanner::with_config(
        f(30.0),
        FieldPannerConfig {
            cluster_mode: ClusterMode::Density,
            cluster_bandwidth_rad: f(0.35),
            ..Default::default()
        },
    );
    let core = p.densest_cluster(&pts(&bimodal_points()));
    assert_eq!(core.len(), 6, "keeps the 6-player near group, got {core:?}");
    assert!(
        core.iter().all(|&(y, _, _)| g(y) < 0.5),
        "far block excluded: {core:?}"
    );
}

#[test]
fn density_keeps_a_single_tight_group_whole() {
    // Same input the trimmed-mean tests use; a tight group has every
    // player as a neighbor, so Density returns all of them (matches
    // the trim for the single-group case).
    let p = FieldPanner::new(f(30.0)); // default ClusterMode::Density
    let group: Vec<(f32, f32, f32)> =
        (0..5).map(|i| (0.28 + 0.04 * i as f32, 0.0, 1.0)).collect();
    assert_eq!(p.densest_cluster(&pts(&group)).len(), 5);
}

#[test]
fn density_default_aims_at_dominant_group() {
    // End-to-end: the default panner (Density) converges on the near
    // group at ~0.0, not dragged toward the far block at 1.4.
    let cal = cal();
    let w = WorldState {
        ball: None,
        players: bimodal_points()
            .iter()
            .enumerate()
            .map(|(i, &(y, pt, _))| player(y, pt, i as u64))
            .collect(),
    };
    let mut p = FieldPanner::with_config(
        f(30.0),
        FieldPannerConfig {
            ball_weight: f(0.0),
            dead_zone_rad: f(0.0),
            ..Default::default()
        },
    );
    let mut out = decide(&mut p, &w, &ctx(0, &cal));
    for i in 1..300 {
        out = decide(&mut p, &w, &ctx(i, &cal));
    }
    assert!(
        out.yaw.abs() < 0.15,
        "density should aim at the dominant near group (~0.0), got {}",
        out.yaw
    );
}
#[test]
fn every_preset_name_resolves_in_any_case() {
    for name in PRESET_NAMES {
        assert!(FieldPannerConfig::from_preset_name(name).is_some());
        assert!(FieldPannerConfig::from_preset_name(&name.to_uppercase()).is_some());
    }
    assert!(FieldPannerConfig::from_preset_name("").is_none());
}

#[test]
fn sanitizing_twice_changes_nothing() {
    let wild = FieldPannerConfig {
        ball_weight: f(-4.0),
        keep_fraction: f(9.0),
        fov_tight: f(f32::NAN),
        fov_wide: f(12.0),
        ..Default::default()
    };
    let once = wild.sanitized();
    assert_eq!(once.clone().sanitized(), once);
    assert_eq!(g(once.ball_weight), 0.0);
    assert_eq!(g(once.keep_fraction), 1.0);
}

#[test]
fn debug_event_follows_the_cluster() {
    let cal = cal();
    let mut p = FieldPanner::new(f(30.0));
    assert!(p.debug_event(7).is_none());
    decide(&mut p, &tight_world(), &ctx(0, &cal));
    match p.debug_event(7) {
        Some(PipelineEvent::PannerDebug { frame_index, n_players, .. }) => {
            assert_eq!(frame_index, 7);
            assert_eq!(n_players, 5);
        }
        None => panic!("a cluster was seen"),
    }
    decide(&mut p, &WorldState { ball: None, players: vec![] }, &ctx(1, &cal));
    assert!(p.debug_event(8).is_none());
}

#[test]
fn fov_stays_within_its_range() {
    let p = FieldPanner::new(f(30.0)).with_fov_range(f(20.0), f(40.0));
    for spread in [0.0_f32, 0.01, 0.1, 1.0, 10.0] {
        let got = fov(&p, spread, 0.0, 0.0);
        assert!((20.0..=40.0).contains(&got), "{got}");
    }
}

/// The camera is sent back and forth for many frames and keeps to its top
/// speed, at first without and then with later frames known.
#[test]
fn the_camera_keeps_to_its_top_speed() {
    let cal = cal();
    for config in [FieldPannerConfig::action(), FieldPannerConfig::basketball()] {
        let mut p = FieldPanner::with_config(f(30.0), config);
        let mut seed: u64 = 7;
        for frame in 0..1500 {
            seed = seed.wrapping_mul(6364136223846793005).wrapping_add(1442695040888963407);
            let side = if frame / 40 % 2 == 0 { 2.0 } else { -2.0 };
            let yaw = side + (seed >> 40) as f32 / (1u64 << 24) as f32;
            let players = vec![player(yaw, 0.1, 1), player(yaw, 0.15, 2), player(yaw, 0.2, 3)];
            let w = WorldState { ball: None, players };
            let next = if frame < 700 { vec![] } else { vec![w.clone()] };
            ahead(&mut p, &w, &next, &ctx(frame, &cal));
            let reactivity = if frame < 700 { 1.0 } else { g(p.config.lookahead_reactivity) };
            let limit = g(p.max_velocity) * reactivity * 1.001;
            assert!(g(p.velocity_yaw).abs() <= limit && g(p.velocity_pitch).abs() <= limit);
        }
    }
}

#[test]
fn the_smoothing_of_the_centroid_is_held_in_range() {
    let p = FieldPanner::new(f(30.0)).with_cluster_alpha(f(0.5));
    assert_eq!(p.config.cluster_alpha, f(0.5));
    assert_eq!(p.with_cluster_alpha(f(7.0)).config.cluster_alpha, f(1.0));
    assert_eq!(p.with_cluster_alpha(f(0.0)).config.cluster_alpha, f(0.001));
}

#[test]
fn a_group_is_of_players_and_never_too_small() {
    let mut c = FieldPannerConfig::default();
    c.min_cluster = 3;
    c.keep_fraction = f(0.01);
    c.cluster_bandwidth_rad = f(0.2);
    let points =
        pts(&[(0.0, 0.0, 0.9), (0.1, 0.0, 0.9), (0.9, 0.1, 0.9), (0.05, 0.05, 0.9)]);
    for mode in [ClusterMode::TrimmedMean, ClusterMode::Density] {
        c.cluster_mode = mode;
        let core = select_core(&c, &points);
        assert_eq!(core.len(), 3);
        assert!(core.iter().all(|p| points.contains(p)));
        assert!(select_core(&c, &points[0..2].to_vec()).is_empty());
    }
    let tight = vec![points[0], points[1], points[3]];
    assert_eq!(find_densest(&c, &points), tight);
    assert_eq!(find_densest(&c, &tight), tight);
}

#[test]
fn the_box_holds_every_placed_player() {
    let points = pts(&[(-0.5, 0.25, 0.9), (f32::NAN, 9.0, 0.9), (0.25, -0.75, 0.9)]);
    let b = bounding_box(&points).expect("two players are placed");
    assert_eq!(b, (f(-0.125), f(-0.25), f(0.375), f(0.5)));
    assert!(bounding_box(&points[1..2].to_vec()).is_none());
}

/// Neither distance nor speed widens the view of everyone; the margin does.
#[test]
fn everyone_is_framed_with_a_margin() {
    let mut c = FieldPannerConfig::frame_all();
    c.frame_all_margin_deg = f(3.0);
    c.fov_tight = f(20.0);
    c.fov_wide = f(120.0);
    let p = FieldPanner::with_config(f(30.0), c);
    let wanted = fov(&p, 0.5, 0.0, 0.0);
    assert_eq!(wanted, (2.0 * 0.5_f32).to_degrees() + 6.0);
    assert_eq!(fov(&p, 0.5, 0.7, 0.9), wanted);
}

/// Players with and without a place come and go: the camera always points
/// somewhere, zooms within its bounds and never jumps.
#[test]
fn a_long_run_stays_finite_and_smooth() {
    let cal = cal();
    let presets = [
        FieldPannerConfig::default(),
        FieldPannerConfig::action(),
        FieldPannerConfig::frame_all(),
        FieldPannerConfig::basketball(),
    ];
    for config in presets {
        let mut p = FieldPanner::with_config(f(30.0), config);
        let (tight, wide) = (g(p.config.fov_tight), g(p.config.fov_wide));
        let mut seed: u64 = 11;
        let mut roll = || {
            seed = seed.wrapping_mul(6364136223846793005).wrapping_add(1442695040888963407);
            (seed >> 40) as f32 / (1u64 << 24) as f32
        };
        let (mut yaw, mut pitch) = (0.0_f32, 0.0_f32);
        for frame in 0..900 {
            let mut players = Vec::new();
            for id in 0..6 {
                let at = match (roll() * 12.0) as u32 {
                    0 => f32::NAN,
                    1 => f32::INFINITY,
                    2 => f32::NEG_INFINITY,
                    _ => (roll() - 0.5) * 32.0,
                };
                players.push(player_conf(at, (roll() - 0.5) * 32.0, id, roll()));
            }
            let seen = if roll() < 0.5 { Some(ball((roll() - 0.5) * 32.0, f32::NAN)) } else { None };
            let w = WorldState { ball: seen, players };
            let next = if frame < 300 { vec![] } else { vec![w.clone(), tight_world()] };
            let out = ahead(&mut p, &w, &next, &ctx(frame, &cal));
            let fov = out.fov_degrees.unwrap();
            assert!(out.yaw.is_finite() && out.pitch.is_finite(), "frame {frame}");
            assert!(fov >= tight - wide * 1e-6 && fov <= wide * 1.000001, "frame {frame}: {fov}");
            let reactivity = if frame < 300 { 1.0 } else { g(p.config.lookahead_reactivity) };
            let limit = g(p.max_velocity) * reactivity * 1.001;
            assert!((out.yaw - yaw).abs() <= limit + out.yaw.abs() * 1e-6, "frame {frame}");
            assert!((out.pitch - pitch).abs() <= limit + out.pitch.abs() * 1e-6, "frame {frame}");
            (yaw, pitch) = (out.yaw, out.pitch);
        }
        assert!(yaw != 0.0);
    }
}

#[test]
fn a_camera_locked_at_level_never_tilts() {
    let cal = cal();
    let config = FieldPannerConfig { lock_pitch: true, ..FieldPannerConfig::action() };
    let mut p = FieldPanner::with_config(f(30.0), config);
    for frame in 0..300 {
        let yaw = if frame / 50 % 2 == 0 { 1.0 } else { -1.0 };
        let players = vec![player(yaw, 0.4, 1), player(yaw + 0.05, 0.3, 2), player(yaw, 0.5, 3)];
        let w = WorldState { ball: Some(ball(yaw, -0.4)), players };
        let out = decide(&mut p, &w, &ctx(frame, &cal));
        assert_eq!(out.pitch, 0.0, "frame {frame}");
        assert_eq!(g(p.velocity_pitch), 0.0, "frame {frame}");
    }
    assert!(g(p.yaw) != 0.0);
}
