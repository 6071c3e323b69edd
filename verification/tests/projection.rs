use reco::calibration::{CameraParams, MatchCalibration, PlaneLayout};
use reco::double::F64;
use reco::kb4::{theta_d, theta_d_prime};
use reco::projection::{
    border_samples, camera_to_panorama, cylinder_hit, cylinder_point, cylindrical_panorama_bounds,
    forward_fisheye, forward_radius, inverse_fisheye, kb4_mono_panorama_bounds, mono_direction,
    mono_ray, panorama_to_camera, plane_uv_to_world, project_world_point, radial_distance,
    ray_meets_plane, search_ray, within_reach, world_to_plane_uv, CylindricalProjection,
    CylindricalProjectionConfig, LShapeProjection, LensSolve, MonoRay, Projection, SolveStep,
};
use reco::single::F32;
use reco::viewport::{
    half_view, outline_samples, point_in_polygon, viewport_bounds, PanoramaExtent, ViewportBounds,
};
use reco::world::{CameraId, ViewportPosition};

fn f(x: f32) -> F32 {
    F32::from_bits(x.to_bits())
}

fn g(x: F32) -> f32 {
    f32::from_bits(x.to_bits())
}

fn d(x: f64) -> F64 {
    F64::from_bits(x.to_bits())
}

fn e(x: F64) -> f64 {
    f64::from_bits(x.to_bits())
}

fn at(yaw: f32, pitch: f32) -> ViewportPosition {
    ViewportPosition { yaw: f(yaw), pitch: f(pitch), fov_degrees: None }
}

/// The angles of a direction seen along the third axis.
fn angles(x: f32, y: f32, z: f32) -> ViewportPosition {
    let n = (x * x + y * y + z * z).sqrt();
    at(x.atan2(z), (y / n).asin())
}

fn solve(x: f64, y: f64, params: &CameraParams) -> LensSolve {
    let s = LensSolve::solve(d(x), d(y), params);
    let mut t = LensSolve::start(d(x), d(y), params);
    let mut asked = 0;
    while t.step == SolveStep::Evaluate {
        t.advance(theta_d(t.theta, &params.d), theta_d_prime(t.theta, &params.d));
        asked += 1;
        assert!(asked <= 20);
    }
    assert_eq!(s, t);
    s
}

fn undistort(x: f64, y: f64, params: &CameraParams) -> Option<(f64, f64)> {
    let s = solve(x, y, params);
    inverse_fisheye(&s, d(e(s.theta).tan())).map(|p| (e(p.0), e(p.1)))
}

fn distort(u: f64, v: f64, params: &CameraParams) -> (f64, f64) {
    let r = e(forward_radius(d(u), d(v), params));
    let p = forward_fisheye(d(u), d(v), params, d(r.atan()));
    (e(p.0), e(p.1))
}

fn mono_to_panorama(x: f32, y: f32, camera: &CameraParams) -> Option<ViewportPosition> {
    let s = solve(x as f64, y as f64, camera);
    match mono_ray(&s)? {
        MonoRay::Ahead => Some(angles(0.0, 0.0, 1.0)),
        MonoRay::Tilted { theta, dx, dy } => {
            let (t, a) = (e(theta), e(dy).atan2(e(dx)));
            let v = mono_direction(d(t.sin()), d(t.cos()), d(a.cos()), d(a.sin()));
            Some(angles(g(v.0), g(v.1), g(v.2)))
        }
    }
}

fn mono_bounds(camera: &CameraParams, max_theta: f32) -> ((f32, f32), (f32, f32)) {
    let positions: Vec<Option<ViewportPosition>> = border_samples()
        .iter()
        .map(|s| mono_to_panorama(g(s.0), g(s.1), camera))
        .collect();
    let b = kb4_mono_panorama_bounds(camera, f(max_theta), &positions);
    ((g((b.0).0), g((b.0).1)), (g((b.1).0), g((b.1).1)))
}

/// Projects a point given in the camera's own axes.
fn project(p: (f64, f64, f64), params: &CameraParams, max_theta: f64) -> Option<(f64, f64)> {
    let r = e(radial_distance(d(p.0), d(p.1)));
    let theta = r.atan2(p.2);
    project_world_point(d(p.0), d(p.1), d(p.2), d(theta), params, d(max_theta))
        .map(|q| (e(q.0), e(q.1)))
}

fn cylinder_to_panorama(x: f32, y: f32, config: &CylindricalProjectionConfig) -> (f32, f32) {
    let (theta, height) = cylinder_point(f(x), f(y), config);
    let hit = cylinder_hit(config, height, f(g(theta).cos()), f(g(theta).sin()));
    let p = angles(g(hit.0), g(hit.1), g(hit.2));
    (g(p.yaw), g(p.pitch))
}

fn camera(size: (u32, u32), focal: (f64, f64), center: (f64, f64), k: [f64; 4]) -> CameraParams {
    CameraParams {
        width: size.0,
        height: size.1,
        fx: d(focal.0),
        fy: d(focal.1),
        cx: d(center.0),
        cy: d(center.1),
        d: [d(k[0]), d(k[1]), d(k[2]), d(k[3])],
    }
}

fn wide_camera() -> CameraParams {
    camera(
        (3840, 2160),
        (1796.32, 1797.22),
        (1919.37, 1063.17),
        [0.0342, 0.0677, -0.0741, 0.0299],
    )
}

fn square_camera() -> CameraParams {
    camera((1000, 1000), (500.0, 500.0), (500.0, 500.0), [0.0; 4])
}

fn mono_camera(k: [f64; 4]) -> CameraParams {
    camera((1920, 1080), (800.0, 800.0), (960.0, 540.0), k)
}

#[test]
fn l_shape_projection_identifies_itself() {
    let p = LShapeProjection;
    assert_eq!(p.name(), "l-shape-stereo-2camera");
    assert_eq!(p.camera_count(), 2);
}

#[test]
fn projection_is_dyn_compatible() {
    let projections: Vec<Box<dyn Projection>> = vec![Box::new(LShapeProjection)];
    fn assert_send_sync<T: Send + Sync + ?Sized>() {}
    assert_send_sync::<dyn Projection>();
    assert_eq!(projections[0].camera_count(), 2);
}

#[test]
fn l_shape_projection_wgsl_composite_is_placeholder() {
    let p = LShapeProjection;
    assert!(p.wgsl_composite_source().is_empty());
}

#[test]
fn cylindrical_defaults_match_actionstitch() {
    let c = CylindricalProjectionConfig::default();
    assert_eq!(g(c.focal_length), 2400.0);
    assert!((g(c.angular_sweep_rad) - std::f32::consts::PI).abs() < 1e-6);
    assert_eq!(g(c.screen_rotation_rad), 0.0);
    assert_eq!(g(c.video_height), 1.0);
}

#[test]
fn cylindrical_projection_reports_mono() {
    let p = CylindricalProjection::default();
    assert_eq!(p.name(), "cylindrical-mono-1camera");
    assert_eq!(p.camera_count(), 1, "cylindrical projection consumes exactly one camera");
}

#[test]
fn cylindrical_theta_start_matches_actionstitch_formula() {
    let p180 = CylindricalProjection::default();
    assert!(
        (g(p180.theta_start_rad()) - std::f32::consts::FRAC_PI_2 * 0.0).abs() < 1e-6,
        "180-deg sweep: theta_start = PI/2 - PI/2 = 0"
    );
    let p90 = CylindricalProjection::new(CylindricalProjectionConfig {
        angular_sweep_rad: f(std::f32::consts::FRAC_PI_2),
        ..Default::default()
    });
    assert!((g(p90.theta_start_rad()) - std::f32::consts::FRAC_PI_4).abs() < 1e-6);
}

#[test]
fn a_shader_is_handed_out_as_it_was_given() {
    let p = CylindricalProjection::default();
    assert!(p.wgsl_composite_source().is_empty());
    assert_eq!(p.with_shader("fn vs_fullscreen").wgsl_composite_source(), "fn vs_fullscreen");
}

#[test]
fn projection_dyn_dispatch_round_trip_with_mixed_camera_counts() {
    let projections: Vec<Box<dyn Projection>> =
        vec![Box::new(LShapeProjection), Box::new(CylindricalProjection::default())];
    assert_eq!(projections[0].camera_count(), 2);
    assert_eq!(projections[1].camera_count(), 1);
    assert_ne!(projections[0].name(), projections[1].name());
}

#[test]
fn cylindrical_projection_is_send_sync() {
    fn assert_send_sync<T: Send + Sync + 'static>() {}
    assert_send_sync::<CylindricalProjection>();
    assert_send_sync::<CylindricalProjectionConfig>();
}

#[test]
fn cylindrical_to_panorama_vertical_center_is_level() {
    let config = CylindricalProjectionConfig::default();
    for norm_x in [0.0_f32, 0.25, 0.5, 0.75, 1.0] {
        let (_, pitch) = cylinder_to_panorama(norm_x, 0.5, &config);
        assert!(
            pitch.abs() < 1e-5,
            "vertical center (norm_x={norm_x}) must be level, got pitch={pitch}"
        );
    }
}

#[test]
fn cylindrical_to_panorama_left_right_symmetric_around_center() {
    let config = CylindricalProjectionConfig::default();
    let center = cylinder_to_panorama(0.5, 0.5, &config).0;
    let left = cylinder_to_panorama(0.0, 0.5, &config).0;
    let right = cylinder_to_panorama(1.0, 0.5, &config).0;
    assert_ne!(left, right, "left/right edges must map to different yaw");
    assert!((left - center).abs() > 1e-3, "left edge must differ from center");
    assert!((right - center).abs() > 1e-3, "right edge must differ from center");
    assert!(
        ((left - center) + (right - center)).abs() < 1e-3,
        "left/right displacement from center must be symmetric: {left} {right} {center}"
    );
}

#[test]
fn cylindrical_to_panorama_top_bottom_symmetric_and_opposite_sign() {
    let config = CylindricalProjectionConfig {
        focal_length: f(1.0),
        video_height: f(1.0),
        ..CylindricalProjectionConfig::default()
    };
    let top = cylinder_to_panorama(0.5, 0.0, &config).1;
    let bottom = cylinder_to_panorama(0.5, 1.0, &config).1;
    assert!(top.abs() > 1e-3, "top edge must not be level");
    assert!(
        (top + bottom).abs() < 1e-3,
        "top/bottom must be symmetric and opposite sign: top={top}, bottom={bottom}"
    );
    assert_ne!(top.signum(), bottom.signum());
}

fn scaled_cylinder() -> CylindricalProjectionConfig {
    let base = CylindricalProjectionConfig::default();
    let video_height = CylindricalProjectionConfig::video_height_for_aspect(
        base.focal_length,
        base.angular_sweep_rad,
        1920,
        1080,
    );
    CylindricalProjectionConfig { video_height, ..base }
}

#[test]
fn video_height_for_aspect_gives_meaningful_pitch_range_for_default_focal_length() {
    let config = scaled_cylinder();
    let top = cylinder_to_panorama(0.5, 0.0, &config).1;
    let bottom = cylinder_to_panorama(0.5, 1.0, &config).1;
    assert!(top.abs() > 0.1, "expected a meaningful vertical FOV, got top.pitch={top}");
    assert!((top + bottom).abs() < 1e-3);
}

#[test]
fn cylindrical_panorama_bounds_are_symmetric_and_nonempty() {
    let config = scaled_cylinder();
    let positions: Vec<ViewportPosition> = border_samples()
        .iter()
        .map(|s| {
            let (yaw, pitch) = cylinder_to_panorama(g(s.0), g(s.1), &config);
            at(yaw, pitch)
        })
        .collect();
    let b = cylindrical_panorama_bounds(&positions);
    let ((yaw_min, yaw_max), (pitch_min, pitch_max)) =
        ((g((b.0).0), g((b.0).1)), (g((b.1).0), g((b.1).1)));
    assert!(yaw_min < 0.0 && yaw_max > 0.0, "yaw range must straddle center");
    assert!((yaw_min + yaw_max).abs() < 1e-3, "yaw bounds symmetric around 0");
    assert!(pitch_min < 0.0 && pitch_max > 0.0);
    assert!((pitch_min + pitch_max).abs() < 1e-3);
}

#[test]
fn project_world_point_on_axis_maps_to_principal_point() {
    let params = wide_camera();
    let (px, py) = project((0.0, 0.0, 5.0), &params, std::f64::consts::PI).unwrap();
    assert!((px - 1919.37 / 3840.0).abs() < 1e-9);
    assert!((py - 1063.17 / 2160.0).abs() < 1e-9);
}

#[test]
fn project_world_point_zero_distortion_matches_pinhole() {
    let params = square_camera();
    let (px, py) = project((0.05, 0.02, 4.0), &params, std::f64::consts::PI).unwrap();
    let pinhole_x = 500.0 * 0.05 / 4.0 + 500.0;
    let pinhole_y = 500.0 * 0.02 / 4.0 + 500.0;
    assert!((px - pinhole_x / 1000.0).abs() < 1e-5);
    assert!((py - pinhole_y / 1000.0).abs() < 1e-5);
}

#[test]
fn project_world_point_rejects_beyond_max_theta() {
    let params = square_camera();
    assert!(project((1.0, 0.0, 0.0), &params, 1.0).is_none());
    assert!(project((1.0, 0.0, 0.0), &params, std::f64::consts::PI).is_some());
}

#[test]
fn kb4_mono_to_panorama_roundtrips_with_project_world_point() {
    let camera = mono_camera([0.02, -0.01, 0.0, 0.0]);
    for &(theta_deg, azimuth_deg) in
        &[(0.0_f64, 0.0_f64), (20.0, 0.0), (20.0, 90.0), (30.0, 180.0), (15.0, 270.0)]
    {
        let (theta, az) = (theta_deg.to_radians(), azimuth_deg.to_radians());
        let v = (theta.sin() * az.cos(), theta.sin() * az.sin(), theta.cos());
        let (px, py) =
            project((v.0 * 5.0, v.1 * 5.0, v.2 * 5.0), &camera, std::f64::consts::PI)
                .expect("forward projection should succeed for a moderate angle");
        let pos = mono_to_panorama(px as f32, py as f32, &camera).expect("inverse should converge");
        let expected = angles(v.0 as f32, -v.1 as f32, v.2 as f32);
        assert!(
            (g(pos.yaw) - g(expected.yaw)).abs() < 1e-3,
            "theta={theta_deg} az={azimuth_deg}: yaw {} != expected {}",
            g(pos.yaw),
            g(expected.yaw)
        );
        assert!(
            (g(pos.pitch) - g(expected.pitch)).abs() < 1e-3,
            "theta={theta_deg} az={azimuth_deg}: pitch {} != expected {}",
            g(pos.pitch),
            g(expected.pitch)
        );
    }
}

#[test]
fn kb4_mono_panorama_bounds_are_symmetric_and_nonempty() {
    let ((yaw_min, yaw_max), (pitch_min, pitch_max)) =
        mono_bounds(&mono_camera([0.0; 4]), std::f32::consts::PI * 0.75);
    assert!(yaw_min < 0.0 && yaw_max > 0.0, "yaw range must straddle center");
    assert!((yaw_min + yaw_max).abs() < 1e-2, "yaw bounds roughly symmetric");
    assert!(pitch_min < 0.0 && pitch_max > 0.0);
    assert!((pitch_min + pitch_max).abs() < 1e-2);
}

#[test]
fn kb4_mono_panorama_bounds_shrink_with_tighter_max_theta() {
    let camera = mono_camera([0.0; 4]);
    let (wide_yaw, _) = mono_bounds(&camera, std::f32::consts::PI * 0.75);
    let (tight_yaw, _) = mono_bounds(&camera, 0.2);
    assert!(
        tight_yaw.1 - tight_yaw.0 < wide_yaw.1 - wide_yaw.0,
        "a tighter max_theta must not produce a wider or equal envelope"
    );
}

#[test]
fn mono_bounds_fall_back_to_straight_ahead() {
    let camera = mono_camera([0.0; 4]);
    let positions: Vec<Option<ViewportPosition>> = vec![None; 260];
    let b = kb4_mono_panorama_bounds(&camera, f(10.0), &positions);
    assert_eq!(b, ((f(0.0), f(0.0)), (f(0.0), f(0.0))));
    let all: Vec<Option<ViewportPosition>> = vec![Some(at(0.5, -0.5)); 260];
    let b = kb4_mono_panorama_bounds(&camera, f(-1.0), &all);
    assert_eq!(b, ((f(0.0), f(0.0)), (f(0.0), f(0.0))));
    let b = kb4_mono_panorama_bounds(&camera, f(10.0), &all);
    assert_eq!(b, ((f(0.5), f(0.5)), (f(-0.5), f(-0.5))));
}

#[test]
fn inverse_fisheye_roundtrip_at_center() {
    let params = wide_camera();
    let (cx, cy) = (1919.37 / 3840.0, 1063.17 / 2160.0);
    let result = undistort(cx, cy, &params).unwrap();
    assert!(
        (result.0 - cx).abs() < 1e-6 && (result.1 - cy).abs() < 1e-6,
        "optical center should map to itself"
    );
}

#[test]
fn inverse_fisheye_roundtrips_with_forward_fisheye_on_pixel_grid() {
    let params = wide_camera();
    let steps = 10;
    let (lo, hi) = (0.1_f64, 0.9_f64);
    for i in 0..=steps {
        for j in 0..=steps {
            let x = lo + (hi - lo) * (i as f64 / steps as f64);
            let y = lo + (hi - lo) * (j as f64 / steps as f64);
            let (u, v) = undistort(x, y, &params).expect("solution in the frame");
            let (bx, by) = distort(u, v, &params);
            assert!((bx - x).abs() < 1e-6 && (by - y).abs() < 1e-6, "{x} {y} -> {bx} {by}");
        }
    }
}

#[test]
fn zero_distortion_produces_identity_mapping() {
    let params = camera((1920, 1080), (960.0, 540.0), (960.0, 540.0), [0.0; 4]);
    let result = undistort(0.5, 0.5, &params).unwrap();
    assert!(
        (result.0 - 0.5).abs() < 1e-6 && (result.1 - 0.5).abs() < 1e-6,
        "zero-distortion center should map to itself"
    );
}

#[test]
fn a_flat_polynomial_has_no_solution() {
    let params = wide_camera();
    let mut s = LensSolve::start(d(0.9), d(0.9), &params);
    assert_eq!(s.step, SolveStep::Evaluate);
    s.advance(d(0.3), d(1e-16));
    assert_eq!(s.step, SolveStep::Degenerate);
    assert!(inverse_fisheye(&s, d(1.0)).is_none());
    assert!(mono_ray(&s).is_none());
}

#[test]
fn a_search_stops_after_twenty_steps() {
    let params = wide_camera();
    let mut s = LensSolve::start(d(0.9), d(0.9), &params);
    for i in 0..20 {
        assert_eq!(s.step, SolveStep::Evaluate, "step {i}");
        s.advance(d(100.0), d(1.0));
    }
    assert_eq!(s.step, SolveStep::Unconverged);
    let stopped = s;
    s.advance(d(0.0), d(1.0));
    assert_eq!(s, stopped);
    assert!(inverse_fisheye(&s, d(1.0)).is_none());
    assert!(mono_ray(&s).is_none());
}

#[test]
fn a_short_last_step_is_a_solution() {
    let params = wide_camera();
    let mut s = LensSolve::start(d(0.9), d(0.9), &params);
    for _ in 0..19 {
        s.advance(d(100.0), d(1.0));
    }
    assert_eq!(s.step, SolveStep::Evaluate);
    s.advance(s.theta_d, d(1.0));
    assert_eq!(s.step, SolveStep::Solved);
    assert!(mono_ray(&s).is_some());
    assert!(inverse_fisheye(&s, d(0.0)).is_none(), "no finite scale");
    assert!(inverse_fisheye(&s, d(1.0)).is_some());
}

#[test]
fn a_point_at_the_camera_is_nowhere_in_the_frame() {
    let params = square_camera();
    let pi = std::f64::consts::PI;
    assert!(project((0.0, 0.0, 0.0), &params, pi).is_none());
    assert!(project((1e-13, 0.0, -1e-13), &params, pi).is_none());
    assert_eq!(project((0.0, 0.0, 1e-3), &params, pi), Some((0.5, 0.5)));
}

#[test]
fn planes_are_met_only_ahead() {
    assert!(ray_meets_plane(f(1.0), f(1e-7)).is_none());
    assert!(ray_meets_plane(f(-1.0), f(0.5)).is_none());
    assert_eq!(ray_meets_plane(f(1.0), f(0.5)), Some(f(2.0)));
}

#[test]
fn a_point_off_the_texture_is_in_no_camera() {
    let params = square_camera();
    let seen = |u: f64, v: f64| {
        let theta = e(forward_radius(d(u), d(v), &params)).atan();
        panorama_to_camera(d(u), d(v), &params, d(theta))
    };
    assert_eq!(seen(0.5, 0.5), Some((f(0.5), f(0.5))));
    let (x, y) = seen(1.2, 0.5).expect("on the texture and in the frame");
    assert!((e(x.to_double()) - (0.5 + 0.5 * 1.4_f64.atan())).abs() < 1e-6);
    assert_eq!(y, f(0.5));
    assert!(seen(1.6, 0.5).is_none(), "off the texture");
    assert!(seen(1.4, 0.5).is_none(), "out of the frame");
}

#[test]
fn world_to_plane_uv_roundtrips_with_plane_uv_to_world() {
    let steps = [-0.3_f64, -0.1, 0.0, 0.25, 0.5, 0.75, 1.0, 1.1, 1.4];
    let aspect = f(3840_f32 / 2160_f32);
    for u in steps {
        for v in steps {
            let (x, y) = plane_uv_to_world((d(u), d(v)), aspect);
            let back = world_to_plane_uv(x, y, f(1.0), aspect);
            assert!((e(back.0) - u).abs() < 1e-5, "sent {u}, got {}", e(back.0));
            assert!((e(back.1) - v).abs() < 1e-5, "sent {v}, got {}", e(back.1));
        }
    }
}

/// From end to end, however flat or tall the plane is.
#[test]
fn planes_of_any_shape_lead_back() {
    for aspect in [1e-30_f32, 0.1, 1.0, 16.0 / 9.0, 1e30] {
        for u in [-0.5_f64, 0.123456789, 1.5] {
            let (x, y) = plane_uv_to_world((d(u), d(u)), f(aspect));
            let back = world_to_plane_uv(x, y, f(1.0), f(aspect));
            assert!((e(back.0) - u).abs() <= 1.0 / 131072.0);
            assert!((e(back.1) - u).abs() <= 1.0 / 131072.0);
        }
    }
}

#[test]
fn the_lens_reaches_so_far() {
    let params = square_camera();
    assert!(within_reach(f(0.5), f(0.5), &params, d(0.0)));
    assert!(within_reach(f(1.0), f(0.5), &params, d(1.0)));
    assert!(!within_reach(f(1.0), f(0.5), &params, d(0.99)));
}

fn unit_square() -> Vec<[F64; 2]> {
    poly(&[[0.0, 0.0], [1.0, 0.0], [1.0, 1.0], [0.0, 1.0]])
}

fn poly(points: &[[f64; 2]]) -> Vec<[F64; 2]> {
    points.iter().map(|p| [d(p[0]), d(p[1])]).collect()
}

fn pip(p: [f64; 2], polygon: &[[F64; 2]]) -> bool {
    point_in_polygon([d(p[0]), d(p[1])], polygon)
}

#[test]
fn pip_center_of_square() {
    assert!(pip([0.5, 0.5], &unit_square()));
}

#[test]
fn pip_outside_square() {
    assert!(!pip([1.5, 0.5], &unit_square()));
    assert!(!pip([-0.1, 0.5], &unit_square()));
    assert!(!pip([0.5, -0.1], &unit_square()));
    assert!(!pip([0.5, 1.1], &unit_square()));
}

#[test]
fn pip_triangle() {
    let triangle = poly(&[[0.0, 0.0], [1.0, 0.0], [0.5, 1.0]]);
    assert!(pip([0.5, 0.3], &triangle));
    assert!(!pip([0.9, 0.8], &triangle));
}

#[test]
fn pip_concave_l_shape() {
    let l_shape =
        poly(&[[0.0, 0.0], [1.0, 0.0], [1.0, 0.5], [0.5, 0.5], [0.5, 1.0], [0.0, 1.0]]);
    assert!(pip([0.75, 0.25], &l_shape));
    assert!(pip([0.25, 0.75], &l_shape));
    assert!(!pip([0.75, 0.75], &l_shape));
}

#[test]
fn pip_degenerate_polygon() {
    assert!(!pip([0.5, 0.5], &[]));
    assert!(!pip([0.5, 0.5], &poly(&[[0.0, 0.0]])));
    assert!(!pip([0.5, 0.5], &poly(&[[0.0, 0.0], [1.0, 1.0]])));
}

#[test]
fn pip_near_edge_of_square() {
    assert!(pip([0.001, 0.5], &unit_square()));
    assert!(pip([0.999, 0.5], &unit_square()));
}

#[test]
fn panorama_extent_normalize_is_in_range_at_corners() {
    let ext = PanoramaExtent {
        yaw_min: f(-0.5),
        yaw_max: f(0.5),
        pitch_min: f(-0.3),
        pitch_max: f(0.3),
    };
    assert_eq!(g(ext.yaw_span()), 1.0);
    assert_eq!(g(ext.pitch_span()), 0.6);

    let (u, v) = ext.normalize(f(-0.5), f(-0.3)).unwrap();
    assert!((g(u) - 0.0).abs() < 1e-6);
    assert!((g(v) - 0.0).abs() < 1e-6);

    let (u, v) = ext.normalize(f(0.5), f(0.3)).unwrap();
    assert!((g(u) - 1.0).abs() < 1e-6);
    assert!((g(v) - 1.0).abs() < 1e-6);

    let (u, v) = ext.normalize(f(0.0), f(0.0)).unwrap();
    assert!((g(u) - 0.5).abs() < 1e-6);
    assert!((g(v) - 0.5).abs() < 1e-6);
}

#[test]
fn panorama_extent_normalize_rejects_degenerate() {
    let ext = PanoramaExtent {
        yaw_min: f(0.0),
        yaw_max: f(0.0),
        pitch_min: f(0.0),
        pitch_max: f(0.0),
    };
    assert!(ext.normalize(f(0.0), f(0.0)).is_none());
}

#[test]
fn outline_samples_go_round_both_frames() {
    let s = outline_samples();
    assert_eq!(s.len(), 328);
    assert_eq!(s[0], (CameraId::Left, f(0.02), f(0.02)));
    assert_eq!(s[1], (CameraId::Left, f(0.98), f(0.02)));
    assert_eq!(s[2], (CameraId::Left, f(0.02), f(0.02)));
    assert_eq!(s[163], (CameraId::Left, f(0.98), f(0.98)));
    assert_eq!(s[164], (CameraId::Right, f(0.02), f(0.02)));
    assert_eq!(border_samples().len(), 260);
    assert_eq!(border_samples()[130], (f(0.0), f(0.5)));
}

/// The outline of a rectangle of the panorama, in the order of the samples.
fn rectangle(yaw: f32, pitch: f32) -> Vec<Option<ViewportPosition>> {
    outline_samples()
        .iter()
        .map(|s| {
            let x = (g(s.1) - 0.5) / 0.48 * yaw;
            let y = (g(s.2) - 0.5) / 0.48 * pitch;
            Some(at(x, y))
        })
        .collect()
}

#[test]
fn bounds_leave_room_for_the_view() {
    let b = viewport_bounds(&rectangle(1.0, 0.5), f(0.25), f(0.125));
    assert!((g(b.min_yaw) + 0.75).abs() < 1e-4, "{}", g(b.min_yaw));
    assert!((g(b.max_yaw) - 0.75).abs() < 1e-4, "{}", g(b.max_yaw));
    assert!((g(b.min_pitch) + 0.375).abs() < 1e-4, "{}", g(b.min_pitch));
    assert!((g(b.max_pitch) - 0.375).abs() < 1e-4, "{}", g(b.max_pitch));
}

#[test]
fn a_wider_view_leaves_less_room() {
    let narrow = viewport_bounds(&rectangle(1.0, 0.5), f(0.2), f(0.1));
    let wide = viewport_bounds(&rectangle(1.0, 0.5), f(0.4), f(0.2));
    assert!(g(wide.min_yaw) >= g(narrow.min_yaw) && g(wide.max_yaw) <= g(narrow.max_yaw));
    assert!(g(wide.min_pitch) >= g(narrow.min_pitch) && g(wide.max_pitch) <= g(narrow.max_pitch));
}

#[test]
fn bounds_collapse_where_nothing_is_left() {
    let b = viewport_bounds(&rectangle(1.0, 0.5), f(3.0), f(0.125));
    assert_eq!(b.min_yaw, b.max_yaw);
    assert!(g(b.min_yaw).abs() < 1e-4);
    let none = viewport_bounds(&vec![None; 328], f(0.1), f(0.1));
    let zero = f(0.0);
    assert_eq!(
        none,
        ViewportBounds { min_yaw: zero, max_yaw: zero, min_pitch: zero, max_pitch: zero }
    );
}

#[test]
fn few_points_fall_back_to_the_whole_outline() {
    let mut positions: Vec<Option<ViewportPosition>> = vec![None; 328];
    positions[0] = Some(at(-1.0, -0.5));
    positions[5] = Some(at(1.0, 0.5));
    let b = viewport_bounds(&positions, f(0.25), f(0.125));
    assert_eq!((g(b.min_yaw), g(b.max_yaw)), (-0.75, 0.75));
    assert_eq!((g(b.min_pitch), g(b.max_pitch)), (-0.375, 0.375));
}

#[test]
fn clamping_keeps_the_field_of_view() {
    let b = ViewportBounds {
        min_yaw: f(-1.0),
        max_yaw: f(1.0),
        min_pitch: f(-0.5),
        max_pitch: f(0.5),
    };
    let p = ViewportPosition { yaw: f(3.0), pitch: f(-2.0), fov_degrees: Some(f(40.0)) };
    let q = b.clamp(p);
    assert_eq!((g(q.yaw), g(q.pitch), q.fov_degrees), (1.0, -0.5, Some(f(40.0))));
    assert_eq!(b.clamp(q), q);
}

#[test]
fn half_the_view_is_in_radians() {
    assert_eq!(g(half_view(f(60.0))), (60.0_f32 * 0.5).to_radians());
}

/// The lens polynomial as the machine computes it.
#[test]
fn the_lens_is_a_polynomial() {
    let k = [0.0342_f64, 0.0677, -0.0741, 0.0299];
    for theta in [0.0_f64, 0.3, 0.9, 1.4, -0.5] {
        let t2 = theta * theta;
        let t4 = t2 * t2;
        let poly = theta * (1.0 + k[0] * t2 + k[1] * t4 + k[2] * (t4 * t2) + k[3] * (t4 * t4));
        let slope = 1.0
            + 3.0 * k[0] * t2
            + 5.0 * k[1] * t4
            + 7.0 * k[2] * (t4 * t2)
            + 9.0 * k[3] * (t4 * t4);
        assert_eq!(theta_d(d(theta), &k.map(d)), d(poly));
        assert_eq!(theta_d_prime(d(theta), &k.map(d)), d(slope));
        assert_eq!(theta_d(d(theta), &[d(0.0); 4]), d(theta));
        assert_eq!(theta_d_prime(d(theta), &[d(0.0); 4]), d(1.0));
    }
}

/// The rig of a match: two cameras alike, and how their pictures stand.
fn match_calibration() -> MatchCalibration {
    let mut cal = MatchCalibration::mono_placeholder();
    cal.left = wide_camera();
    cal.right = wide_camera();
    cal.layout = PlaneLayout {
        camera_axis_offset: d(0.2398),
        intersect: d(0.5446),
        x_ty: d(0.00476),
        x_rz: d(0.00753),
        z_rx: d(-0.00431),
        x_rx: d(0.0),
        z_rz: d(0.0),
    };
    cal
}

/// Two quads that meet at a right angle, with the pictures of two cameras on
/// them, and a virtual camera that looks at where they meet.
struct Scene {
    models: [nalgebra::Isometry3<f32>; 2],
    eye: nalgebra::Vector3<f32>,
    aspect: f32,
}

/// The quads of a layout: the left one across x, the right one across z.
fn scene(cal: &MatchCalibration) -> Scene {
    let n = |x: F64| e(x) as f32;
    let l = &cal.layout;
    let shift = n(l.intersect) - 0.5;
    let turned = |rx: f32, ry: f32, rz: f32| {
        nalgebra::UnitQuaternion::from_axis_angle(&nalgebra::Vector3::y_axis(), ry)
            * nalgebra::UnitQuaternion::from_axis_angle(&nalgebra::Vector3::x_axis(), rx)
            * nalgebra::UnitQuaternion::from_axis_angle(&nalgebra::Vector3::z_axis(), rz)
    };
    let left = nalgebra::Isometry3::from_parts(
        nalgebra::Translation3::new(shift, n(l.x_ty), 0.0),
        turned(n(l.x_rx), 0.0, n(l.x_rz)),
    );
    let right = nalgebra::Isometry3::from_parts(
        nalgebra::Translation3::new(0.0, 0.0, shift),
        turned(n(l.z_rx), std::f32::consts::FRAC_PI_2, n(l.z_rz)),
    );
    let offset = n(l.camera_axis_offset);
    Scene {
        models: [left, right],
        eye: nalgebra::Vector3::new(offset, 0.0, offset),
        aspect: cal.left.width as f32 / cal.left.height as f32,
    }
}

fn side(camera: CameraId) -> usize {
    match camera {
        CameraId::Left => 0,
        CameraId::Right => 1,
    }
}

/// The unit ray from the virtual camera to the point that a pixel shows.
fn to_ray(
    camera: CameraId,
    x: f32,
    y: f32,
    cal: &MatchCalibration,
    scene: &Scene,
) -> Option<nalgebra::Vector3<f32>> {
    let s = search_ray(camera, f(x), f(y), cal);
    let (x, y) = camera_to_panorama(&s, d(e(s.theta).tan()), f(scene.aspect))?;
    let world = scene.models[side(camera)].transform_point(&nalgebra::Point3::new(g(x), g(y), 0.0));
    Some((world.coords - scene.eye).normalize())
}

/// Where a ray from the virtual camera meets a quad, in the quad's own axes.
fn met(dir: nalgebra::Vector3<f32>, camera: CameraId, scene: &Scene) -> Option<(f32, f32)> {
    let model = &scene.models[side(camera)];
    let normal = model.rotation.transform_vector(&nalgebra::Vector3::z());
    let reach = (model.translation.vector - scene.eye).dot(&normal);
    let t = g(ray_meets_plane(f(reach), f(dir.dot(&normal)))?);
    let hit = nalgebra::Point3::from(scene.eye + dir * t);
    let local = model.inverse_transform_point(&hit);
    Some((local.x, local.y))
}

/// The pixel that shows where a ray from the virtual camera ends.
fn to_pixel(
    dir: nalgebra::Vector3<f32>,
    camera: CameraId,
    params: &CameraParams,
    scene: &Scene,
) -> Option<(f32, f32)> {
    let local = met(dir, camera, scene)?;
    let uv = world_to_plane_uv(f(local.0), f(local.1), f(1.0), f(scene.aspect));
    let theta = e(forward_radius(uv.0, uv.1, params)).atan();
    panorama_to_camera(uv.0, uv.1, params, d(theta)).map(|p| (g(p.0), g(p.1)))
}

#[test]
fn camera_to_panorama_roundtrips_with_panorama_to_camera() {
    let cal = match_calibration();
    let scene = scene(&cal);
    let steps = 5;
    let (lo, hi) = (0.3_f32, 0.7_f32);
    for camera in [CameraId::Left, CameraId::Right] {
        for i in 0..=steps {
            for j in 0..=steps {
                let x = lo + (hi - lo) * (i as f32 / steps as f32);
                let y = lo + (hi - lo) * (j as f32 / steps as f32);
                let ray = to_ray(camera, x, y, &cal, &scene)
                    .expect("forward projection should succeed inside coverage");
                let back = to_pixel(ray, camera, &cal.left, &scene)
                    .expect("backward projection should land on the same camera");
                assert!((back.0 - x).abs() < 1e-3, "x mismatch: sent {x}, got {}", back.0);
                assert!((back.1 - y).abs() < 1e-3, "y mismatch: sent {y}, got {}", back.1);
            }
        }
    }
}

/// Where a pixel lies in the panorama: its yaw and its pitch.
fn panned(
    camera: CameraId,
    x: f32,
    y: f32,
    cal: &MatchCalibration,
    scene: &Scene,
) -> Option<(f32, f32)> {
    let ray = to_ray(camera, x, y, cal, scene)?;
    let ahead = -scene.eye.normalize();
    let right = nalgebra::Vector3::y().cross(&ahead).normalize();
    let up = ahead.cross(&right);
    let p = angles(ray.dot(&right), ray.dot(&up), ray.dot(&ahead));
    Some((g(p.yaw), g(p.pitch)))
}

#[test]
fn optical_center_maps_to_known_position() {
    let cal = match_calibration();
    let scene = scene(&cal);
    let cx = e(cal.left.cx) as f32 / cal.left.width as f32;
    let cy = e(cal.left.cy) as f32 / cal.left.height as f32;
    let pos = panned(CameraId::Left, cx, cy, &cal, &scene);
    assert!(pos.is_some(), "optical center should map successfully");
    let pos = pos.unwrap();
    assert!(pos.0.is_finite(), "yaw should be finite");
    assert!(pos.1.is_finite(), "pitch should be finite");
}

#[test]
fn left_camera_left_edge_yaw_differs_from_center() {
    let cal = match_calibration();
    let scene = scene(&cal);
    let center = panned(CameraId::Left, 0.5, 0.5, &cal, &scene).unwrap();
    let left_edge = panned(CameraId::Left, 0.1, 0.5, &cal, &scene).unwrap();
    assert!(
        (left_edge.0 - center.0).abs() > 0.1,
        "left edge yaw ({:.4}) and center yaw ({:.4}) should differ by > 0.1 rad",
        left_edge.0,
        center.0
    );
}

#[test]
fn right_camera_produces_different_yaw_than_left() {
    let cal = match_calibration();
    let scene = scene(&cal);
    let left_center = panned(CameraId::Left, 0.5, 0.5, &cal, &scene).unwrap();
    let right_center = panned(CameraId::Right, 0.5, 0.5, &cal, &scene).unwrap();
    assert!(
        (left_center.0 - right_center.0).abs() > 0.01,
        "left ({:.4}) and right ({:.4}) camera centers should differ in yaw",
        left_center.0,
        right_center.0
    );
}

/// The bounds of a view of the given vertical angle.
fn bounds_for_view(fov: f32, cal: &MatchCalibration, scene: &Scene, aspect: f32) -> ViewportBounds {
    let half_v = g(half_view(f(fov)));
    let half_h = (half_v.tan() * aspect).atan();
    let corner_h = (half_h.tan() / half_v.cos()).atan();
    let corner_v = (half_v.tan() / half_h.cos()).atan();
    let positions = outline_samples()
        .into_iter()
        .map(|(camera, x, y)| panned(camera, g(x), g(y), cal, scene).map(|p| at(p.0, p.1)))
        .collect();
    viewport_bounds(&positions, f(corner_h), f(corner_v))
}

#[test]
fn viewport_bounds_are_valid() {
    let cal = match_calibration();
    let scene = scene(&cal);
    let bounds = bounds_for_view(40.0, &cal, &scene, 16.0 / 9.0);
    let (min_yaw, max_yaw) = (g(bounds.min_yaw), g(bounds.max_yaw));
    let (min_pitch, max_pitch) = (g(bounds.min_pitch), g(bounds.max_pitch));
    assert!(min_yaw < max_yaw, "yaw range should be valid: {min_yaw:.4}..{max_yaw:.4}");
    assert!(min_pitch < max_pitch, "pitch range should be valid: {min_pitch:.4}..{max_pitch:.4}");
    assert!(max_yaw - min_yaw > 0.01, "yaw range too small: {min_yaw:.4}..{max_yaw:.4}");
}

#[test]
fn wider_fov_produces_tighter_bounds() {
    let cal = match_calibration();
    let scene = scene(&cal);
    let narrow = bounds_for_view(30.0, &cal, &scene, 16.0 / 9.0);
    let wide = bounds_for_view(60.0, &cal, &scene, 16.0 / 9.0);
    assert!(
        g(wide.min_yaw) >= g(narrow.min_yaw),
        "wider FOV min_yaw ({:.4}) should be >= narrow ({:.4})",
        g(wide.min_yaw),
        g(narrow.min_yaw)
    );
    assert!(
        g(wide.max_yaw) <= g(narrow.max_yaw),
        "wider FOV max_yaw ({:.4}) should be <= narrow ({:.4})",
        g(wide.max_yaw),
        g(narrow.max_yaw)
    );
}

/// What the way from a pixel to the panorama and back needs of the caller's
/// tangents, arctangents and matrices holds of those here.
#[test]
fn the_way_back_stays_close_enough() {
    let cal = match_calibration();
    let scene = scene(&cal);
    for camera in [CameraId::Left, CameraId::Right] {
        for i in 0..=8 {
            for j in 0..=8 {
                let (x, y) = (0.3 + 0.05 * i as f32, 0.3 + 0.05 * j as f32);
                let s = search_ray(camera, f(x), f(y), &cal);
                assert_eq!(s.step, SolveStep::Solved);
                let (far, tangent) = (e(s.theta_d), e(s.theta).tan());
                assert!(e(s.theta).abs() <= 1.1 && far <= 2.0);
                assert!(4.0 * far <= 5.0 * tangent && tangent <= 64.0 * far);
                let quad = camera_to_panorama(&s, d(tangent), f(scene.aspect)).unwrap();
                let there = world_to_plane_uv(quad.0, quad.1, f(1.0), f(scene.aspect));
                let ray = to_ray(camera, x, y, &cal, &scene).unwrap();
                let hit = met(ray, camera, &scene).unwrap();
                let uv = world_to_plane_uv(f(hit.0), f(hit.1), f(1.0), f(scene.aspect));
                let off = (e(uv.0) - e(there.0)).abs().max((e(uv.1) - e(there.1)).abs());
                assert!(off <= 1.0 / 1048576.0, "the hit is off by {off}");
                let theta = e(forward_radius(uv.0, uv.1, &cal.left)).atan();
                let turned = (theta - e(s.theta)).abs();
                assert!(turned <= 1.0 / 14000.0, "the angle is off by {turned}");
            }
        }
    }
}
