use reco::calibration::{CameraParams, PlaneLayout};
use reco::double::F64;
use reco::single::F32;
use reco::stereo::{
    calibrate_with, detect_regions, finish_calibration, pool_matches, process_undistorted_pair,
    AkazeConfig, CalibrateError, CalibrationConfig, CalibrationQuality, Feature, FeaturePair,
    FrameMatches, MatchConfig, MatchedPoint, PairAction, PairEvent, PooledMatches,
};

fn d(x: f64) -> F64 {
    F64::from_bits(x.to_bits())
}

fn f(x: f32) -> F32 {
    F32::from_bits(x.to_bits())
}

fn config() -> CalibrationConfig {
    CalibrationConfig {
        akaze: AkazeConfig { detect_y_min: d(0.2), detect_y_max: d(0.9), max_keypoints: 500 },
        matching: MatchConfig {
            spatial_x_inner: d(0.05),
            spatial_x_threshold: d(0.5),
            min_matches: 2,
        },
    }
}

fn pair(x: f32) -> FeaturePair {
    let side = |x: f32| Feature { x: f(x), y: f(20.0), plane_x: d(0.25), plane_y: d(0.75) };
    FeaturePair { left: side(x), right: side(x / 2.0) }
}

#[test]
fn features_are_sought_where_the_frames_overlap() {
    let (left, right) = detect_regions(&config());
    assert_eq!((left.x_min, left.x_max), (f(0.5), f(1.0 - 0.05)));
    assert_eq!((right.x_min, right.x_max), (f(0.05), f(0.5)));
    assert_eq!((left.y_min, right.y_max), (f(0.2), f(0.9)));
}

fn detected(left: usize, right: usize) -> PairEvent {
    PairEvent::Detected {
        keypoints_left: left,
        keypoints_right: right,
        descriptors_left: left,
        descriptors_right: right,
    }
}

#[test]
fn a_good_pair_is_kept() {
    let (mut m, first) = process_undistorted_pair(&config(), 100, 200);
    assert!(matches!(first, PairAction::Detect { max_keypoints: 500, .. }));
    assert!(matches!(m.answer(detected(9, 7)), Some(PairAction::Match)));
    assert!(m.answer(detected(9, 7)).is_none(), "no such question was asked");
    assert!(matches!(m.answer(PairEvent::Matched { raw: 5 }), Some(PairAction::Reject)));
    let inliers = Some(vec![pair(50.0), pair(60.0), pair(70.0)]);
    let points = match m.answer(PairEvent::Rejected { spatial: 4, inliers }) {
        Some(PairAction::Filter(points)) => points,
        other => panic!("{other:?}"),
    };
    assert_eq!(points.len(), 3);
    assert_eq!(points[0].left_pixel_nx, d(0.125));
    assert_eq!(points[0].right_pixel_nx, d(0.5));
    match m.answer(PairEvent::Filtered(points)) {
        Some(PairAction::Keep(kept)) => {
            assert_eq!((kept.keypoints_left, kept.keypoints_right, kept.min_descriptors), (9, 7, 7));
            assert_eq!(
                (kept.post_ratio_test, kept.post_spatial_filter, kept.post_ransac),
                (5, 4, 3)
            );
        }
        other => panic!("{other:?}"),
    }
}

#[test]
fn a_poor_pair_is_skipped() {
    let (mut m, _) = process_undistorted_pair(&config(), 100, 200);
    assert!(matches!(m.answer(detected(0, 7)), Some(PairAction::Skip)));
    let (mut m, _) = process_undistorted_pair(&config(), 100, 200);
    m.answer(detected(9, 7));
    assert!(matches!(m.answer(PairEvent::Matched { raw: 1 }), Some(PairAction::Skip)));
    let (mut m, _) = process_undistorted_pair(&config(), 100, 200);
    m.answer(detected(9, 7));
    m.answer(PairEvent::Matched { raw: 2 });
    let none = PairEvent::Rejected { spatial: 2, inliers: None };
    assert!(matches!(m.answer(none), Some(PairAction::Skip)));
    let (mut m, _) = process_undistorted_pair(&config(), 100, 200);
    m.answer(detected(9, 7));
    m.answer(PairEvent::Matched { raw: 2 });
    let few = PairEvent::Rejected { spatial: 2, inliers: Some(vec![pair(1.0)]) };
    assert!(matches!(m.answer(few), Some(PairAction::Skip)));
}

#[test]
fn a_calibration_needs_frames() {
    assert!(matches!(
        calibrate_with(Err("bad".to_string()), &vec![]),
        Err(CalibrateError::InvalidConfig(_))
    ));
    assert!(matches!(calibrate_with(Ok(()), &vec![]), Err(CalibrateError::NoUsableFrames)));
    let empty = vec![((0, 1), (2, 3))];
    assert!(matches!(calibrate_with(Ok(()), &empty), Err(CalibrateError::NoUsableFrames)));
    let g = calibrate_with(Ok(()), &vec![((1920, 1080), (1280, 720))]).unwrap();
    assert_eq!((g.left, g.right), ((1920, 1080), (1280, 720)));
    assert_eq!(g.left_aspect, f(1920.0 / 1080.0));
}

fn matches_of(n: usize) -> FrameMatches {
    let p = MatchedPoint {
        left: [d(0.0), d(0.0)],
        right: [d(0.0), d(0.0)],
        left_pixel_nx: d(0.5),
        right_pixel_nx: d(0.5),
    };
    FrameMatches {
        points: vec![p; n],
        keypoints_left: n,
        keypoints_right: n,
        min_descriptors: n,
        post_ratio_test: n,
        post_spatial_filter: n,
        post_ransac: n,
    }
}

#[test]
fn matches_are_pooled() {
    assert!(matches!(
        pool_matches(vec![None, None], &config()),
        Err(CalibrateError::NoUsableFrames)
    ));
    assert!(matches!(
        pool_matches(vec![None, Some(matches_of(1))], &config()),
        Err(CalibrateError::InsufficientMatches { got: 1, min: 2 })
    ));
    let p = pool_matches(vec![Some(matches_of(3)), None, Some(matches_of(4))], &config()).unwrap();
    assert_eq!((p.per_frame.len(), p.points.len()), (2, 7));
}

fn pool(n: usize) -> PooledMatches {
    pool_matches(vec![Some(matches_of(n))], &config()).unwrap()
}

#[test]
fn confidence_grows_with_matches() {
    let camera = CameraParams {
        width: 10,
        height: 10,
        fx: d(1.0),
        fy: d(1.0),
        cx: d(5.0),
        cy: d(5.0),
        d: [d(0.0); 4],
    };
    let layout = PlaneLayout {
        camera_axis_offset: d(0.24),
        intersect: d(0.5),
        x_ty: d(0.0),
        x_rz: d(0.0),
        z_rx: d(0.0),
        x_rx: d(0.0),
        z_rz: d(0.0),
    };
    let quality = CalibrationQuality {
        mean_reprojection_error: d(1.0),
        trimmed_reprojection_error: d(0.5),
        angular_error: d(0.1),
    };
    for (n, confidence) in [(10, 0.2), (50, 1.0), (400, 1.0)] {
        let r = finish_calibration(pool(n), Ok((layout, d(0.25), quality)), &camera, &camera);
        let r = r.unwrap();
        assert_eq!(r.confidence, d(confidence));
        assert_eq!((r.total_matches, r.frames_used), (n, 1));
        assert_eq!(r.residual_error, d(0.25));
        assert_eq!(r.calibration.blend_width, f(0.05));
    }
    let failed = Err(CalibrateError::OptimizerFailed { max_evals: 7 });
    assert!(matches!(
        finish_calibration(pool(9), failed, &camera, &camera),
        Err(CalibrateError::OptimizerFailed { max_evals: 7 })
    ));
}
