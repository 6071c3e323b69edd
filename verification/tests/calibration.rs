use reco::calibration::{
    default_blend_width, default_lens_correction_amount, CalibrationError, CalibrationLoadError,
    CameraParams, MatchCalibration, PlaneLayout, MAX_DIM,
};
use reco::double::F64;
use reco::single::F32;

fn f(x: f32) -> F32 {
    F32::from_bits(x.to_bits())
}

fn d(x: f64) -> F64 {
    F64::from_bits(x.to_bits())
}

fn camera() -> CameraParams {
    CameraParams {
        width: 3840,
        height: 2160,
        fx: d(1796.32),
        fy: d(1797.22),
        cx: d(1919.37),
        cy: d(1063.17),
        d: [d(0.0342), d(0.0677), d(-0.0741), d(0.0299)],
    }
}

fn valid_cal() -> MatchCalibration {
    MatchCalibration {
        left: camera(),
        right: camera(),
        layout: PlaneLayout {
            camera_axis_offset: d(0.2398),
            intersect: d(0.5446),
            x_ty: d(0.00476),
            x_rz: d(0.00753),
            z_rx: d(-0.00431),
            x_rx: d(0.0),
            z_rz: d(0.0),
        },
        rig_tilt: d(0.0),
        rig_roll: d(0.0),
        sync_offset: 0,
        field_roi: None,
        lens_correction_amount: f(1.0),
        blend_width: f(0.05),
    }
}

#[test]
fn validate_valid_calibration_passes() {
    assert!(valid_cal().validate().is_ok());
}

#[test]
fn validate_zero_fx_fails() {
    let mut cal = valid_cal();
    cal.left.fx = d(0.0);
    let err = cal.validate().unwrap_err();
    assert!(
        matches!(err, CalibrationError::FocalLengthTooSmall { .. }),
        "unexpected error variant: {err:?}"
    );
}

#[test]
fn validate_negative_fx_fails() {
    let mut cal = valid_cal();
    cal.right.fy = d(-500.0);
    let err = cal.validate().unwrap_err();
    assert!(
        matches!(err, CalibrationError::FocalLengthTooSmall { .. }),
        "unexpected error variant: {err:?}"
    );
}

#[test]
fn validate_nan_in_distortion_fails() {
    let mut cal = valid_cal();
    cal.left.d[2] = d(f64::NAN);
    let err = cal.validate().unwrap_err();
    assert!(
        matches!(err, CalibrationError::NonFiniteFloat { ref field, .. } if field.contains("left.d[2]")),
        "unexpected error: {err:?}"
    );
}

#[test]
fn validate_inf_in_distortion_fails() {
    let mut cal = valid_cal();
    cal.right.d[0] = d(f64::INFINITY);
    let err = cal.validate().unwrap_err();
    assert!(
        matches!(err, CalibrationError::NonFiniteFloat { .. }),
        "unexpected error variant: {err:?}"
    );
}

#[test]
fn validate_intersect_above_one_fails() {
    let mut cal = valid_cal();
    cal.layout.intersect = d(1.001);
    let err = cal.validate().unwrap_err();
    assert!(
        matches!(err, CalibrationError::IntersectOutOfRange { value } if (f64::from_bits(value.to_bits()) - 1.001).abs() < 1e-9),
        "unexpected error: {err:?}"
    );
}

#[test]
fn validate_intersect_negative_fails() {
    let mut cal = valid_cal();
    cal.layout.intersect = d(-0.1);
    let err = cal.validate().unwrap_err();
    assert!(
        matches!(err, CalibrationError::IntersectOutOfRange { .. }),
        "unexpected error variant: {err:?}"
    );
}

#[test]
fn validate_zero_width_fails() {
    let mut cal = valid_cal();
    cal.right.width = 0;
    let err = cal.validate().unwrap_err();
    assert!(
        matches!(
            err,
            CalibrationError::ZeroDimension {
                camera: "right",
                field: "width",
                ..
            }
        ),
        "unexpected error: {err:?}"
    );
}

#[test]
fn validate_dimension_too_large_fails() {
    let mut cal = valid_cal();
    cal.left.height = MAX_DIM + 1;
    let err = cal.validate().unwrap_err();
    assert!(
        matches!(
            err,
            CalibrationError::DimensionTooLarge {
                camera: "left",
                field: "height",
                ..
            }
        ),
        "unexpected error: {err:?}"
    );
}

#[test]
fn validate_zero_camera_axis_offset_fails() {
    let mut cal = valid_cal();
    cal.layout.camera_axis_offset = d(0.0);
    let err = cal.validate().unwrap_err();
    assert!(
        matches!(err, CalibrationError::AxisOffsetTooSmall { .. }),
        "unexpected error variant: {err:?}"
    );
}

#[test]
fn validate_nan_camera_axis_offset_fails() {
    let mut cal = valid_cal();
    cal.layout.camera_axis_offset = d(f64::NAN);
    let err = cal.validate().unwrap_err();
    assert!(
        matches!(err, CalibrationError::NonFiniteFloat { ref field, .. } if field == "params.cameraAxisOffset"),
        "unexpected error: {err:?}"
    );
}

#[test]
fn validate_nan_blend_width_fails() {
    let mut cal = valid_cal();
    cal.blend_width = f(f32::NAN);
    let err = cal.validate().unwrap_err();
    assert!(
        matches!(err, CalibrationError::NonFiniteFloat { ref field, .. } if field == "blend_width"),
        "unexpected error: {err:?}"
    );
}

#[test]
fn validate_rejects_sync_offset_i64_min() {
    let mut cal = valid_cal();
    cal.sync_offset = i64::MIN;
    let err = cal.validate().expect_err("i64::MIN must be rejected");
    assert!(matches!(err, CalibrationError::SyncOffsetOutOfRange { .. }));
}

#[test]
fn validate_rejects_sync_offset_i64_max() {
    let mut cal = valid_cal();
    cal.sync_offset = i64::MAX;
    let err = cal.validate().expect_err("i64::MAX must be rejected");
    assert!(matches!(err, CalibrationError::SyncOffsetOutOfRange { .. }));
}

#[test]
fn validate_accepts_plausible_sync_offsets() {
    for v in [-10_000_i64, -60, 0, 60, 10_000] {
        let mut cal = valid_cal();
        cal.sync_offset = v;
        cal.validate()
            .unwrap_or_else(|e| panic!("sync_offset={v} must be accepted: {e:?}"));
    }
}

#[test]
fn validate_rejects_sync_offset_just_past_cap() {
    let mut cal = valid_cal();
    cal.sync_offset = 100_001;
    let err = cal.validate().unwrap_err();
    assert!(matches!(err, CalibrationError::SyncOffsetOutOfRange { .. }));
}

#[test]
fn the_first_fault_is_reported() {
    let mut cal = valid_cal();
    cal.left.width = 0;
    cal.right.width = 0;
    cal.sync_offset = i64::MAX;
    assert!(matches!(
        cal.validate(),
        Err(CalibrationError::ZeroDimension { camera: "left", field: "width", value: 0 })
    ));
}

#[test]
fn a_placeholder_is_valid() {
    let cal = MatchCalibration::mono_placeholder();
    assert!(cal.validate().is_ok());
    assert!(cal.field_roi.is_none());
}

#[test]
fn defaults_are_full_correction_and_a_narrow_seam() {
    assert_eq!(default_lens_correction_amount(), f(1.0));
    assert_eq!(default_blend_width(), f(0.05));
}

#[test]
fn infinities_are_named_in_the_fault() {
    let mut cal = valid_cal();
    cal.layout.x_ty = d(f64::NEG_INFINITY);
    match cal.validate() {
        Err(CalibrationError::NonFiniteFloat { value, .. }) => assert_eq!(value, "-inf"),
        other => panic!("{other:?}"),
    }
    let mut cal = valid_cal();
    cal.layout.x_ty = d(f64::NAN);
    match cal.validate() {
        Err(CalibrationError::NonFiniteFloat { value, .. }) => assert_eq!(value, "NaN"),
        other => panic!("{other:?}"),
    }
}

#[test]
fn only_small_files_are_read() {
    assert!(MatchCalibration::accept_size(0).is_ok());
    assert!(MatchCalibration::accept_size(u64::MAX).is_err());
}

#[test]
fn what_was_parsed_is_validated() {
    assert!(MatchCalibration::accept_parsed(Ok(valid_cal())).is_ok());
    let mut bad = valid_cal();
    bad.left.fx = d(0.0);
    assert!(matches!(
        MatchCalibration::accept_parsed(Ok(bad)),
        Err(CalibrationLoadError::Invalid(CalibrationError::FocalLengthTooSmall { .. }))
    ));
    assert!(MatchCalibration::accept_parsed(Err("no".to_string())).is_err());
}
