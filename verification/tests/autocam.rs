use reco::autocam::{
    check_model_path, resolve_class_id, resolve_or, setup_autocam, validate_model_path,
    AutocamConfig, Backend, Build, ModelPathError, PannerChoice, SetupAction, SetupError,
    SetupEvent, TrackingMode,
};
use reco::calibration::FieldRoi;
use reco::single::F32;

fn names(list: &[&str]) -> Vec<String> {
    list.iter().map(|s| s.to_string()).collect()
}

#[test]
fn model_path_validation_accepts_files_and_directories() {
    assert!(validate_model_path("/").is_ok());
    assert!(validate_model_path("/proc/self/status").is_ok());
}

#[test]
fn model_path_validation_rejects_empty_and_missing_paths() {
    let missing = "/model-that-does-not-exist.onnx";
    match validate_model_path(missing) {
        Err(ModelPathError::NotFound(m)) => {
            assert_eq!(m, "AI model path does not exist: /model-that-does-not-exist.onnx");
        }
        other => panic!("{other:?}"),
    }
    assert!(matches!(validate_model_path(""), Err(ModelPathError::NotFound(_))));
}

#[test]
fn what_the_system_says_is_passed_on() {
    match check_model_path("m.onnx", Err("denied".to_string())) {
        Err(ModelPathError::Io(m)) => assert_eq!(m, "denied"),
        other => panic!("{other:?}"),
    }
    assert!(check_model_path("m.onnx", Ok(true)).is_ok());
    assert!(check_model_path("", Ok(true)).is_err());
}

#[test]
fn class_ids_come_from_labels() {
    let labels = names(&["person", "Sports Ball", "ball"]);
    assert_eq!(resolve_class_id(&labels, &vec!["ball"]), Some(2));
    assert_eq!(resolve_class_id(&labels, &vec!["sports ball", "ball"]), Some(1));
    assert_eq!(resolve_class_id(&labels, &vec!["goal"]), None);
    assert_eq!(resolve_or(&labels, &vec!["goal"], 32), 32);
    assert_eq!(resolve_or(&labels, &vec!["person"], 32), 0);
}

#[test]
fn a_configuration_starts_with_defaults() {
    let c = AutocamConfig::new("m.onnx".to_string());
    assert_eq!(c.model_path, "m.onnx");
    assert_eq!(c.tracking_mode, TrackingMode::Ball);
    assert_eq!(c.detection_interval, 1);
    assert!(c.field_roi.is_none() && !c.is_10bit && c.confidence_threshold.is_none());
    let c = c
        .with_tracking_mode(TrackingMode::Field)
        .with_detection_interval(3)
        .with_field_roi(FieldRoi::default())
        .with_10bit(true);
    assert_eq!(c.tracking_mode, TrackingMode::Field);
    assert_eq!(c.detection_interval, 3);
    assert!(c.field_roi.is_some() && c.is_10bit);
}

fn build() -> Build {
    Build { ort: true, tensorrt: false, ncnn: false, linux: true, macos: false }
}

fn f(x: f32) -> F32 {
    F32::from_bits(x.to_bits())
}

#[test]
fn a_ball_is_followed_on_the_cpu() {
    let config = AutocamConfig::new("ball.onnx".to_string()).with_detection_interval(2);
    let (mut setup, action) = setup_autocam(config, f(30.0), build(), false, false);
    assert!(matches!(action, SetupAction::CheckPath));
    let mut next = setup.answer(SetupEvent::PathChecked(Ok(())));
    let mut tried = Vec::new();
    loop {
        next = match next {
            Some(SetupAction::ReadModel) => setup.answer(SetupEvent::ModelRead {
                class_names: names(&["ball"]),
                is_rf_detr: false,
            }),
            Some(SetupAction::Attach(request)) => {
                tried.push(request.backend);
                assert_eq!(request.confidence, f(0.10));
                if request.backend == Backend::CpuYolo {
                    setup.answer(SetupEvent::Attached)
                } else {
                    setup.answer(SetupEvent::Unavailable)
                }
            }
            Some(SetupAction::Finish(w)) => {
                assert!(w.active);
                assert_eq!(w.detection_interval, Some(2));
                assert_eq!(w.ball.map(|b| b.class_id), Some(0));
                assert_eq!(w.player_class, None);
                match w.panner {
                    Some(PannerChoice::Field(p)) => assert_eq!(p.config.ball_weight, f(1.0)),
                    other => panic!("{other:?}"),
                }
                break;
            }
            other => panic!("{other:?}"),
        };
    }
    assert_eq!(tried.last(), Some(&Backend::CpuYolo));
}

#[test]
fn a_missing_model_fails_the_set_up() {
    let config = AutocamConfig::new("ball.onnx".to_string());
    let (mut setup, _) = setup_autocam(config, f(30.0), build(), false, false);
    let refused = Err(ModelPathError::NotFound("gone".to_string()));
    match setup.answer(SetupEvent::PathChecked(refused)) {
        Some(SetupAction::Fail(SetupError::Path(ModelPathError::NotFound(m)))) => {
            assert_eq!(m, "gone");
        }
        other => panic!("{other:?}"),
    }
}

#[test]
fn a_sweep_goes_on_without_a_detector() {
    let config = AutocamConfig::new(String::new()).with_tracking_mode(TrackingMode::Sweep);
    let (mut setup, first) = setup_autocam(config, f(30.0), build(), false, false);
    let mut next = Some(first);
    loop {
        next = match next {
            Some(SetupAction::Attach(_)) => setup.answer(SetupEvent::Unavailable),
            Some(SetupAction::ReadModel) => setup.answer(SetupEvent::ModelUnread),
            Some(SetupAction::Finish(w)) => {
                assert!(w.active && w.ball.is_none());
                assert!(matches!(w.panner, Some(PannerChoice::Sweep { .. })));
                break;
            }
            other => panic!("{other:?}"),
        };
    }
}
