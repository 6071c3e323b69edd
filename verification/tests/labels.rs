use reco::labels::{__fuzz_parse_names_dict_string, parse_names_dict_string, MAX_CLASS_COUNT};
use reco::ort_session::{
    create_ort_session, dylib_name, dylib_place, is_rf_detr_output_shape, minor_version,
    ort_runtime_available, probe_ort_dylib, DylibPlace, ModelFacts, Provider, Providers,
    RuntimeGate, RuntimeStart, SessionError, ValueShape,
};

#[test]
fn parse_names_dict_string_happy_path() {
    let input = "{0: 'person', 1: 'bicycle', 2: 'car'}";
    let labels = parse_names_dict_string(input).unwrap();
    assert_eq!(labels, vec!["person", "bicycle", "car"]);
}

#[test]
fn parse_names_dict_string_fills_gaps() {
    let input = "{0: 'ball', 3: 'goal'}";
    let labels = parse_names_dict_string(input).unwrap();
    assert_eq!(labels, vec!["ball", "class_1", "class_2", "goal"]);
}

#[test]
fn parse_names_dict_string_rejects_oom_index() {
    let input = "{9999999999: 'ball'}";
    assert!(parse_names_dict_string(input).is_none(), "must refuse huge class index");
}

#[test]
fn parse_names_dict_string_rejects_index_at_cap() {
    let input = format!("{{{MAX_CLASS_COUNT}: 'class'}}");
    assert!(parse_names_dict_string(&input).is_none());
}

#[test]
fn parse_names_dict_string_accepts_just_below_cap() {
    let just_below = MAX_CLASS_COUNT - 1;
    let input = format!("{{0: 'a', {just_below}: 'b'}}");
    let labels = parse_names_dict_string(&input).unwrap();
    assert_eq!(labels.len(), MAX_CLASS_COUNT);
    assert_eq!(labels[0], "a");
    assert_eq!(labels[just_below], "b");
}

#[test]
fn parse_names_dict_string_rejects_empty() {
    assert!(parse_names_dict_string("{}").is_none());
}

#[test]
fn parse_names_dict_string_rejects_non_dict() {
    assert!(parse_names_dict_string("[0: 'x']").is_none());
    assert!(parse_names_dict_string("random garbage").is_none());
}

#[test]
fn labels_may_be_quoted_either_way_or_not_at_all() {
    let labels = __fuzz_parse_names_dict_string("  {1: \"goal\", 0 : ball, x: 'y'} ").unwrap();
    assert_eq!(labels, vec!["ball", "goal"]);
}

fn tensor(shape: &[i64]) -> ValueShape {
    ValueShape::Tensor(shape.to_vec())
}

#[test]
fn transformers_are_told_by_their_outputs() {
    assert!(is_rf_detr_output_shape(&vec![tensor(&[1, 300, 4]), tensor(&[1, 300, 2])]));
    assert!(!is_rf_detr_output_shape(&vec![tensor(&[1, 300, 4]), tensor(&[1, 300, 6])]));
    assert!(!is_rf_detr_output_shape(&vec![tensor(&[1, 300, 6])]));
    assert!(!is_rf_detr_output_shape(&vec![tensor(&[1, 300, 4]), ValueShape::Other]));
    assert!(!is_rf_detr_output_shape(&vec![tensor(&[]), tensor(&[2])]));
    assert!(!is_rf_detr_output_shape(&vec![]));
}

fn facts(shape: ValueShape, names: Option<&str>) -> Result<ModelFacts, String> {
    Ok(ModelFacts { inputs: vec![shape], names: names.map(|s| s.to_string()) })
}

#[test]
fn a_model_tells_its_size_and_labels() {
    let m = create_ort_session(
        Ok(()),
        facts(tensor(&[1, 3, 640, 640]), Some("{0: 'ball', 1: 'person'}")),
        vec![],
    );
    let m = m.ok().unwrap();
    assert_eq!(m.input_size, 640);
    assert_eq!(m.labels, vec!["ball", "person"]);
}

#[test]
fn a_model_that_tells_nothing_has_defaults() {
    let m = create_ort_session(Ok(()), facts(tensor(&[1, 3, -1, -1]), None), vec![]).ok().unwrap();
    assert_eq!(m.input_size, 1280);
    assert_eq!(m.labels, vec!["ball"]);
    let m = create_ort_session(Ok(()), facts(ValueShape::Other, Some("none")), vec![]).ok().unwrap();
    assert_eq!(m.input_size, 1280);
    assert_eq!(m.labels, vec!["ball"]);
    let given = vec!["mine".to_string()];
    let m = create_ort_session(Ok(()), facts(ValueShape::Other, Some("{0: 'x'}")), given);
    assert_eq!(m.ok().unwrap().labels, vec!["mine"]);
}

#[test]
fn create_ort_session_nonexistent_model_returns_error() {
    let refused = Err("/tmp/this_model_does_not_exist_12345.onnx".to_string());
    let result = create_ort_session(Ok(()), refused, Vec::new());
    assert!(matches!(result, Err(SessionError::Ort(_))));
    let result = create_ort_session(Err("no library".to_string()), facts(ValueShape::Other, None), vec![]);
    match result {
        Err(SessionError::RuntimeUnavailable(why)) => assert_eq!(why, "no library"),
        _ => panic!("the runtime cannot be used"),
    }
}

#[test]
fn the_runtime_says_why_it_cannot_be_used() {
    assert!(ort_runtime_available(Ok(()), RuntimeStart::Ready).is_ok());
    assert_eq!(
        ort_runtime_available(Ok(()), RuntimeStart::Failed("x".to_string())),
        Err("ONNX Runtime init failed: x".to_string())
    );
    assert_eq!(
        ort_runtime_available(Ok(()), RuntimeStart::Panicked),
        Err("ONNX Runtime initialization panicked".to_string())
    );
    assert_eq!(
        ort_runtime_available(Err("gone".to_string()), RuntimeStart::Ready),
        Err("gone".to_string())
    );
}

#[test]
fn versions_are_compared_by_their_second_number() {
    assert_eq!(minor_version("1.22.0"), 22);
    assert_eq!(minor_version("1.22"), 22);
    assert_eq!(minor_version("1"), 0);
    assert_eq!(minor_version("1.x.3"), 0);
    assert_eq!(minor_version(""), 0);
    assert!(probe_ort_dylib("lib.so", "1.22.1", 22).is_ok());
    assert_eq!(
        probe_ort_dylib("lib.so", "1.21.1", 22),
        Err("ONNX Runtime at `lib.so` is version 1.21.1; ort needs >= 1.22".to_string())
    );
}

#[test]
fn the_library_is_looked_for_where_it_is_asked() {
    assert_eq!(dylib_name(Some("mine.so"), "libonnxruntime.so"), "mine.so");
    assert_eq!(dylib_name(Some(""), "libonnxruntime.so"), "libonnxruntime.so");
    assert_eq!(dylib_name(None, "libonnxruntime.so"), "libonnxruntime.so");
    assert_eq!(dylib_place(false, true), DylibPlace::BesideProgram);
    assert_eq!(dylib_place(true, true), DylibPlace::AsNamed);
    assert_eq!(dylib_place(false, false), DylibPlace::AsNamed);
}

#[test]
fn hardware_is_tried_in_order() {
    let all = Providers { tensorrt: true, cuda: true, coreml: true, windows: true };
    assert_eq!(
        all.in_order(),
        vec![Provider::TensorRt, Provider::Cuda, Provider::CoreMl, Provider::DirectMl]
    );
    let some = Providers { tensorrt: false, cuda: true, coreml: false, windows: true };
    assert_eq!(some.in_order(), vec![Provider::Cuda, Provider::DirectMl]);
}

#[test]
fn ort_gate_returns_same_verdict_on_repeat_calls() {
    let mut gate = RuntimeGate::new();
    assert!(gate.verdict().is_none());
    gate.settle(Err("gone".to_string()), RuntimeStart::Ready);
    let first = gate.verdict().cloned().unwrap();
    gate.settle(Ok(()), RuntimeStart::Ready);
    let second = gate.verdict().cloned().unwrap();
    assert_eq!(first.is_ok(), second.is_ok());
    assert_eq!(first, Err("gone".to_string()));
}
