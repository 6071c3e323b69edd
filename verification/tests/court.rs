use reco::calibrate_mono::{
    check_point_count, error_is_high, frame_at, generate_request, generate_url, labels_json, list_labels,
    match_clicked_to_known, picture_uri, point_source, prompt_for, read_typed_line, replace_all,
    uri_of, write_editor_html, yuv420p_to_png, yuv420p_to_rgb, ClickedPoint, EditorError,
    PointSource, TypedLine,
};
use reco::court_points::{
    center_circle_points, default_points, end_points, three_point_arc_points, BASKET_OFFSET,
    CENTER_CIRCLE_R, HALF_LENGTH, HALF_WIDTH, THREE_POINT_R,
};
use reco::double::F64;

fn d(x: f64) -> F64 {
    F64::from_bits(x.to_bits())
}

fn e(x: F64) -> f64 {
    f64::from_bits(x.to_bits())
}

#[test]
fn default_points_are_within_court_bounds() {
    for p in default_points() {
        assert!(
            e(p.x_m).abs() <= f64::from_bits(HALF_WIDTH) + 1e-9,
            "{}: x={} exceeds half-width",
            p.label,
            e(p.x_m)
        );
        assert!(
            e(p.y_m).abs() <= f64::from_bits(HALF_LENGTH) + 1e-9,
            "{}: y={} exceeds half-length",
            p.label,
            e(p.y_m)
        );
    }
}

#[test]
fn default_points_has_no_duplicate_labels() {
    let points = default_points();
    let mut labels: Vec<&str> = points.iter().map(|p| p.label).collect();
    labels.sort_unstable();
    let mut deduped = labels.clone();
    deduped.dedup();
    assert_eq!(labels.len(), deduped.len(), "duplicate labels in default_points()");
}

#[test]
fn default_points_count_is_reasonable() {
    let count = default_points().len();
    assert!((25..=35).contains(&count), "expected ~25-35 points, got {count}");
    assert_eq!(count, 30);
}

#[test]
fn center_circle_points_are_at_correct_radius() {
    let radius = f64::from_bits(CENTER_CIRCLE_R);
    for p in center_circle_points() {
        let r = (e(p.x_m) * e(p.x_m) + e(p.y_m) * e(p.y_m)).sqrt();
        assert!((r - radius).abs() < 1e-9, "{}: radius {r} != {radius}", p.label);
    }
}

#[test]
fn three_point_arc_points_are_at_correct_radius_from_basket() {
    let radius = f64::from_bits(THREE_POINT_R);
    let basket_far = (0.0, f64::from_bits(HALF_LENGTH) - f64::from_bits(BASKET_OFFSET));
    for p in three_point_arc_points(true) {
        let dx = e(p.x_m) - basket_far.0;
        let dy = e(p.y_m) - basket_far.1;
        let r = (dx * dx + dy * dy).sqrt();
        assert!((r - radius).abs() < 1e-6, "{}: radius from basket {r} != {radius}", p.label);
    }
}

#[test]
fn marks_lie_where_their_angles_say() {
    for (i, p) in center_circle_points().iter().enumerate() {
        let angle = (i as f64 * 45.0).to_radians();
        assert!((e(p.x_m) - 1.8 * angle.cos()).abs() < 1e-12);
        assert!((e(p.y_m) - 1.8 * angle.sin()).abs() < 1e-12);
        assert_eq!(p.label, format!("center-circle-{}", i * 45));
    }
    let far = end_points(true);
    let near = end_points(false);
    assert_eq!(far.len(), 7);
    for (a, b) in far.iter().zip(near.iter()) {
        assert_eq!(e(a.y_m), -e(b.y_m));
        assert_eq!(a.label.replace("far", "near"), b.label);
    }
}

#[test]
fn frames_are_found_by_time() {
    assert_eq!(frame_at(d(2.0), d(29.97)), 60);
    assert_eq!(frame_at(d(0.5), d(1.0)), 1);
    assert_eq!(frame_at(d(-3.0), d(30.0)), 0);
    assert_eq!(frame_at(d(f64::NAN), d(30.0)), 0);
    assert_eq!(frame_at(d(f64::INFINITY), d(30.0)), u64::MAX);
}

#[test]
fn points_come_from_a_file_a_model_or_the_user() {
    assert!(matches!(point_source(Some("p.json"), Some("m")), PointSource::File("p.json")));
    assert!(matches!(point_source(None, Some("m")), PointSource::Model("m")));
    assert!(matches!(point_source(None, None), PointSource::Browser));
}

#[test]
fn eight_points_are_needed() {
    assert!(check_point_count(8).is_ok());
    assert_eq!(
        check_point_count(7),
        Err("only 7 points available - need at least 8 for a stable solve (9 unknowns)".to_string())
    );
}

#[test]
fn errors_above_fifteen_pixels_are_high() {
    assert!(error_is_high(d(15.1)));
    assert!(!error_is_high(d(15.0)));
    assert!(!error_is_high(d(f64::NAN)));
}

fn click(label: &str, x: f64, y: f64) -> ClickedPoint {
    ClickedPoint { label: label.to_string(), x: d(x), y: d(y) }
}

#[test]
fn clicks_are_matched_by_label() {
    let known = default_points();
    let clicked =
        vec![click("halfway-right", 0.1, 0.2), click("nowhere", 0.3, 0.4), click("far-basket", 0.5, 0.6)];
    let found = match_clicked_to_known(&clicked, &known).unwrap();
    assert_eq!(found.len(), 2);
    assert_eq!(found[0].court_point.label, "halfway-right");
    assert_eq!(found[0].pixel, [d(0.1), d(0.2)]);
    assert_eq!(found[1].court_point.label, "far-basket");
    assert_eq!(
        match_clicked_to_known(&vec![click("nowhere", 0.0, 0.0)], &known).err(),
        Some("no clicked points matched known labels".to_string())
    );
}

#[test]
fn typed_lines_are_json_or_a_path() {
    assert!(matches!(read_typed_line(0, ""), TypedLine::Closed));
    assert!(matches!(read_typed_line(1, "\n"), TypedLine::Empty));
    match read_typed_line(9, "  {\"a\": 1}\n") {
        TypedLine::Json(s) => assert_eq!(s, "{\"a\": 1}"),
        other => panic!("{other:?}"),
    }
    match read_typed_line(9, " points.json \n") {
        TypedLine::Path(s) => assert_eq!(s, "points.json"),
        other => panic!("{other:?}"),
    }
}

#[test]
fn endpoints_may_end_in_slashes() {
    assert_eq!(generate_url("http://localhost:11434"), "http://localhost:11434/api/generate");
    assert_eq!(generate_url("http://localhost:11434//"), "http://localhost:11434/api/generate");
    assert_eq!(generate_url(""), "/api/generate");
}

#[test]
fn the_question_names_every_mark() {
    let points = default_points();
    let list = list_labels(&points);
    assert!(list.starts_with("halfway-left, halfway-right, "));
    assert_eq!(list.split(", ").count(), 30);
    let prompt = prompt_for(&points);
    assert!(prompt.contains(&format!("Labels to locate: {list}\n\nRespond with ONLY")));
    assert_eq!(list_labels(&vec![]), "");
}

#[test]
fn a_model_is_asked_about_one_picture() {
    let points = default_points();
    let asked = generate_request(&vec![0x4D, 0x61], &points, "qwen");
    assert_eq!(asked.model, "qwen");
    assert_eq!(asked.prompt, prompt_for(&points));
    assert_eq!(asked.images, ["TWE="]);
    assert_eq!((asked.format, asked.stream), ("json", false));
}

#[test]
fn a_picture_becomes_an_address() {
    let png = vec![0x4D, 0x61, 0x6E, 0xFF];
    assert_eq!(picture_uri(&png), "data:image/png;base64,TWFu/w==");
    assert_eq!(uri_of(&"abc".to_string()), "data:image/png;base64,abc");
}

#[test]
fn labels_become_a_list() {
    let two = default_points()[0..2].to_vec();
    match labels_json(&two) {
        Ok(s) => assert_eq!(s, "[\"halfway-left\",\"halfway-right\"]"),
        Err(EditorError::Json(e)) => panic!("{e}"),
        Err(EditorError::Png(e)) => panic!("{e}"),
    }
}

#[test]
fn every_occurrence_is_replaced_from_the_left() {
    for (text, pattern, with) in
        [("aXbXc", "X", "yy"), ("aaaa", "aa", "b"), ("aaa", "aa", "b"), ("abc", "x", "y"), ("", "x", "y")]
    {
        assert_eq!(replace_all(text, pattern, with), text.replace(pattern, with));
    }
}

#[test]
fn the_page_is_filled_in() {
    let template =
        "<img src={{IMAGE_DATA}} w={{IMAGE_WIDTH}} h={{IMAGE_HEIGHT}}> {{POINT_LABELS_JSON}}";
    let page = write_editor_html(template, "uri", 1920, 1080, "[\"a\"]");
    assert_eq!(page, "<img src=uri w=1920 h=1080> [\"a\"]");
}

#[test]
fn colours_follow_the_matrix() {
    let y: Vec<u8> = vec![16, 235, 126, 81, 145, 41];
    let u: Vec<u8> = vec![128, 90];
    let v: Vec<u8> = vec![128, 240];
    let rgb = yuv420p_to_rgb(&y, &u, &v, 3, 2);
    assert_eq!(&rgb[0..6], &[0, 0, 0, 255, 255, 255]);
    for row in 0..2usize {
        for col in 0..3usize {
            let c = (row / 2) * 2 + col / 2;
            let yy = (y[row * 3 + col] as f64 - 16.0) * (255.0 / 219.0);
            let cb = (u[c] as f64 - 128.0) * (255.0 / 224.0);
            let cc = (v[c] as f64 - 128.0) * (255.0 / 224.0);
            let r = yy + 1.5748 * cc;
            let g = yy - 0.1873 * cb - 0.4681 * cc;
            let b = yy + 1.8556 * cb;
            let at = (row * 3 + col) * 3;
            assert_eq!(rgb[at], r.clamp(0.0, 255.0) as u8);
            assert_eq!(rgb[at + 1], g.clamp(0.0, 255.0) as u8);
            assert_eq!(rgb[at + 2], b.clamp(0.0, 255.0) as u8);
        }
    }
}

#[test]
fn a_frame_becomes_a_png() {
    let y: Vec<u8> = vec![16, 235, 126, 81];
    let (u, v): (Vec<u8>, Vec<u8>) = (vec![128], vec![128]);
    let png = match yuv420p_to_png(&y, &u, &v, 2, 2) {
        Ok(png) => png,
        Err(_) => panic!("a small frame can be written"),
    };
    assert_eq!(&png[0..8], &[0x89, 0x50, 0x4E, 0x47, 0x0D, 0x0A, 0x1A, 0x0A]);
    let back = image::load_from_memory(&png).unwrap().to_rgb8();
    assert_eq!(back.dimensions(), (2, 2));
    assert_eq!(back.into_raw(), yuv420p_to_rgb(&y, &u, &v, 2, 2));
    assert!(matches!(yuv420p_to_png(&vec![], &vec![], &vec![], 0, 2), Err(EditorError::Png(_))));
}
