use reco::cpu_detectors::{
    check_fit, decoder_for, letterbox, letterbox_params, CpuDetrDetector, CpuYoloDetector, Decoder,
    DetectorError, DetectorFrame, Picture,
};
use reco::ort_session::{LoadedModel, SessionError};
use reco::single::F32;

fn f(x: f32) -> F32 {
    F32::from_bits(x.to_bits())
}

fn g(x: F32) -> f32 {
    f32::from_bits(x.to_bits())
}

fn model(size: u32) -> Result<LoadedModel, SessionError> {
    Ok(LoadedModel { input_size: size, labels: vec!["ball".to_string()] })
}

fn yolo(size: u32) -> CpuYoloDetector {
    match CpuYoloDetector::from_file(model(size)) {
        Ok(d) => d,
        Err(e) => panic!("{e:?}"),
    }
}

fn detr(size: u32) -> CpuDetrDetector {
    match CpuDetrDetector::with_config(model(size), f(0.5)) {
        Ok(d) => d,
        Err(e) => panic!("{e:?}"),
    }
}

/// A picture whose colours tell where they are.
fn picture(width: u32, height: u32) -> Picture {
    let mut rgb = Vec::new();
    for y in 0..height {
        for x in 0..width {
            rgb.push([f(x as f32 * 3.0), f(y as f32 * 5.0), f((x * y) as f32)]);
        }
    }
    Picture { width, height, rgb }
}

fn lerp(fx: f32, fy: f32, a: f32, b: f32, c: f32, d: f32) -> f32 {
    a * (1.0 - fx) * (1.0 - fy) + b * fx * (1.0 - fy) + c * (1.0 - fx) * fy + d * fx * fy
}

fn shade(p: &Picture, x: u32, y: u32, c: usize) -> f32 {
    g(p.rgb[(y * p.width + x) as usize][c])
}

#[test]
fn frames_are_fitted_with_grey_bars() {
    for (w, h, size) in [(16u32, 8u32, 8u32), (7, 13, 10), (3, 3, 9), (20, 10, 7)] {
        assert!(check_fit(w, h, size));
        let p = picture(w, h);
        let mut det = yolo(size);
        let (scale, pad_x, pad_y) = det.preprocess(&p);

        let is = size as f32;
        let s = (is / w as f32).min(is / h as f32);
        let new_w = (w as f32 * s).round() as u32;
        let new_h = (h as f32 * s).round() as u32;
        let px = (size - new_w) as f32 / 2.0;
        let py = (size - new_h) as f32 / 2.0;
        assert_eq!((g(scale), g(pad_x), g(pad_y)), (s, px, py));

        let sz = size as usize;
        let mut want = vec![114.0 / 255.0_f32; 3 * sz * sz];
        for dy in 0..new_h {
            for dx in 0..new_w {
                let (sx, sy) = (dx as f32 / s, dy as f32 / s);
                let x0 = (sx.floor() as u32).min(w - 1);
                let y0 = (sy.floor() as u32).min(h - 1);
                let (x1, y1) = ((x0 + 1).min(w - 1), (y0 + 1).min(h - 1));
                let (fx, fy) = (sx - sx.floor(), sy - sy.floor());
                for c in 0..3 {
                    let v = lerp(
                        fx,
                        fy,
                        shade(&p, x0, y0, c),
                        shade(&p, x1, y0, c),
                        shade(&p, x0, y1, c),
                        shade(&p, x1, y1, c),
                    );
                    let o = (py as u32 + dy) as usize * sz + (px as u32 + dx) as usize;
                    want[c * sz * sz + o] = v / 255.0;
                }
            }
        }
        let got: Vec<f32> = det.rgb_chw_buf.iter().map(|v| g(*v)).collect();
        assert_eq!(got, want, "{w}x{h} into {size}");
    }
}

#[test]
fn frames_are_stretched_for_transformers() {
    const MEAN: [f32; 3] = [0.485, 0.456, 0.406];
    const STD: [f32; 3] = [0.229, 0.224, 0.225];
    for (w, h, size) in [(16u32, 8u32, 8u32), (5, 7, 9)] {
        let p = picture(w, h);
        let mut det = detr(size);
        det.preprocess(&p);
        let sz = size as usize;
        let (xs, ys) = (w as f32 / sz as f32, h as f32 / sz as f32);
        let mut want = vec![0.0_f32; 3 * sz * sz];
        for dy in 0..size {
            for dx in 0..size {
                let sx = (dx as f32 + 0.5) * xs - 0.5;
                let sy = (dy as f32 + 0.5) * ys - 0.5;
                let x0 = (sx.floor().max(0.0) as u32).min(w - 1);
                let y0 = (sy.floor().max(0.0) as u32).min(h - 1);
                let (x1, y1) = ((x0 + 1).min(w - 1), (y0 + 1).min(h - 1));
                let fx = (sx - sx.floor()).clamp(0.0, 1.0);
                let fy = (sy - sy.floor()).clamp(0.0, 1.0);
                for c in 0..3 {
                    let v = lerp(
                        fx,
                        fy,
                        shade(&p, x0, y0, c),
                        shade(&p, x1, y0, c),
                        shade(&p, x0, y1, c),
                        shade(&p, x1, y1, c),
                    );
                    let o = dy as usize * sz + dx as usize;
                    want[c * sz * sz + o] = (v / 255.0 - MEAN[c]) / STD[c];
                }
            }
        }
        let got: Vec<f32> = det.rgb_chw_buf.iter().map(|v| g(*v)).collect();
        assert_eq!(got, want, "{w}x{h} to {size}");
    }
}

#[test]
fn ordinary_frames_fit() {
    for (w, h) in [(1920, 1080), (3840, 2160), (1080, 1920), (1, 8192), (8191, 8192)] {
        for size in [1, 320, 512, 640, 1280, 4096] {
            assert!(check_fit(w, h, size), "{w}x{h} into {size}");
        }
    }
    let b = letterbox(1920, 1080, 640);
    assert_eq!((b.width, b.height), (640, 360));
    assert_eq!((g(b.pad_x), g(b.pad_y)), (0.0, 140.0));
    let e = letterbox_params(1920, 1080, 640);
    assert_eq!((e.0, e.1, e.2), (b.scale, b.pad_x, b.pad_y));
}

#[test]
fn detectors_keep_what_they_were_given() {
    let d = yolo(4);
    assert_eq!((d.input_size(), g(d.confidence_threshold)), (4, 0.10));
    assert_eq!(d.class_names(), &vec!["ball".to_string()]);
    assert_eq!(d.name(), "ort-cpu");
    assert_eq!(d.rgb_chw_buf, vec![f(114.0 / 255.0); 48]);
    let t = detr(4);
    assert_eq!((t.input_size(), g(t.confidence_threshold)), (4, 0.5));
    assert_eq!(t.class_names(), &vec!["ball".to_string()]);
    assert_eq!(t.name(), "ort-cpu-detr");
    let named = LoadedModel { input_size: 4, labels: vec!["person".to_string()] };
    let t = CpuDetrDetector::with_config(Ok(named), f(0.5)).unwrap();
    assert_eq!(t.class_names(), &vec!["ball".to_string()]);
    assert_eq!(t.rgb_chw_buf, vec![f(0.0); 48]);
    let refused = CpuYoloDetector::from_file(Err(SessionError::Ort("no".to_string())));
    assert!(matches!(refused, Err(SessionError::Ort(_))));
    let refused = CpuDetrDetector::with_config(Err(SessionError::Ort("no".to_string())), f(0.1));
    assert!(matches!(refused, Err(SessionError::Ort(_))));
}

fn prepared(len: usize) -> DetectorFrame {
    DetectorFrame::PreprocessedChw {
        data: vec![f(0.0); len],
        input_size: 4,
        src_width: 8,
        src_height: 4,
    }
}

#[test]
fn prepared_frames_must_have_the_right_length() {
    let mut d = yolo(4);
    let u = d.prepare(&prepared(48)).unwrap();
    assert_eq!((g(u.scale), g(u.pad_x), g(u.pad_y)), (0.5, 0.0, 1.0));
    assert_eq!((u.src_width, u.src_height), (8, 4));
    match d.prepare(&prepared(47)) {
        Err(DetectorError::InferenceFailed(e)) => {
            assert_eq!(e, "PreprocessedChw: expected 48 floats, got 47");
        }
        other => panic!("{other:?}"),
    }
    let mut t = detr(4);
    assert!(t.prepare(&prepared(48)).is_ok());
    assert!(matches!(t.prepare(&prepared(49)), Err(DetectorError::InferenceFailed(_))));
}

#[test]
fn frames_elsewhere_are_not_looked_at() {
    let mut d = yolo(4);
    assert!(matches!(d.prepare(&DetectorFrame::Elsewhere), Err(DetectorError::UnsupportedFrameKind)));
    let mut t = detr(4);
    assert!(matches!(t.prepare(&DetectorFrame::Elsewhere), Err(DetectorError::UnsupportedFrameKind)));
    let u = d.prepare(&DetectorFrame::Cpu(picture(8, 4))).unwrap();
    assert_eq!((u.src_width, u.src_height, g(u.scale)), (8, 4, 0.5));
    assert!(t.prepare(&DetectorFrame::Cpu(picture(8, 4))).is_ok());
}

#[test]
fn several_outputs_are_raw_boxes() {
    assert_eq!(decoder_for(1), Decoder::EndToEnd);
    assert_eq!(decoder_for(3), Decoder::RawBoxes);
}
