use osf_ort::ieee::single;
use osf_ort::ieee::single::Single;
use osf_ort::{center_2x, AdaptiveCfg, AdaptiveState, DetWindow, FAST_LM};

fn s(x: f32) -> Single {
    single::of(x.to_bits())
}

fn f(x: Single) -> f32 {
    f32::from_bits(x.bits)
}

fn face_on_224(face_h: f32, frame_h: u32) -> f32 {
    f(osf_ort::face_on_224(s(face_h), frame_h))
}

fn det_window(w: u32, h: u32, last: Option<&[f32; 5]>, c: &AdaptiveCfg) -> DetWindow {
    let b = last.map(|b| b.map(s));
    osf_ort::det_window(w, h, b.as_ref(), c)
}

fn pick_lm(st: &mut AdaptiveState, face_h: f32, c: &AdaptiveCfg) -> i32 {
    osf_ort::pick_lm(st, s(face_h), c)
}

fn nme(pred: &[[f32; 3]], gt: &[[f32; 3]]) -> Option<f32> {
    let p: Vec<[Single; 3]> = pred.iter().map(|p| p.map(s)).collect();
    let g: Vec<[Single; 3]> = gt.iter().map(|p| p.map(s)).collect();
    osf_ort::nme(&p, &g).map(f)
}


fn cfg() -> AdaptiveCfg {
    AdaptiveCfg::default()
}

#[test]
fn face_on_224_scales_with_frame() {
    assert!((face_on_224(216.0, 1080) - 44.8).abs() < 1e-3);
    assert!((face_on_224(224.0, 224) - 224.0).abs() < 1e-3);
}

#[test]
fn det_window_full_without_box_or_when_large() {
    let c = AdaptiveCfg {
        det_zoom_below: s(48.0),
        ..cfg()
    };
    assert_eq!(det_window(1280, 720, None, &c), DetWindow::Full);
    let large = [400.0, 100.0, 300.0, 400.0, 1.0];
    assert_eq!(det_window(1280, 720, Some(&large), &c), DetWindow::Full);
}

#[test]
fn det_window_centers_roi_on_small_face() {
    let c = AdaptiveCfg {
        det_zoom_below: s(80.0),
        det_target_frac: s(0.40),
        ..cfg()
    };
    let b = [540.0, 300.0, 160.0, 160.0, 1.0];
    let DetWindow::Roi { x1, y1, x2, y2 } = det_window(1280, 720, Some(&b), &c) else {
        panic!("expected ROI");
    };
    assert!(((x2 - x1) as f32 - 160.0 / 0.40).abs() < 2.0);
    assert!(((x1 + x2) as f32 * 0.5 - 620.0).abs() < 2.0);
    assert!(((y1 + y2) as f32 * 0.5 - 380.0).abs() < 2.0);
}

#[test]
fn det_window_clamps_at_edge() {
    let c = AdaptiveCfg {
        det_zoom_below: s(80.0),
        det_target_frac: s(0.40),
        ..cfg()
    };
    let b = [0.0, 200.0, 80.0, 80.0, 1.0];
    let DetWindow::Roi { x1, y1, x2, y2 } = det_window(1280, 720, Some(&b), &c) else {
        panic!("expected ROI");
    };
    assert_eq!(x1, 0);
    assert!(y1 >= 0 && y2 <= 720 && x2 > x1);
}

#[test]
fn apply_offset_maps_roi_box_to_image() {
    let w = DetWindow::Roi {
        x1: 100,
        y1: 50,
        x2: 300,
        y2: 250,
    };
    let mut dets = [[10.0, 20.0, 40.0, 40.0, 0.9].map(s)];
    w.apply_offset(&mut dets);
    assert!((f(dets[0][0]) - 110.0).abs() < 1e-5);
    assert!((f(dets[0][1]) - 70.0).abs() < 1e-5);
}

#[test]
fn hysteresis_does_not_chatter_near_threshold() {
    let c = AdaptiveCfg {
        ceiling: 3,
        t_fast_px: s(280.0),
        hyst_px: s(24.0),
        ema_alpha: s(1.0),
        ..cfg()
    };
    let mut s = AdaptiveState::new(c);
    assert_eq!(pick_lm(&mut s, 280.0, &c), 3);
    assert_eq!(pick_lm(&mut s, 305.0, &c), FAST_LM);
    assert_eq!(pick_lm(&mut s, 280.0, &c), FAST_LM);
    assert_eq!(pick_lm(&mut s, 255.0, &c), 3);
}

#[test]
fn pick_lm_stays_on_ceiling_when_already_fast_model() {
    let c = AdaptiveCfg {
        ceiling: -2,
        t_fast_px: s(10.0),
        hyst_px: s(1.0),
        ema_alpha: s(1.0),
        ..cfg()
    };
    let mut s = AdaptiveState::new(c);
    assert_eq!(pick_lm(&mut s, 400.0, &c), -2);
}

#[test]
fn nme_is_normalized_by_iod() {
    let mut gt = vec![[0.0, 0.0, 1.0]; 66];
    gt[36] = [10.0, 0.0, 1.0];
    gt[45] = [10.0, 100.0, 1.0];
    let mut pred = gt.clone();
    for p in &mut pred {
        p[1] += 2.0;
    }
    assert!((nme(&pred, &gt).unwrap() - 0.02).abs() < 1e-5);
}

#[test]
fn middle_window_is_half_the_frame() {
    assert_eq!(
        center_2x(1280, 720),
        DetWindow::Roi {
            x1: 320,
            y1: 180,
            x2: 960,
            y2: 540
        }
    );
}

#[test]
fn full_window_moves_nothing() {
    let mut dets = [[10.0, 20.0, 40.0, 40.0, 0.9].map(s)];
    DetWindow::Full.apply_offset(&mut dets);
    assert_eq!(dets[0].map(f), [10.0, 20.0, 40.0, 40.0, 0.9]);
}

#[test]
fn error_needs_enough_landmarks_and_open_eyes() {
    let few = vec![[0.0, 0.0, 1.0]; 45];
    assert!(nme(&few, &few).is_none());
    let flat = vec![[0.0, 0.0, 1.0]; 66];
    assert!(nme(&flat, &flat).is_none());
}
