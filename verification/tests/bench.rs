use osf_ort::bench::{
    accuracy, face_part, first_window, frac_row, gaze_input, landmark_error, landmark_type, mean_f32,
    mean_opt, remap_stretched_roi, rows_to_teacher, scale_frame, scaled_size, scan_due, score_all,
    score_seq, second_window, shake_angles, strongest, suite_named, sum_up, takes_fast, window_view, Row,
    Times, SCALE_H, SCALE_W,
};
use osf_ort::ieee::double;
use osf_ort::ieee::double::Double;
use osf_ort::ieee::single;
use osf_ort::ieee::single::Single;
use osf_ort::{AdaptiveCfg, AdaptiveState, BgrImage, DetWindow, FAST_LM};

fn d(x: f64) -> Double {
    double::of(x.to_bits())
}

fn g(x: Double) -> f64 {
    f64::from_bits(x.bits)
}

fn s(x: f32) -> Single {
    single::of(x.to_bits())
}

fn f(x: Single) -> f32 {
    f32::from_bits(x.bits)
}

fn times(ms: f64) -> Times {
    Times {
        detect_ms: d(ms / 2.0),
        crop_ms: d(0.5),
        pre_ms: d(0.25),
        lm_ms: d(1.0),
        decode_ms: d(0.0),
        gaze_ms: d(0.0),
        e2e_ms: d(ms),
    }
}

fn points(dx: f32) -> Vec<[Single; 3]> {
    (0..66).map(|i| [s(i as f32), s(i as f32 * 2.0 + dx), s(0.8)]).collect()
}

fn hit(ms: f64, scanned: bool, conf: f32, dx: f32) -> Row {
    let score = if scanned { Some(s(0.9)) } else { None };
    Row::hit(times(ms), scanned, score, s(conf), points(dx), [s(0.0); 5], None, 30, 40)
}

#[test]
fn suites_by_name() {
    let all = suite_named("all");
    assert!(all.micro && all.realistic && !all.scale);
    assert!(suite_named("micro").micro);
    assert!(suite_named("realistic").realistic);
    assert!(suite_named("scale").scale);
    let none = suite_named("Micro");
    assert!(!none.micro && !none.realistic && !none.scale);
}

#[test]
fn rows_of_frames() {
    let m = Row::miss(d(3.0), d(4.0), true, Some(s(0.2)));
    assert_eq!(m.faces, 0);
    assert!(m.box5.is_none() && m.pts.is_empty());
    let h = hit(6.0, false, 0.7, 0.0);
    assert_eq!(h.det_score.map(f), Some(0.7));
    let twelve = [0.8f32; 12].iter().sum::<f32>() / 12.0;
    assert_eq!(h.eye_conf.map(f), Some(twelve));
    assert_eq!(h.box5.unwrap().map(f), [0.0, 0.0, 130.0, 65.0, 0.7]);
    let e = Row::hit(times(1.0), true, None, s(0.5), vec![], [1.0, 2.0, 3.0, 4.0, 9.0].map(s), None, 0, 0);
    assert_eq!(e.box5.unwrap().map(f), [1.0, 2.0, 3.0, 4.0, 0.5]);
    assert!(e.eye_conf.is_none());
}

#[test]
fn scans_come_round() {
    let due: Vec<bool> = (0..5).map(|i| scan_due(true, i, 2)).collect();
    assert_eq!(due, vec![true, false, true, false, true]);
    assert!(scan_due(false, 3, 2));
}

#[test]
fn windows_of_a_scan() {
    let cfg = AdaptiveCfg::default();
    assert_eq!(first_window(1280, 720, None, Some(cfg)), DetWindow::Full);
    let small = [540.0, 300.0, 60.0, 60.0, 1.0].map(s);
    assert_ne!(first_window(1280, 720, Some(small), Some(cfg)), DetWindow::Full);
    assert_eq!(first_window(1280, 720, Some(small), None), DetWindow::Full);
    assert!(second_window(0, true, false, 1280, 720).is_some());
    assert!(second_window(1, true, false, 1280, 720).is_none());
    assert!(second_window(0, true, true, 1280, 720).is_none());
    assert!(second_window(0, false, false, 1280, 720).is_none());
    let frame = BgrImage::zeros(64, 48);
    let view = window_view(&frame, DetWindow::Roi { x1: 4, y1: 4, x2: 20, y2: 16 }).unwrap();
    assert_eq!((view.width, view.height), (16, 12));
    assert!(window_view(&frame, DetWindow::Roi { x1: 4, y1: 4, x2: 10, y2: 16 }).is_none());
    assert!(window_view(&frame, DetWindow::Full).is_none());
}

#[test]
fn stretched_boxes_go_back() {
    let mut v = vec![[64.0, 24.0, 32.0, 12.0, 0.9].map(s)];
    remap_stretched_roi(&mut v, DetWindow::Roi { x1: 10, y1: 20, x2: 42, y2: 44 }, 128, 48);
    assert_eq!(v[0].map(f), [26.0, 32.0, 8.0, 6.0, 0.9]);
    let before = v.clone();
    remap_stretched_roi(&mut v, DetWindow::Full, 128, 48);
    assert_eq!(v[0].map(f), before[0].map(f));
}

#[test]
fn networks_by_height() {
    let cfg = AdaptiveCfg {
        ema_alpha: s(1.0),
        ..AdaptiveCfg::default().with_ceiling(3)
    };
    let st = AdaptiveState::new(cfg);
    assert_eq!(landmark_type(3, false, None, s(900.0)).0, 3);
    assert_eq!(landmark_type(3, true, Some((cfg, st)), s(900.0)).0, 3);
    assert_eq!(landmark_type(3, false, Some((cfg, st)), s(900.0)).0, FAST_LM);
    assert!(takes_fast(FAST_LM, FAST_LM, true));
    assert!(!takes_fast(3, FAST_LM, true) && !takes_fast(FAST_LM, FAST_LM, false));
}

#[test]
fn parts_with_a_face() {
    let frame = BgrImage::zeros(640, 360);
    let p = face_part(&frame, &[100.0, 80.0, 50.0, 40.0, 1.0].map(s), s(0.1), s(0.125), 112).unwrap();
    assert_eq!((p.x1, p.y1, p.x2, p.y2), (95, 76, 155, 126));
    assert_eq!(f(p.crop[2]), 60.0 / 112.0);
    assert!(face_part(&frame, &[100.0, 80.0, 1.0, 40.0, 1.0].map(s), s(0.1), s(0.125), 112).is_none());
}

#[test]
fn eyes_for_the_network() {
    let frame = BgrImage::zeros(200, 200);
    let mut pts = vec![[s(0.0); 3]; 66];
    pts[36] = [50.0, 40.0, 1.0].map(s);
    pts[39] = [50.0, 60.0, 1.0].map(s);
    pts[42] = [50.0, 90.0, 1.0].map(s);
    pts[45] = [50.0, 110.0, 1.0].map(s);
    let t = gaze_input(&frame, &pts).unwrap();
    assert_eq!(t.shape, vec![2, 3, 32, 32]);
    assert_eq!(t.data.len(), 2 * 3 * 32 * 32);
    assert!(gaze_input(&frame, &pts[..45]).is_none());
    pts[45] = [5000.0, 5000.0, 1.0].map(s);
    pts[42] = [5000.0, 5010.0, 1.0].map(s);
    assert!(gaze_input(&frame, &pts).is_none());
    assert_eq!(f(strongest(&[0x3c00, 0x4000, 0xbc00])), 2.0);
    assert_eq!(f(strongest(&[0xbc00])), 0.0);
}

#[test]
fn means() {
    assert_eq!(mean_opt(&[Some(s(1.0)), None, Some(s(2.0))]).map(f), Some(1.5));
    assert!(mean_opt(&[None]).is_none());
    assert!(mean_f32(&[]).is_none());
    assert_eq!(mean_f32(&[s(2.0), s(4.0)]).map(f), Some(3.0));
}

#[test]
fn sums_of_frames() {
    let rows = [hit(8.0, true, 0.5, 0.0), hit(2.0, false, 0.7, 0.0), Row::miss(d(1.0), d(3.0), true, None)];
    let x = sum_up(2, &rows);
    assert_eq!(x.frames, 3);
    assert_eq!(x.e2e_ms.iters, 3);
    assert_eq!(x.detect_ms.iters, 2);
    assert_eq!(g(x.e2e_ms.p50_ms), 3.0);
    assert_eq!(x.scan_p50_ms.map(g), Some(5.5));
    assert_eq!(x.track_p50_ms.map(g), Some(2.0));
    assert_eq!((x.crop_w, x.crop_h, x.faces), (0, 0, 0));
    assert!((f(x.lm_conf.unwrap()) - 0.6).abs() < 1e-6);
    assert!(x.gaze_conf.is_none());
    let none = sum_up(0, &[]);
    assert_eq!(none.frames, 0);
    assert!(none.scan_p50_ms.is_none());
}

#[test]
fn numbers_against_others() {
    let a = accuracy(&[1.0, 2.0, 9.0].map(s), &[1.0, 4.0].map(s));
    assert_eq!(a.compared_elems, 2);
    assert_eq!(f(a.max_abs), 2.0);
    assert_eq!(f(a.mean_abs), 1.0);
    assert_eq!(landmark_error(&points(0.0), &[[s(3.0), s(4.0)]]).map(f), Some(5.0));
    assert!(landmark_error(&[], &[[s(3.0), s(4.0)]]).is_none());
}

#[test]
fn faces_of_several_sizes() {
    assert_eq!(scaled_size(100, 120, s(72.0), s(0.2)), (200, 240));
    assert_eq!(scaled_size(4, 4, s(4000.0), s(0.1)), (8, 8));
    let (a, b) = shake_angles(2);
    assert_eq!((f(a), f(b)), (1.4, 1.0));
    let mut face = BgrImage::zeros(20, 10);
    for v in face.data.iter_mut() {
        *v = 200;
    }
    let im = scale_frame(&face, s(0.0), s(0.0));
    assert_eq!((im.width, im.height), (SCALE_W, SCALE_H));
    assert_eq!(im.get(630, 355), [200; 3]);
    assert_eq!(im.get(649, 364), [200; 3]);
    assert_ne!(im.get(650, 364), [200; 3]);
    let moved = scale_frame(&face, s(1.0), s(-1.0));
    assert_eq!(moved.get(634, 352), [200; 3]);
    assert_ne!(moved.get(633, 352), [200; 3]);
}

#[test]
fn scores_against_a_teacher() {
    let base = vec![hit(4.0, true, 0.9, 0.0), Row::miss(d(1.0), d(2.0), true, None)];
    let teacher = rows_to_teacher(&base);
    assert!(teacher[0].hit && !teacher[1].hit);
    let same = score_seq(&base, &teacher);
    assert_eq!((same.hits, same.frames, same.errors.len()), (1, 2, 1));
    assert_eq!(f(same.errors[0]), 0.0);
    let off = score_seq(&[hit(6.0, true, 0.9, 3.0)], &teacher);
    let e = f(off.errors[0]);
    assert!(e > 0.0);
    let row = frac_row(s(0.1), &same, 4);
    assert_eq!(f(row.recall), 0.25);
    assert_eq!(g(row.e2e_p50_ms), 3.0);
    let all = score_all(&[same, off], &[s(0.5), s(0.14)]);
    assert_eq!((all.hits, all.frames), (2, 3));
    assert!((f(all.nme) - e / 2.0).abs() < 1e-6);
    assert!((f(all.far_nme) - e).abs() < 1e-6);
    assert_eq!(g(all.e2e_p50_ms), 4.0);
}
