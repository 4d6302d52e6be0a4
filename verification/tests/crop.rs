use osf_ort::crop::{template_xy as template_words, EYES_NOSE};
use osf_ort::ieee::single;
use osf_ort::ieee::single::Single;
use osf_ort::{CropSmoothState, CropTrack};

fn s(x: f32) -> Single {
    single::of(x.to_bits())
}

fn f(x: Single) -> f32 {
    f32::from_bits(x.bits)
}

fn words(pts: &[[f32; 3]]) -> Vec<[Single; 3]> {
    pts.iter().map(|p| p.map(s)).collect()
}

fn template_xy(i: usize) -> Option<[f32; 2]> {
    template_words(i).map(|t| t.map(f))
}

fn landmark_bbox(pts: &[[f32; 3]]) -> Option<[f32; 5]> {
    osf_ort::landmark_bbox(&words(pts)).map(|b| b.map(f))
}

fn stable_landmark_bbox(pts: &[[f32; 3]], st: Option<&mut CropSmoothState>) -> Option<[f32; 5]> {
    match st {
        None => osf_ort::stable_landmark_bbox(&words(pts), None).0.map(|b| b.map(f)),
        Some(st) => {
            let (b, next) = osf_ort::stable_landmark_bbox(&words(pts), Some(*st));
            *st = next.unwrap();
            b.map(|b| b.map(f))
        }
    }
}


fn synth_pts(scale: f32, tx: f32, ty: f32) -> Vec<[f32; 3]> {
    (0..66)
        .map(|i| {
            let t = template_xy(i).unwrap_or([0.0, 0.0]);
            let col = scale * t[0] + tx;
            let row = scale * t[1] + ty;
            [row, col, 1.0]
        })
        .collect()
}

#[test]
fn stable_box_matches_hull_on_template_fit() {
    let pts = synth_pts(120.0, 400.0, 300.0);
    let hull = landmark_bbox(&pts).unwrap();
    let stable = stable_landmark_bbox(&pts, None).unwrap();
    for i in 0..4 {
        assert!(
            (hull[i] - stable[i]).abs() < 2.0,
            "i={i} hull={hull:?} stable={stable:?}"
        );
    }
    assert!(stable[2] + 1e-3 >= hull[2]);
}

#[test]
fn stable_box_is_image_xywh() {
    let pts = synth_pts(80.0, 200.0, 150.0);
    let b = stable_landmark_bbox(&pts, None).unwrap();
    let mm = landmark_bbox(&pts).unwrap();
    let cx_b = b[0] + b[2] * 0.5;
    let cx_m = mm[0] + mm[2] * 0.5;
    assert!((cx_b - cx_m).abs() < 2.0, "x {} vs {}", cx_b, cx_m);
    let cy_b = b[1] + b[3] * 0.5;
    let cy_m = mm[1] + mm[3] * 0.5;
    assert!((cy_b - cy_m).abs() < 2.0, "y {} vs {}", cy_b, cy_m);
}

#[test]
fn rotation_keeps_center_and_does_not_shrink() {
    let base = synth_pts(100.0, 320.0, 240.0);
    let mut st = CropSmoothState::default();
    let b0 = stable_landmark_bbox(&base, Some(&mut st)).unwrap();
    let (c, s) = (0.3f32.cos(), 0.3f32.sin());
    let mut rot = base.clone();
    for p in &mut rot {
        let x = p[1] - 320.0;
        let y = p[0] - 240.0;
        p[1] = 320.0 + c * x - s * y;
        p[0] = 240.0 + s * x + c * y;
    }
    let b1 = stable_landmark_bbox(&rot, Some(&mut st)).unwrap();
    let c0x = b0[0] + b0[2] * 0.5;
    let c0y = b0[1] + b0[3] * 0.5;
    let c1x = b1[0] + b1[2] * 0.5;
    let c1y = b1[1] + b1[3] * 0.5;
    assert!((c1x - c0x).hypot(c1y - c0y) < 20.0);
    assert!(b1[2] + 1e-3 >= b0[2]);
    assert!(b1[3] + 1e-3 >= b0[3]);
}

#[test]
fn first_frame_size_not_smaller_than_hull() {
    let pts = synth_pts(100.0, 320.0, 240.0);
    let mut st = CropSmoothState::default();
    st.seed_size([300.0, 200.0, 40.0, 40.0].map(s));
    let b = stable_landmark_bbox(&pts, Some(&mut st)).unwrap();
    let mm = landmark_bbox(&pts).unwrap();
    assert!(b[3] + 1e-3 >= mm[3], "h {} vs hull {}", b[3], mm[3]);
}

#[test]
fn ema_damps_jitter() {
    let a = synth_pts(100.0, 320.0, 240.0);
    let mut st = CropSmoothState::default();
    let b0 = stable_landmark_bbox(&a, Some(&mut st)).unwrap();
    let b = synth_pts(100.0, 328.0, 244.0);
    let b1 = stable_landmark_bbox(&b, Some(&mut st)).unwrap();
    let jump = (b1[0] - b0[0]).abs();
    assert!(jump < 8.0 * 0.95, "smoothed dx={jump}");
    assert!(st.ready);
}

#[test]
fn weak_eyes_keep_a_box() {
    let mut pts = synth_pts(90.0, 100.0, 80.0);
    for &i in EYES_NOSE.iter() {
        pts[i][2] = 0.1;
    }
    assert!(stable_landmark_bbox(&pts, None).is_some());
}

#[test]
fn empty_refs_reuse_last_box() {
    let pts = synth_pts(90.0, 100.0, 80.0);
    let mut st = CropSmoothState::default();
    let first = stable_landmark_bbox(&pts, Some(&mut st)).unwrap();
    let dead = vec![[0.0, 0.0, 0.0]; 66];
    let again = stable_landmark_bbox(&dead, Some(&mut st)).unwrap();
    assert!((first[0] - again[0]).abs() < 1e-3);
    assert!((first[2] - again[2]).abs() < 1e-3);
}

#[test]
fn ema_follows_large_jumps() {
    let a = synth_pts(100.0, 320.0, 240.0);
    let mut st = CropSmoothState::default();
    let _ = stable_landmark_bbox(&a, Some(&mut st)).unwrap();
    let b = synth_pts(100.0, 520.0, 240.0);
    let b1 = stable_landmark_bbox(&b, Some(&mut st)).unwrap();
    assert!(
        (b1[0] + b1[2] * 0.5 - 520.0).abs() < 40.0,
        "must follow a large translation, got {:?}",
        b1
    );
}

#[test]
fn track_gives_the_boxes_of_its_state() {
    let a = synth_pts(100.0, 320.0, 240.0);
    let b = synth_pts(100.0, 328.0, 244.0);
    let mut st = CropSmoothState::default();
    let mut track = CropTrack::new();
    for pts in [&a, &b] {
        let want = stable_landmark_bbox(pts, Some(&mut st)).unwrap();
        let got = track.next_box(&words(pts), s(0.5)).unwrap().map(f);
        assert_eq!(&want[..4], &got[..4]);
        assert_eq!(got[4], 0.5);
    }
    assert!(track.state.ready);
    track.reset();
    assert!(!track.state.ready && track.state.last.is_none());
}

#[test]
fn boxes_never_shrink_by_much_jitter() {
    let mut st = CropSmoothState::default();
    let mut last = stable_landmark_bbox(&synth_pts(100.0, 320.0, 240.0), Some(&mut st)).unwrap();
    for scale in [99.0, 95.0, 90.0] {
        let b = stable_landmark_bbox(&synth_pts(scale, 320.0, 240.0), Some(&mut st)).unwrap();
        assert!(b[2] + 1e-3 >= last[2] && b[3] + 1e-3 >= last[3], "{b:?} after {last:?}");
        last = b;
    }
}

#[test]
fn overlap_of_boxes() {
    let a = [0.0, 0.0, 2.0, 2.0].map(s);
    let b = [1.0, 0.0, 2.0, 2.0].map(s);
    assert!((f(osf_ort::crop::xywh_iou(a, b)) - 1.0 / 3.0).abs() < 1e-6);
    assert!((f(osf_ort::crop::xywh_iou(a, a)) - 1.0).abs() < 1e-6);
}

#[test]
fn eye_corners_behind_rims_do_not_count() {
    let pts = synth_pts(100.0, 320.0, 240.0);
    let mut st = CropSmoothState::default();
    let plain = stable_landmark_bbox(&pts, Some(&mut st)).unwrap();
    let mut last = None;
    for off in [16.0, 30.0, 60.0] {
        let mut glasses = pts.clone();
        for i in [36, 39, 42, 45] {
            glasses[i][0] += off;
        }
        let mut st = CropSmoothState::default();
        let b = stable_landmark_bbox(&glasses, Some(&mut st)).unwrap();
        assert!((b[0] + b[2] * 0.5 - plain[0] - plain[2] * 0.5).abs() < 0.05, "{b:?} {plain:?}");
        assert!((b[1] + b[3] * 0.5 - plain[1] - plain[3] * 0.5).abs() < 0.05, "{b:?} {plain:?}");
        assert!((f(st.scale) - 100.0).abs() < 0.05);
        assert_eq!(last.unwrap_or(st.scale), st.scale);
        last = Some(st.scale);
    }
    let mut near = pts.clone();
    for i in [36, 39, 42, 45] {
        near[i][0] += 10.0;
    }
    let b = stable_landmark_bbox(&near, None).unwrap();
    assert!(b[1] + b[3] * 0.5 > plain[1] + plain[3] * 0.5 + 4.0);
}

#[test]
fn a_fit_is_held_without_landmarks() {
    let mut st = CropSmoothState::default();
    stable_landmark_bbox(&synth_pts(93.7, 311.3, 242.9), Some(&mut st)).unwrap();
    let before = st;
    stable_landmark_bbox(&[[0.0; 3]; 66], Some(&mut st)).unwrap();
    for (a, b) in [(st.scale, before.scale), (st.tx, before.tx), (st.ty, before.ty)] {
        assert!(a.bits.abs_diff(b.bits) <= 2);
    }
}

#[test]
fn blank_landmarks_hold_the_box() {
    for (scale, tx, ty) in [(93.7, 211.3, 142.9), (61.2, 33.3, 250.1), (120.9, 255.0, 9.7), (431.7, 1210.3, 1333.9)] {
        let mut st = CropSmoothState::default();
        let a = stable_landmark_bbox(&synth_pts(scale, tx, ty), Some(&mut st)).unwrap();
        let b = stable_landmark_bbox(&[[0.0; 3]; 66], Some(&mut st)).unwrap();
        for i in 0..4 {
            assert!((a[i] - b[i]).abs() < 1e-3, "{a:?} {b:?}");
        }
        assert!(b[2] >= a[2] && b[3] >= a[3]);
    }
}
