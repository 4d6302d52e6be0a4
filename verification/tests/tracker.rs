use osf_ort::ieee::single;
use osf_ort::ieee::single::Single;
use osf_ort::tracker::{
    bonus, match_faces, mean_xy, pick, region, remap_lms, sure, Candidate, FaceInfo, FramePlan,
};
use osf_ort::{FilterCfg, Tracker, TrackerConfig};

fn s(x: f32) -> Single {
    single::of(x.to_bits())
}

fn f(x: Single) -> f32 {
    f32::from_bits(x.bits)
}

fn quiet() -> FramePlan {
    FramePlan {
        retina: false,
        scan_results: false,
        scan_start: false,
        heatmap: false,
        whole_frame: false,
    }
}

fn tracker(max_faces: usize) -> Tracker {
    let cfg = TrackerConfig {
        max_faces,
        ..TrackerConfig::default()
    };
    Tracker::new(&cfg, true).unwrap()
}

fn landmarks(x: f32, y: f32, size: f32) -> Vec<[Single; 3]> {
    (0..66)
        .map(|i| {
            let (a, b) = ((i % 8) as f32 / 7.0, (i / 8) as f32 / 8.0);
            [s(y + size * b), s(x + size * a), s(0.9)]
        })
        .collect()
}

fn candidate(conf: f32, x: f32, y: f32, size: f32, bonus: f32) -> Candidate {
    Candidate {
        conf: s(conf),
        lms: landmarks(x, y, size),
        eyes: osf_ort::tracker::plain_eyes(),
        bonus: s(bonus),
    }
}

#[test]
fn models_have_thresholds() {
    let mut cfg = TrackerConfig::default();
    assert_eq!(f(Tracker::new(&cfg, true).unwrap().threshold), 0.6);
    cfg.model_type = -2;
    assert_eq!(f(Tracker::new(&cfg, true).unwrap().threshold), 0.87);
    cfg.threshold = Some(s(0.3));
    assert_eq!(f(Tracker::new(&cfg, true).unwrap().threshold), 0.3);
    cfg.model_type = -1;
    assert_eq!(Tracker::new(&cfg, true).unwrap().feature_level, 1);
    cfg.model_type = 9;
    assert_eq!(Tracker::new(&cfg, true).err().unwrap().model_type, 9);
}

#[test]
fn networks_and_threads() {
    let mut cfg = TrackerConfig::default();
    cfg.max_threads = 9;
    let p = cfg.load_plan();
    assert_eq!((p.detection, p.landmarks, p.gaze, p.retina, p.scan), (4, 4, Some(1), None, None));
    cfg.max_threads = 0;
    cfg.try_hard = true;
    cfg.no_gaze = true;
    let p = cfg.load_plan();
    assert_eq!((p.detection, p.gaze, p.retina, p.scan), (1, None, Some(4), None));
    cfg.use_retinaface = true;
    assert_eq!(cfg.load_plan().scan, Some(2));
}

#[test]
fn steps_are_within_bounds() {
    let mut t = tracker(1);
    assert_eq!(f(t.tick(5)), 1.0 / 30.0);
    assert!((f(t.tick(20_000_005)) - 0.02).abs() < 1e-6);
    assert_eq!(f(t.tick(20_000_006)), 1.0 / 240.0);
    assert_eq!(f(t.tick(9_000_000_000)), 0.25);
}

#[test]
fn frames_are_scanned_while_there_is_room() {
    let mut t = tracker(2);
    let p = t.begin(false, false);
    assert!(p.heatmap && !p.retina && !p.whole_frame);
    t.detected = 1;
    let scans: Vec<bool> = (0..7).map(|_| t.begin(false, false).heatmap).collect();
    assert_eq!(scans, vec![false, false, true, false, false, true, false]);
    t.detected = 2;
    assert!(t.begin(true, true) == quiet());
    assert_eq!(t.wait_count, 0);
    assert_eq!(t.frame_count, 9);
}

#[test]
fn hard_tries_use_all() {
    let mut t = tracker(1);
    t.try_hard = true;
    let p = t.begin(true, false);
    assert!(p.retina && p.heatmap && p.whole_frame);
    let boxes = t.gather(&[[1.0; 4].map(s)], &[], &[[2.0; 4].map(s)], true);
    let b: Vec<[f32; 4]> = boxes.into_iter().map(|b| b.map(f)).collect();
    assert_eq!(b, vec![[1.0; 4], [2.0; 4], [0.0, 0.0, 640.0, 360.0]]);
}

#[test]
fn background_scans_go_on() {
    let mut t = tracker(3);
    t.use_retinaface = true;
    t.detected = 1;
    let p: Vec<FramePlan> = (0..4).map(|_| t.begin(false, true)).collect();
    assert!(p.iter().all(|p| p.scan_results && !p.heatmap));
    assert_eq!(p.iter().map(|p| p.scan_start).collect::<Vec<_>>(), vec![false, false, true, true]);
}

#[test]
fn regions_have_a_rim() {
    let r = region([100.0, 80.0, 50.0, 40.0].map(s), 640, 360, 224).unwrap();
    assert_eq!((r.x1, r.y1, r.x2, r.y2), (95, 76, 155, 126));
    assert!((f(r.crop[2]) - 60.0 / 224.0).abs() < 1e-6);
    assert!(region([100.0, 80.0, 2.0, 40.0].map(s), 640, 360, 224).is_none());
    assert!(region([f32::NAN; 4].map(s), 640, 360, 224).is_none());
}

#[test]
fn small_network_is_spread_out() {
    let lms: Vec<[Single; 3]> = (0..30).map(|i| [i as f32, 0.0, 0.5 + i as f32 * 0.001].map(s)).collect();
    let (conf, out) = remap_lms(-1, s(0.9), lms);
    assert_eq!(out.len(), 66);
    assert_eq!(f(out[27][0]), 21.0);
    assert_eq!(f(out[65][0]), 29.0);
    assert!((f(conf) - (0.5 + 0.5 + 0.501) / 3.0).abs() < 1e-6, "{}", f(conf));
    let lms = landmarks(0.0, 0.0, 10.0);
    let (conf, out) = remap_lms(3, s(0.9), lms);
    assert_eq!(f(conf), 0.9);
    assert_eq!(out.len(), 66);
}

#[test]
fn best_of_each_face_is_picked() {
    let c = [
        candidate(0.80, 100.0, 100.0, 80.0, 0.0),
        candidate(0.75, 104.0, 102.0, 80.0, 0.1),
        candidate(0.95, 400.0, 100.0, 80.0, 0.0),
        candidate(0.50, 500.0, 250.0, 60.0, 0.0),
    ];
    assert_eq!(pick(&c, s(0.6), 5), vec![2, 1]);
    assert_eq!(pick(&c, s(0.6), 1), vec![2]);
    assert!(sure(s(0.61), s(0.6)) && !sure(s(0.6), s(0.6)));
    assert_eq!(f(bonus(0, 1)), 0.1);
    assert_eq!(f(bonus(1, 1)), 0.0);
}

#[test]
fn nearest_faces_are_matched_first() {
    let faces = [Some([0.0, 0.0].map(s)), None, Some([10.0, 0.0].map(s))];
    let found = [[9.0, 0.0].map(s), [6.0, 0.0].map(s)];
    assert_eq!(match_faces(&faces, &found, s(100.0)), vec![Some(1), None, Some(0)]);
    let found = [[9.0, 0.0].map(s), [6.0, 0.0].map(s), [50.0, 50.0].map(s)];
    assert_eq!(match_faces(&faces, &found, s(100.0)), vec![Some(1), Some(2), Some(0)]);
    assert_eq!(match_faces(&faces, &[], s(100.0)), vec![None, None, None]);
}

#[test]
fn candidates_reach_their_faces() {
    let mut t = tracker(2);
    t.begin(false, false);
    let c = [candidate(0.9, 100.0, 100.0, 80.0, 0.0), candidate(0.8, 400.0, 100.0, 80.0, 0.0)];
    t.assign_face_info(&c, &[0, 1]);
    assert!(t.is_shown(0) && t.is_shown(1));
    assert_eq!(t.shown(2), [0, 1]);
    assert!(t.shown(0).is_empty());
    assert_eq!(f(t.face_info[0].conf), 0.9);
    let at = mean_xy(&c[1].lms).map(f);
    assert_eq!(t.face_info[1].coord.unwrap().map(f), at);
    t.begin(false, false);
    let near = [candidate(0.7, 402.0, 100.0, 80.0, 0.0)];
    t.assign_face_info(&near, &[0]);
    assert!(!t.is_shown(0));
    assert!(t.face_info[0].coord.is_none());
    assert_eq!(f(t.face_info[1].conf), 0.7);
}

#[test]
fn boxes_outlast_a_few_frames() {
    let mut t = tracker(1);
    t.discard_after = 1;
    t.end(vec![[1.0, 2.0, 3.0, 4.0].map(s), [f32::NAN, 0.0, 1.0, 1.0].map(s)]);
    assert_eq!(t.detected, 1);
    t.end(vec![]);
    assert_eq!((t.detected, t.discard), (1, 1));
    t.end(vec![]);
    assert_eq!((t.detected, t.discard), (0, 2));
}

#[test]
fn new_sizes_change_the_camera() {
    let mut t = tracker(1);
    t.set_size(1280, 720);
    assert_eq!((t.width, t.height), (1280, 720));
    assert_eq!(f(t.cam.cx), 640.0);
}

fn face() -> FaceInfo {
    FaceInfo::new(0, 3, s(0.0), FilterCfg::default())
}

fn depth(error: f32) -> osf_ort::pnp::DepthResult {
    let z = s(0.0);
    osf_ort::pnp::DepthResult {
        success: true,
        quaternion: [z; 4],
        euler: [z; 3],
        pnp_error: s(error),
        pts_3d: [[z; 3]; 70],
        lms: landmarks(10.0, 20.0, 70.0),
        rotation: [s(0.5); 3],
        translation: [s(2.0); 3],
    }
}

#[test]
fn faces_that_never_fit_start_over() {
    let mut x = face();
    x.face_3d[3][0] = s(9.0);
    for _ in 0..5 {
        assert!(!x.take_depth(depth(400.0), 3));
    }
    assert_eq!(f(x.face_3d[3][0]), 9.0);
    assert!(x.guess().is_some());
    assert!(x.take_depth(depth(400.0), 3));
    assert_ne!(f(x.face_3d[3][0]), 9.0);
    assert!(x.guess().is_none());
    assert!(!x.take_depth(depth(10.0), 3));
    assert_eq!(x.fail_count, 0);
}

#[test]
fn faces_are_followed_by_their_box() {
    let mut x = face();
    x.take_depth(depth(10.0), 3);
    let next = x.follow().map(f);
    let b = x.bbox.map(f);
    assert_eq!(b[0], 10.0);
    assert_eq!(b[1], 20.0);
    assert!(next[2] > 0.0 && next[3] > 0.0);
    let (r, angles) = x.report(s(1.0 / 30.0));
    assert_eq!(r.bbox.map(f), b);
    assert_eq!(r.lms.len(), 66);
    assert!(angles.is_none() == (FilterCfg::default().kind == osf_ort::FilterKind::Off));
    x.reset(3, s(0.0));
    assert!(!x.alive && x.lms.is_empty());
}
