use osf_ort::features::{
    eye_aspect, eye_value, tilt_of, EyeFeature, Feature, FeatureExtractor, Turn, Turns, TURN_LINES,
};
use osf_ort::ieee::single;
use osf_ort::ieee::single::Single;
use osf_ort::{
    FEATURE_COUNT, FEAT_CHEEK_PUFF, FEAT_JAW_OPEN, FEAT_MOUTH_FUNNEL, FEAT_MOUTH_OFFSET_X,
    FEAT_MOUTH_PRESS_LIP_OPEN, FEAT_MOUTH_PUCKER,
};

fn s(x: f32) -> Single {
    single::of(x.to_bits())
}

fn f(x: Single) -> f32 {
    f32::from_bits(x.bits)
}

fn s3(p: [f32; 3]) -> [Single; 3] {
    [s(p[0]), s(p[1]), s(p[2])]
}

fn turn(a: [f32; 2], b: [f32; 2]) -> Turn {
    let tilt = f(tilt_of(s((b[1] - a[1]).atan2(b[0] - a[0]))));
    Turn {
        tilt: s(tilt),
        cos: s((-tilt).cos()),
        sin: s((-tilt).sin()),
    }
}

fn turns(pts: &[[f32; 3]]) -> Turns {
    let t = |i: usize| {
        let (a, b) = (pts[TURN_LINES[i][0]], pts[TURN_LINES[i][1]]);
        turn([a[0], a[1]], [b[0], b[1]])
    };
    Turns {
        eye_l: t(0),
        eye_r: t(1),
        jaw: t(2),
        nose: t(3),
        brow_l: t(4),
        brow_r: t(5),
    }
}

struct Ext(FeatureExtractor);

impl Ext {
    fn new() -> Self {
        Ext(FeatureExtractor::new(s(0.0)))
    }

    fn update(&mut self, pts: &[[f32; 3]], full: bool) -> [f32; FEATURE_COUNT] {
        let v: Vec<[Single; 3]> = pts.iter().map(|p| s3(*p)).collect();
        self.0.update(&v, full, s(1.0), &turns(pts)).map(f)
    }
}

struct Eye(EyeFeature);

impl Eye {
    fn new() -> Self {
        Eye(EyeFeature::new(s(0.0)))
    }

    fn update(&mut self, x: f32, now: f32) -> f32 {
        f(self.0.update(s(x), s(now)))
    }

    fn update_ex(&mut self, x: f32, now: f32, conf: Option<f32>) -> f32 {
        f(self.0.update_ex(s(x), s(now), conf.map(s)))
    }
}

struct Old(Feature);

impl Old {
    fn new() -> Self {
        Old(Feature::new(s(0.15), s(0.0)))
    }

    fn update(&mut self, x: f32, now: f32) -> f32 {
        f(self.0.update(s(x), s(now)))
    }
}

fn lid_value(x: f32, median: f32) -> f32 {
    f(eye_value(s(x), s(median)))
}

fn aspect(outer: [f32; 2], inner: [f32; 2], lids: [[f32; 2]; 4]) -> f32 {
    let p = |q: [f32; 2]| s3([q[0], q[1], 0.0]);
    let l = lids.map(p);
    f(eye_aspect(
        &p(outer),
        &p(inner),
        [&l[0], &l[1], &l[2], &l[3]],
        &turn(outer, inner),
    ))
}


fn feed(eye: &mut Eye, x: f32, n: u32) -> f32 {
    let mut v = 0.0;
    for i in 0..n {
        v = eye.update(x, i as f32 * 0.03);
    }
    v
}

#[test]
fn lid_close_is_continuous() {
    let m = 1.0;
    let half = lid_value(0.55, m);
    let slit = lid_value(0.25, m);
    let shut = lid_value(0.08, m);
    assert!(half < -0.2 && half > slit);
    assert!(slit < -0.5 && slit > shut);
    assert!((shut + 1.0).abs() < 1e-5);
    assert_eq!(lid_value(1.0, m), 0.0);
}

#[test]
fn squint_does_not_snap_like_legacy() {
    let mut old = Old::new();
    let mut eye = Eye::new();
    for i in 0..80 {
        let t = i as f32 * 0.03;
        old.update(1.0, t);
        eye.update(1.0, t);
    }
    let mut seed = 1u32;
    let mut old_cross = 0;
    let mut prev_old = 0.0;
    let mut new_vals = Vec::new();
    for i in 0..80 {
        seed = seed.wrapping_mul(1664525).wrapping_add(1013904223);
        let n = (seed >> 8) as f32 / u32::MAX as f32 * 2.0 - 1.0;
        let x = 0.55 * (1.0 + 0.05 * n);
        let t = (80 + i) as f32 * 0.03;
        let o = old.update(x, t);
        if (prev_old > -0.1 && o < -0.7) || (prev_old < -0.7 && o > -0.1) {
            old_cross += 1;
        }
        prev_old = o;
        new_vals.push(eye.update(x, t));
    }
    assert!(old_cross > 0, "legacy Feature should bounce 0/-1");
    for v in &new_vals[8..] {
        assert!(*v < -0.2 && *v > -0.8, "half-open snapped: {v}");
    }
}

#[test]
fn blink_reaches_shut_then_opens() {
    let mut eye = Eye::new();
    feed(&mut eye, 1.0, 80);
    let shut = feed(&mut eye, 0.10, 8);
    assert!(shut < -0.85, "blink {shut}");
    let open = feed(&mut eye, 1.0, 20);
    assert!(open.abs() < 0.2, "recover {open}");
}

#[test]
fn extractor_uses_eye_width_and_holds_squint() {
    let ear = aspect(
        [0.0, 0.0],
        [2.0, 0.0],
        [[0.5, 0.4], [1.5, 0.4], [1.5, 0.0], [0.5, 0.0]],
    );
    assert!((ear - 0.2).abs() < 1e-5);

    let mut pts = vec![[0.0; 3]; 66];
    pts[0] = [0.45, 0.30, 0.0];
    pts[16] = [-0.45, 0.30, 0.0];
    pts[27] = [0.0, 0.29, 0.0];
    pts[28] = [0.0, 0.19, 0.0];
    pts[29] = [0.0, 0.10, 0.0];
    let set_eye = |pts: &mut [[f32; 3]], outer: usize, sign: f32, lid: f32| {
        pts[outer] = [sign * 0.32, 0.30, 0.0];
        pts[outer + 1] = [sign * 0.27, 0.30 + 0.04 * lid, 0.0];
        pts[outer + 2] = [sign * 0.18, 0.30 + 0.04 * lid, 0.0];
        pts[outer + 3] = [sign * 0.13, 0.28, 0.0];
        pts[outer + 4] = [sign * 0.18, 0.26, 0.0];
        pts[outer + 5] = [sign * 0.27, 0.26, 0.0];
    };
    let mut ext = Ext::new();
    set_eye(&mut pts, 36, 1.0, 1.0);
    set_eye(&mut pts, 42, -1.0, 1.0);
    for _ in 0..80 {
        ext.update(&pts, false);
    }
    set_eye(&mut pts, 36, 1.0, 0.45);
    set_eye(&mut pts, 42, -1.0, 0.45);
    for _ in 0..20 {
        let f = ext.update(&pts, false);
        assert!(f[0] < -0.05 && f[0] > -0.95);
        assert!(f[1] < -0.05 && f[1] > -0.95);
    }
}

#[test]
fn outlier_keeps_calibrated_median() {
    let mut eye = Eye::new();
    feed(&mut eye, 0.25, 80);
    for i in 0..40 {
        eye.update_ex(0.45, 3.0 + i as f32 * 0.03, Some(0.9));
    }
    let open = eye.update_ex(0.25, 5.0, Some(0.9));
    assert!(
        open.abs() < 0.2,
        "true-open EAR treated as closed after frame-height: {open}"
    );
}

fn canonical_face() -> Vec<[f32; 3]> {
    let mut p = vec![[0.0f32; 3]; 66];
    for i in 0..17 {
        let t = i as f32 / 16.0;
        let x = 0.45 * (1.0 - 2.0 * t);
        let y = 0.30 - (std::f32::consts::PI * t).sin() * 0.90;
        p[i] = [x, y, -0.72];
    }
    p[27] = [0.0, 0.29, -0.14];
    p[28] = [0.0, 0.19, -0.07];
    p[29] = [0.0, 0.10, -0.01];
    p[30] = [0.0, 0.00, 0.00];
    p[36] = [0.32, 0.30, -0.28];
    p[37] = [0.27, 0.34, -0.25];
    p[38] = [0.18, 0.34, -0.24];
    p[39] = [0.13, 0.28, -0.23];
    p[40] = [0.18, 0.26, -0.24];
    p[41] = [0.27, 0.26, -0.25];
    p[42] = [-0.13, 0.28, -0.23];
    p[43] = [-0.18, 0.34, -0.24];
    p[44] = [-0.27, 0.34, -0.25];
    p[45] = [-0.32, 0.30, -0.28];
    p[46] = [-0.27, 0.26, -0.25];
    p[47] = [-0.18, 0.26, -0.24];
    p[48] = [0.12, -0.21, -0.16];
    p[49] = [0.04, -0.19, -0.10];
    p[50] = [0.00, -0.21, -0.08];
    p[51] = [-0.04, -0.19, -0.10];
    p[52] = [-0.12, -0.21, -0.16];
    p[53] = [-0.13, -0.29, -0.19];
    p[54] = [-0.06, -0.33, -0.16];
    p[55] = [0.00, -0.34, -0.11];
    p[56] = [0.06, -0.33, -0.16];
    p[57] = [0.13, -0.29, -0.19];
    p[58] = [0.18, -0.24, -0.23];
    p[59] = [0.08, -0.24, -0.16];
    p[60] = [0.00, -0.26, -0.10];
    p[61] = [-0.08, -0.24, -0.16];
    p[62] = [-0.18, -0.24, -0.23];
    p[63] = [-0.07, -0.25, -0.18];
    p[64] = [0.00, -0.26, -0.11];
    p[65] = [0.07, -0.25, -0.18];
    p
}

fn last_after(ext: &mut Ext, pts: &[[f32; 3]], n: u32) -> [f32; FEATURE_COUNT] {
    let mut f = [0.0; FEATURE_COUNT];
    for _ in 0..n {
        f = ext.update(pts, true);
    }
    f
}

fn shift_mouth_x(pts: &[[f32; 3]], dx: f32) -> Vec<[f32; 3]> {
    let mut p = pts.to_vec();
    for i in 48..66 {
        p[i][0] += dx;
    }
    p
}

fn pucker_lips(pts: &[[f32; 3]], corner_scale: f32, forward: f32) -> Vec<[f32; 3]> {
    let mut p = pts.to_vec();
    p[58][0] *= corner_scale;
    p[62][0] *= corner_scale;
    for i in [48, 52, 58, 62] {
        p[i][2] += forward;
    }
    p
}

fn scale_cheeks(pts: &[[f32; 3]], scale: f32, forward: f32) -> Vec<[f32; 3]> {
    let mut p = pts.to_vec();
    for i in [2, 3, 4, 12, 13, 14] {
        p[i][0] *= scale;
        p[i][2] += forward;
    }
    p
}

const DETECT_TH: f32 = 0.3;

#[derive(Clone, Copy, Debug)]
enum MouthLabel {
    Neutral,
    Pucker,
    OffsetRight,
    OffsetLeft,
    Puff,
    Smile,
    Open,
}

const LABELS: [MouthLabel; 7] = [
    MouthLabel::Neutral,
    MouthLabel::Pucker,
    MouthLabel::OffsetRight,
    MouthLabel::OffsetLeft,
    MouthLabel::Puff,
    MouthLabel::Smile,
    MouthLabel::Open,
];

fn lcg(seed: &mut u32) -> f32 {
    *seed = seed.wrapping_mul(1664525).wrapping_add(1013904223);
    (*seed >> 8) as f32 / (u32::MAX >> 8) as f32
}

fn jitter(pts: &[[f32; 3]], seed: &mut u32, sigma: f32) -> Vec<[f32; 3]> {
    pts.iter()
        .map(|p| {
            [
                p[0] + (lcg(seed) * 2.0 - 1.0) * sigma,
                p[1] + (lcg(seed) * 2.0 - 1.0) * sigma,
                p[2] + (lcg(seed) * 2.0 - 1.0) * sigma,
            ]
        })
        .collect()
}

fn lerp_pts(a: &[[f32; 3]], b: &[[f32; 3]], t: f32) -> Vec<[f32; 3]> {
    a.iter()
        .zip(b.iter())
        .map(|(p, q)| {
            [
                p[0] + (q[0] - p[0]) * t,
                p[1] + (q[1] - p[1]) * t,
                p[2] + (q[2] - p[2]) * t,
            ]
        })
        .collect()
}

fn smile_mouth(pts: &[[f32; 3]], corner_scale: f32) -> Vec<[f32; 3]> {
    let mut p = pts.to_vec();
    p[58][0] *= corner_scale;
    p[62][0] *= corner_scale;
    p
}

fn open_mouth(pts: &[[f32; 3]], gap_scale: f32) -> Vec<[f32; 3]> {
    let mut p = pts.to_vec();
    for i in [59, 60, 61] {
        p[i][1] += 0.04 * (gap_scale - 1.0);
    }
    for i in [63, 64, 65, 53, 54, 55, 56, 57] {
        p[i][1] -= 0.05 * (gap_scale - 1.0);
    }
    p
}

fn drop_chin(pts: &[[f32; 3]], dy: f32) -> Vec<[f32; 3]> {
    let mut p = pts.to_vec();
    for i in [6, 7, 8, 9, 10] {
        let w = 1.0 - (i as f32 - 8.0).abs() / 3.0;
        p[i][1] -= dy * w;
    }
    p
}

fn funnel_mouth(pts: &[[f32; 3]], corner_scale: f32, gap_scale: f32) -> Vec<[f32; 3]> {
    let mut p = pucker_lips(pts, corner_scale, 0.04);
    for i in [59, 60, 61] {
        p[i][1] += 0.04 * (gap_scale - 1.0);
    }
    for i in [63, 64, 65, 53, 54, 55, 56, 57] {
        p[i][1] -= 0.05 * (gap_scale - 1.0);
    }
    p
}

fn bare_teeth(pts: &[[f32; 3]], dy: f32) -> Vec<[f32; 3]> {
    let mut p = pts.to_vec();
    for i in [48, 49, 50, 51, 52, 59, 60, 61] {
        p[i][1] += dy;
    }
    for i in [53, 54, 55, 56, 57, 63, 64, 65] {
        p[i][1] -= dy;
    }
    p
}

fn press_lips(pts: &[[f32; 3]], collapse: f32) -> Vec<[f32; 3]> {
    let mut p = pts.to_vec();
    let ou = (p[49][1] + p[50][1] + p[51][1]) / 3.0;
    let iu = (p[59][1] + p[60][1] + p[61][1]) / 3.0;
    let il = (p[63][1] + p[64][1] + p[65][1]) / 3.0;
    let ol = (p[54][1] + p[55][1] + p[56][1]) / 3.0;
    for i in [48, 49, 50, 51, 52] {
        p[i][1] += (iu - ou) * collapse;
    }
    for i in [53, 54, 55, 56, 57] {
        p[i][1] += (il - ol) * collapse;
    }
    p
}

fn apply_label(rest: &[[f32; 3]], label: MouthLabel, intensity: f32) -> Vec<[f32; 3]> {
    let t = intensity.clamp(0.0, 1.0);
    let target = match label {
        MouthLabel::Neutral => rest.to_vec(),
        MouthLabel::Pucker => pucker_lips(rest, 0.45, 0.10),
        MouthLabel::OffsetRight => shift_mouth_x(rest, 0.12),
        MouthLabel::OffsetLeft => shift_mouth_x(rest, -0.12),
        MouthLabel::Puff => scale_cheeks(rest, 1.25, 0.08),
        MouthLabel::Smile => smile_mouth(rest, 1.6),
        MouthLabel::Open => open_mouth(rest, 3.0),
    };
    lerp_pts(rest, &target, t)
}

fn calibrate_mouth(ext: &mut Ext, rest: &[[f32; 3]]) {
    last_after(ext, rest, 80);
    last_after(ext, &pucker_lips(rest, 1.5, -0.04), 12);
    last_after(ext, &pucker_lips(rest, 0.45, 0.10), 12);
    last_after(ext, &shift_mouth_x(rest, -0.12), 12);
    last_after(ext, &shift_mouth_x(rest, 0.12), 12);
    last_after(ext, &scale_cheeks(rest, 0.85, -0.04), 12);
    last_after(ext, &scale_cheeks(rest, 1.25, 0.08), 12);
    last_after(ext, &pucker_lips(rest, 0.7, 0.0), 12);
    last_after(ext, &open_mouth(rest, 3.0), 12);
    last_after(ext, &drop_chin(rest, 0.14), 12);
    last_after(ext, &funnel_mouth(rest, 0.55, 2.8), 12);
    last_after(ext, &bare_teeth(rest, 0.05), 12);
    last_after(ext, &press_lips(rest, 0.7), 12);
    last_after(ext, rest, 16);
}

fn read_noisy(
    ext: &mut Ext,
    pts: &[[f32; 3]],
    n: u32,
    seed: &mut u32,
    sigma: f32,
) -> [f32; FEATURE_COUNT] {
    let mut f = [0.0; FEATURE_COUNT];
    for _ in 0..n {
        let j = jitter(pts, seed, sigma);
        f = ext.update(&j, true);
    }
    f
}

#[derive(Default, Clone, Copy)]
struct Conf {
    tp: u32,
    fp: u32,
    fn_: u32,
    tn: u32,
}

impl Conf {
    fn add(&mut self, pred: bool, truth: bool) {
        match (pred, truth) {
            (true, true) => self.tp += 1,
            (true, false) => self.fp += 1,
            (false, true) => self.fn_ += 1,
            (false, false) => self.tn += 1,
        }
    }

    fn recall(self) -> f32 {
        let d = self.tp + self.fn_;
        if d == 0 {
            1.0
        } else {
            self.tp as f32 / d as f32
        }
    }

    fn precision(self) -> f32 {
        let d = self.tp + self.fp;
        if d == 0 {
            1.0
        } else {
            self.tp as f32 / d as f32
        }
    }

    fn fpr(self) -> f32 {
        let d = self.fp + self.tn;
        if d == 0 {
            0.0
        } else {
            self.fp as f32 / d as f32
        }
    }

    fn accuracy(self) -> f32 {
        let d = self.tp + self.fp + self.fn_ + self.tn;
        if d == 0 {
            1.0
        } else {
            (self.tp + self.tn) as f32 / d as f32
        }
    }
}

fn detect(f: &[f32; FEATURE_COUNT]) -> (bool, i8, bool) {
    let pucker = f[FEAT_MOUTH_PUCKER] > DETECT_TH;
    let offset = if f[FEAT_MOUTH_OFFSET_X] > DETECT_TH {
        1
    } else if f[FEAT_MOUTH_OFFSET_X] < -DETECT_TH {
        -1
    } else {
        0
    };
    let puff = f[FEAT_CHEEK_PUFF] > DETECT_TH;
    (pucker, offset, puff)
}

/// Labeled noisy poses: recall / precision / FPR / accuracy for the three new features.
#[test]
fn mouth_features_detection_accuracy() {
    const N_ID: u32 = 24;
    const SIGMA: f32 = 0.0035;
    let rest0 = canonical_face();
    let mut pucker_c = Conf::default();
    let mut offset_c = Conf::default();
    let mut puff_c = Conf::default();
    let mut puff_on_smile_fp = 0u32;
    let mut puff_on_smile_n = 0u32;
    let mut seed: u32 = 0xC0FFEE;

    for _ in 0..N_ID {
        let identity = jitter(&rest0, &mut seed, 0.006);
        let mut ext = Ext::new();
        calibrate_mouth(&mut ext, &identity);
        let intensity = 0.85 + 0.15 * lcg(&mut seed);
        for label in LABELS {
            let pose = apply_label(&identity, label, intensity);
            let f = read_noisy(&mut ext, &pose, 16, &mut seed, SIGMA);
            let (pucker, offset, puff) = detect(&f);
            pucker_c.add(pucker, matches!(label, MouthLabel::Pucker));
            let want_off = match label {
                MouthLabel::OffsetRight => 1,
                MouthLabel::OffsetLeft => -1,
                _ => 0,
            };
            if want_off != 0 {
                offset_c.add(offset == want_off, true);
            } else {
                offset_c.add(offset != 0, false);
            }
            puff_c.add(puff, matches!(label, MouthLabel::Puff));
            if matches!(label, MouthLabel::Smile) {
                puff_on_smile_n += 1;
                if puff {
                    puff_on_smile_fp += 1;
                }
            }
            last_after(&mut ext, &identity, 10);
        }
    }

    let smile_puff_fpr = puff_on_smile_fp as f32 / puff_on_smile_n.max(1) as f32;
    println!(
        "mouth feature accuracy (ids={N_ID}, th={DETECT_TH}):\n  \
         pucker recall={:.3} prec={:.3} fpr={:.3} acc={:.3}\n  \
         offset recall={:.3} prec={:.3} fpr={:.3} acc={:.3}\n  \
         puff   recall={:.3} prec={:.3} fpr={:.3} acc={:.3} smile_fpr={:.3}",
        pucker_c.recall(),
        pucker_c.precision(),
        pucker_c.fpr(),
        pucker_c.accuracy(),
        offset_c.recall(),
        offset_c.precision(),
        offset_c.fpr(),
        offset_c.accuracy(),
        puff_c.recall(),
        puff_c.precision(),
        puff_c.fpr(),
        puff_c.accuracy(),
        smile_puff_fpr
    );

    assert!(
        pucker_c.recall() >= 0.90 && pucker_c.fpr() <= 0.10 && pucker_c.accuracy() >= 0.90,
        "pucker recall={} fpr={} acc={}",
        pucker_c.recall(),
        pucker_c.fpr(),
        pucker_c.accuracy()
    );
    assert!(
        offset_c.recall() >= 0.90 && offset_c.fpr() <= 0.10 && offset_c.accuracy() >= 0.90,
        "offset recall={} fpr={} acc={}",
        offset_c.recall(),
        offset_c.fpr(),
        offset_c.accuracy()
    );
    assert!(
        puff_c.recall() >= 0.85 && puff_c.fpr() <= 0.15 && puff_c.accuracy() >= 0.85,
        "puff recall={} fpr={} acc={}",
        puff_c.recall(),
        puff_c.fpr(),
        puff_c.accuracy()
    );
    assert!(
        smile_puff_fpr <= 0.10,
        "cheek puff fired on smile fpr={smile_puff_fpr}"
    );
}

#[test]
fn mouth_features_rest_stays_below_detect_threshold() {
    let rest = canonical_face();
    let mut ext = Ext::new();
    calibrate_mouth(&mut ext, &rest);
    let mut seed = 7u32;
    let f = read_noisy(&mut ext, &rest, 20, &mut seed, 0.0035);
    let (pucker, offset, puff) = detect(&f);
    assert!(!pucker, "rest pucker {}", f[FEAT_MOUTH_PUCKER]);
    assert_eq!(offset, 0, "rest offset {}", f[FEAT_MOUTH_OFFSET_X]);
    assert!(!puff, "rest puff {}", f[FEAT_CHEEK_PUFF]);
    assert!(
        f[FEAT_JAW_OPEN] < DETECT_TH,
        "rest jaw {}",
        f[FEAT_JAW_OPEN]
    );
    assert!(
        f[FEAT_MOUTH_FUNNEL] < DETECT_TH,
        "rest funnel {}",
        f[FEAT_MOUTH_FUNNEL]
    );
    assert!(
        f[FEAT_MOUTH_PRESS_LIP_OPEN].abs() < DETECT_TH,
        "rest press-lip-open {}",
        f[FEAT_MOUTH_PRESS_LIP_OPEN]
    );
}

#[test]
fn jaw_open_tracks_chin_not_lip_gap() {
    let rest = canonical_face();
    let mut ext = Ext::new();
    calibrate_mouth(&mut ext, &rest);
    let mut seed = 11u32;

    let lip = read_noisy(&mut ext, &open_mouth(&rest, 3.0), 16, &mut seed, 0.0035);
    last_after(&mut ext, &rest, 10);
    let jaw = read_noisy(&mut ext, &drop_chin(&rest, 0.14), 16, &mut seed, 0.0035);

    assert!(
        lip[FEAT_JAW_OPEN] < DETECT_TH,
        "lip-only open fired jaw {}",
        lip[FEAT_JAW_OPEN]
    );
    assert!(
        jaw[FEAT_JAW_OPEN] > DETECT_TH,
        "chin drop missed jaw {}",
        jaw[FEAT_JAW_OPEN]
    );
}

#[test]
fn mouth_press_lip_open_tracks_teeth_not_jaw() {
    let rest = canonical_face();
    let mut ext = Ext::new();
    calibrate_mouth(&mut ext, &rest);
    let mut seed = 11u32;
    let slot = FEAT_MOUTH_PRESS_LIP_OPEN;
    let teeth = read_noisy(&mut ext, &bare_teeth(&rest, 0.05), 16, &mut seed, 0.0035);
    last_after(&mut ext, &rest, 10);
    let press = read_noisy(&mut ext, &press_lips(&rest, 0.7), 16, &mut seed, 0.0035);
    last_after(&mut ext, &rest, 10);
    let jaw = read_noisy(&mut ext, &drop_chin(&rest, 0.14), 16, &mut seed, 0.0035);
    last_after(&mut ext, &rest, 10);
    let funnel = read_noisy(
        &mut ext,
        &funnel_mouth(&rest, 0.55, 2.8),
        16,
        &mut seed,
        0.0035,
    );
    last_after(&mut ext, &rest, 10);
    let puck = read_noisy(
        &mut ext,
        &pucker_lips(&rest, 0.45, 0.10),
        16,
        &mut seed,
        0.0035,
    );
    last_after(&mut ext, &rest, 10);
    let smile = read_noisy(&mut ext, &smile_mouth(&rest, 1.6), 16, &mut seed, 0.0035);

    assert!(teeth[slot] > DETECT_TH, "teeth {}", teeth[slot]);
    assert!(press[slot] < -DETECT_TH, "press {}", press[slot]);
    assert!(jaw[slot] < DETECT_TH, "jaw {}", jaw[slot]);
    assert!(funnel[slot] < DETECT_TH, "funnel {}", funnel[slot]);
    assert!(puck[slot].abs() < DETECT_TH, "pucker {}", puck[slot]);
    assert!(smile[slot] > -DETECT_TH, "smile {}", smile[slot]);
}

#[test]
fn mouth_funnel_fires_on_round_open_not_pucker_or_smile() {
    const N_ID: u32 = 24;
    const SIGMA: f32 = 0.0035;
    let rest0 = canonical_face();
    let mut funnel_c = Conf::default();
    let mut funnel_on_pucker = 0u32;
    let mut funnel_on_smile = 0u32;
    let mut funnel_on_open = 0u32;
    let mut n_ctrl = 0u32;
    let mut seed: u32 = 0xF00D;

    for _ in 0..N_ID {
        let identity = jitter(&rest0, &mut seed, 0.006);
        let mut ext = Ext::new();
        calibrate_mouth(&mut ext, &identity);
        let intensity = 0.85 + 0.15 * lcg(&mut seed);

        let funnel_pose = lerp_pts(&identity, &funnel_mouth(&identity, 0.55, 2.8), intensity);
        let f = read_noisy(&mut ext, &funnel_pose, 16, &mut seed, SIGMA);
        funnel_c.add(f[FEAT_MOUTH_FUNNEL] > DETECT_TH, true);
        last_after(&mut ext, &identity, 10);

        let f = read_noisy(
            &mut ext,
            &lerp_pts(&identity, &pucker_lips(&identity, 0.45, 0.10), intensity),
            16,
            &mut seed,
            SIGMA,
        );
        n_ctrl += 1;
        if f[FEAT_MOUTH_FUNNEL] > DETECT_TH {
            funnel_on_pucker += 1;
        }
        funnel_c.add(f[FEAT_MOUTH_FUNNEL] > DETECT_TH, false);
        last_after(&mut ext, &identity, 10);

        let f = read_noisy(
            &mut ext,
            &lerp_pts(&identity, &smile_mouth(&identity, 1.6), intensity),
            16,
            &mut seed,
            SIGMA,
        );
        n_ctrl += 1;
        if f[FEAT_MOUTH_FUNNEL] > DETECT_TH {
            funnel_on_smile += 1;
        }
        funnel_c.add(f[FEAT_MOUTH_FUNNEL] > DETECT_TH, false);
        last_after(&mut ext, &identity, 10);

        let f = read_noisy(
            &mut ext,
            &lerp_pts(&identity, &open_mouth(&identity, 3.0), intensity),
            16,
            &mut seed,
            SIGMA,
        );
        n_ctrl += 1;
        if f[FEAT_MOUTH_FUNNEL] > DETECT_TH {
            funnel_on_open += 1;
        }
        funnel_c.add(f[FEAT_MOUTH_FUNNEL] > DETECT_TH, false);
        last_after(&mut ext, &identity, 10);
    }

    let pucker_fpr = funnel_on_pucker as f32 / N_ID as f32;
    let smile_fpr = funnel_on_smile as f32 / N_ID as f32;
    let open_fpr = funnel_on_open as f32 / N_ID as f32;
    println!(
        "funnel recall={:.3} prec={:.3} fpr={:.3} acc={:.3} \
         pucker_fpr={pucker_fpr:.3} smile_fpr={smile_fpr:.3} open_fpr={open_fpr:.3} n_ctrl={n_ctrl}",
        funnel_c.recall(),
        funnel_c.precision(),
        funnel_c.fpr(),
        funnel_c.accuracy()
    );
    assert!(
        funnel_c.recall() >= 0.85 && funnel_c.fpr() <= 0.15 && funnel_c.accuracy() >= 0.85,
        "funnel recall={} fpr={} acc={}",
        funnel_c.recall(),
        funnel_c.fpr(),
        funnel_c.accuracy()
    );
    assert!(pucker_fpr <= 0.15, "funnel on pucker fpr={pucker_fpr}");
    assert!(smile_fpr <= 0.10, "funnel on smile fpr={smile_fpr}");
    assert!(open_fpr <= 0.15, "funnel on lip-open fpr={open_fpr}");
}

fn series_mean_std(
    ext: &mut Ext,
    pose: &[[f32; 3]],
    slot: usize,
    seed: &mut u32,
) -> (f32, f32) {
    let mut vals = Vec::new();
    for i in 0..40 {
        let f = ext.update(&jitter(pose, seed, 0.0035), true);
        if i >= 8 {
            vals.push(f[slot]);
        }
    }
    let n = vals.len() as f32;
    let mean = vals.iter().sum::<f32>() / n;
    let var = vals.iter().map(|v| (v - mean) * (v - mean)).sum::<f32>() / n;
    (mean, var.sqrt())
}

#[test]
fn jaw_and_funnel_hold_stable() {
    let rest = canonical_face();
    let mut ext = Ext::new();
    calibrate_mouth(&mut ext, &rest);
    let mut seed = 0x51ABu32;
    let (rj, sj) = series_mean_std(&mut ext, &rest, FEAT_JAW_OPEN, &mut seed);
    let (rf, sf) = series_mean_std(&mut ext, &rest, FEAT_MOUTH_FUNNEL, &mut seed);
    last_after(&mut ext, &rest, 8);
    let (hj, hjs) =
        series_mean_std(&mut ext, &drop_chin(&rest, 0.14), FEAT_JAW_OPEN, &mut seed);
    last_after(&mut ext, &rest, 8);
    let (hf, hfs) = series_mean_std(
        &mut ext,
        &funnel_mouth(&rest, 0.55, 2.8),
        FEAT_MOUTH_FUNNEL,
        &mut seed,
    );
    last_after(&mut ext, &rest, 8);
    let lip = read_noisy(&mut ext, &open_mouth(&rest, 3.0), 16, &mut seed, 0.0035);
    last_after(&mut ext, &rest, 8);
    let puck = read_noisy(
        &mut ext,
        &pucker_lips(&rest, 0.45, 0.10),
        16,
        &mut seed,
        0.0035,
    );
    last_after(&mut ext, &rest, 8);
    let smile = read_noisy(&mut ext, &smile_mouth(&rest, 1.6), 16, &mut seed, 0.0035);
    assert!(rj < DETECT_TH && sj < 0.08, "rest jaw {rj} std {sj}");
    assert!(rf < DETECT_TH && sf < 0.08, "rest funnel {rf} std {sf}");
    assert!(hj > 0.5 && hjs < 0.15, "hold jaw {hj} std {hjs}");
    assert!(hf > 0.5 && hfs < 0.15, "hold funnel {hf} std {hfs}");
    assert!(lip[FEAT_JAW_OPEN] < DETECT_TH && lip[FEAT_MOUTH_FUNNEL] < DETECT_TH);
    assert!(puck[FEAT_MOUTH_FUNNEL] < DETECT_TH && smile[FEAT_MOUTH_FUNNEL] < DETECT_TH);
    assert!(puck[FEAT_MOUTH_PRESS_LIP_OPEN].abs() < DETECT_TH);
    assert!(smile[FEAT_MOUTH_PRESS_LIP_OPEN] > -DETECT_TH);
}


#[test]
fn a_first_face_says_nothing_and_eyes_stay_in_range() {
    let pts: Vec<[f32; 3]> = (0..66)
        .map(|i| {
            let t = osf_ort::crop::template_xy(i).unwrap().map(f);
            [t[0], -t[1], -0.1]
        })
        .collect();
    let mut e = Ext::new();
    assert_eq!(e.update(&pts, true), [0.0; FEATURE_COUNT]);
    let mut eye = Eye::new();
    for i in 0..200 {
        let x = if i % 3 == 0 { 0.0 } else { 0.1 + 0.01 * (i % 7) as f32 };
        let v = eye.update_ex(x, i as f32, Some(if i % 5 == 0 { 0.1 } else { 0.9 }));
        assert!((-1.0..=0.0).contains(&v), "{v}");
    }
}

#[test]
fn results_stay_in_range_over_many_faces() {
    let rest = canonical_face();
    let mut ext = Ext::new();
    for i in 0..400 {
        let k = (i % 11) as f32;
        let face = match i % 4 {
            0 => rest.clone(),
            1 => drop_chin(&rest, 0.02 * k),
            2 => open_mouth(&rest, 1.0 + 0.3 * k),
            _ => funnel_mouth(&rest, 0.5 + 0.04 * k, 2.0),
        };
        let r = ext.update(&face, i % 3 == 0);
        assert!((-1.0..=0.0).contains(&r[0]) && (-1.0..=0.0).contains(&r[1]));
        assert!(r[FEAT_CHEEK_PUFF] >= 0.0);
        if i % 3 != 0 {
            assert_eq!([r[2], r[4], r[5], r[7], r[9], r[11]], [0.0; 6]);
        }
    }
}

#[test]
fn a_highest_value_may_come_down_below_the_median() {
    let mut jaw = Feature::new_positive(s(0.15), s(0.0));
    let last: Vec<f32> = [1.0f32, 1.0, 1.3, 1.29993, 1.29993, 1.29995]
        .iter()
        .map(|x| f(jaw.update(s(*x), s(1.0))))
        .collect();
    assert_eq!(last[..3], [0.0, 0.0, 0.8]);
    assert!(last[..5].iter().all(|v| *v >= 0.0));
    assert!((last[5] + 0.7663957).abs() < 1e-6, "{last:?}");
}
