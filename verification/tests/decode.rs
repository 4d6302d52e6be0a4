use osf_ort::ieee::single;
use osf_ort::ieee::single::Single;
use osf_ort::decode::{hull_of, landmark_peaks, PLANE};
use osf_ort::{
    decode_landmarks, detect_faces, detect_faces_n, landmark_bbox, mean_conf, LmSpec, TensorF16, EYE_IDX,
};

fn s(x: f32) -> Single {
    single::of(x.to_bits())
}

fn f(x: Single) -> f32 {
    f32::from_bits(x.bits)
}

fn heat(cells: &[(usize, f32, f32)]) -> (TensorF16, TensorF16) {
    let mut out = vec![s(0.0); 2 * PLANE];
    let mut pool = vec![s(0.0); PLANE];
    for &(i, h, r) in cells {
        out[i] = s(h);
        pool[i] = s(h);
        out[PLANE + i] = s(r);
    }
    (
        TensorF16::from_f32(vec![1, 2, 56, 56], &out),
        TensorF16::from_f32(vec![1, 1, 56, 56], &pool),
    )
}

#[test]
fn hot_cells_are_boxes() {
    let (out, pool) = heat(&[(20 * 56 + 28, 0.9, 0.25), (40 * 56 + 10, 0.7, 0.125)]);
    let d = detect_faces(&out, &pool, 448, 224, s(0.6));
    assert_eq!(d.len(), 1);
    let b = d[0].map(f);
    assert_eq!(&b[..4], &[168.0, 52.0, 112.0, 56.0]);
    assert!((b[4] - 0.9).abs() < 1e-3);
    assert_eq!(detect_faces_n(&out, &pool, 448, 224, s(0.6), 4).len(), 2);
    assert_eq!(detect_faces_n(&out, &pool, 448, 224, s(0.8), 4).len(), 1);
    assert!(detect_faces(&out, &pool, 448, 224, s(0.95)).is_empty());
}

#[test]
fn cells_below_their_neighbours_do_not_count() {
    let (out, _) = heat(&[(100, 0.9, 0.25)]);
    let mut pool = vec![s(0.0); PLANE];
    pool[100] = s(0.95);
    let pool = TensorF16::from_f32(vec![1, 1, 56, 56], &pool);
    assert!(detect_faces(&out, &pool, 448, 224, s(0.6)).is_empty());
}

#[test]
fn peaks_are_landmarks() {
    let spec = LmSpec::from_type(3).unwrap();
    let cells = 28 * 28;
    let mut data = vec![s(0.0); 3 * 66 * cells];
    for p in 0..66 {
        let c = 27 * 28 + 14;
        data[p * cells + c] = s(0.75);
        data[(66 + p) * cells + c] = s(0.5);
        data[(132 + p) * cells + c] = s(0.5);
    }
    let t = TensorF16::from_f32(vec![1, 198, 28, 28], &data);
    let peaks = landmark_peaks(&t.data, spec);
    assert_eq!(peaks[5].cell, 27 * 28 + 14);
    assert_eq!(f(peaks[5].odds_x), 1.0);
    let logs: Vec<(Single, Single)> = peaks.iter().map(|p| (s(f(p.odds_x).ln()), s(f(p.odds_y).ln()))).collect();
    let (conf, lms) = decode_landmarks(&peaks, &logs, [10.0, 20.0, 2.0, 1.0].map(s), spec);
    assert_eq!(f(conf), 0.75);
    assert_eq!(lms.len(), 66);
    let q = lms[65].map(f);
    assert!((q[0] - (20.0 + 223.0)).abs() < 1e-3, "{q:?}");
    assert!((q[1] - (10.0 + 2.0 * 223.0 * 14.0 / 27.0)).abs() < 1e-3, "{q:?}");
}

#[test]
fn models_by_type() {
    assert_eq!(LmSpec::from_type(-1).unwrap().size, 56);
    assert_eq!(LmSpec::from_type(-1).unwrap().points, 30);
    assert_eq!(LmSpec::from_type(-2).unwrap().size, 112);
    assert_eq!(LmSpec::from_type(4).unwrap().grid(), 28);
    assert_eq!(LmSpec::from_type(5).err().unwrap().model_type, 5);
}

#[test]
fn boxes_and_confidences_of_landmarks() {
    let pts: Vec<[Single; 3]> = (0..48).map(|i| [i as f32, 2.0 * i as f32, 0.5].map(s)).collect();
    assert_eq!(landmark_bbox(&pts).unwrap().map(f), [0.0, 0.0, 94.0, 47.0, 1.0]);
    assert_eq!(hull_of(&pts).map(f), [0.0, 47.0, 0.0, 94.0]);
    assert_eq!(mean_conf(&pts, &EYE_IDX).map(f), Some(0.5));
    assert!(mean_conf(&pts[..10], &EYE_IDX).is_none());
    assert!(landmark_bbox(&[]).is_none());
}

#[test]
fn tensors_hold_half_words() {
    let t = TensorF16::from_f32(vec![3], &[1.0, -2.0, 65536.0].map(s));
    assert_eq!(t.data, vec![0x3c00, 0xc000, 0x7c00]);
    assert_eq!(t.data[0], half::f16::from_f32(1.0).to_bits());
    assert_eq!(f(t.to_f32()[1]), -2.0);
    assert_eq!(TensorF16::zeros(vec![2, 3]).data, vec![0; 6]);
}

#[test]
fn half_words_match_the_half_crate() {
    let mut x = 3.0e-9f32;
    while x < 1.0e6 {
        for v in [x, -x] {
            let want = half::f16::from_f32(v);
            let t = TensorF16::from_f32(vec![1], &[s(v)]);
            assert_eq!(t.data[0], want.to_bits(), "{v}");
            assert_eq!(f(t.to_f32()[0]).to_bits(), want.to_f32().to_bits());
        }
        x *= 1.0037;
    }
}
