use osf_ort::ieee::single;
use osf_ort::ieee::single::Single;
use osf_ort::gaze::{
    decode_eye, dummy, extract_face, eye_nchw_into, eye_peaks, prepare_eye, wants_gaze, EyeTurn,
};
use osf_ort::BgrImage;

fn s(x: f32) -> Single {
    single::of(x.to_bits())
}

fn f(x: Single) -> f32 {
    f32::from_bits(x.bits)
}

fn frame() -> BgrImage {
    let mut im = BgrImage::zeros(200, 160);
    for (i, v) in im.data.iter_mut().enumerate() {
        *v = (i % 251) as u8;
    }
    im
}

fn level() -> EyeTurn {
    EyeTurn {
        cos: s(1.0),
        sin: s(0.0),
        back_cos: s(1.0),
        back_sin: s(0.0),
    }
}

fn landmarks() -> Vec<[Single; 3]> {
    (0..66).map(|i| [40.0 + (i / 8) as f32 * 10.0, 50.0 + (i % 8) as f32 * 10.0, 0.9].map(s)).collect()
}

#[test]
fn eyes_that_are_not_looked_at_are_open() {
    assert_eq!(dummy().map(|e| e.map(f)), [[1.0, 0.0, 0.0, 0.0]; 2]);
    assert!(!wants_gaze(true, 66));
    assert!(!wants_gaze(false, 45));
    assert!(wants_gaze(false, 46));
}

#[test]
fn faces_are_cut_out() {
    let im = frame();
    let (face, xy, (ox, oy)) = extract_face(&im, &landmarks());
    assert!(face.width > 0 && face.height > 0);
    assert_eq!(xy.len(), 66);
    assert_eq!(f(xy[0][0]), 50.0 - ox as f32);
    assert_eq!(f(xy[0][1]), 40.0 - oy as f32);
    assert_eq!(face.get(0, 0), im.get(ox, oy));
}

#[test]
fn eyes_are_found_again_in_the_frame() {
    let im = frame();
    let (face, _, offset) = extract_face(&im, &landmarks());
    let p = prepare_eye(&face, [30.0, 30.0].map(s), [60.0, 30.0].map(s), level(), false).unwrap();
    let mut dst = vec![1u16; 3 * 32 * 32];
    eye_nchw_into(&face, &p, &mut dst);
    assert!(dst.iter().any(|v| *v != dst[0]));
    let mut raw = vec![0u16; 2 * 3 * 64];
    raw[27] = 0x3800;
    for v in raw[64..192].iter_mut() {
        *v = 0x3800;
    }
    raw[192 + 10] = 0x3a00;
    for v in raw[256..].iter_mut() {
        *v = 0x3800;
    }
    let (right, left) = eye_peaks(&raw);
    let (right, left) = (right.unwrap(), left.unwrap());
    assert_eq!((right.cell, left.cell), (27, 10));
    assert_eq!((f(right.conf), f(left.conf)), (0.5, 0.75));
    let r = decode_eye(&right, s(f(right.odds_x).ln()), s(f(right.odds_y).ln()), &p, false, offset).map(f);
    assert_eq!((r[0], r[3]), (1.0, 0.5));
    assert!(r[1] > 0.0 && r[2] > 0.0);
    assert!(eye_peaks(&raw[..100]).0.is_none());
}

#[test]
fn eyes_need_some_width() {
    let (face, _, _) = extract_face(&frame(), &landmarks());
    assert!(prepare_eye(&face, [-500.0, -500.0].map(s), [-499.0, -500.0].map(s), level(), false).is_none());
}

#[test]
fn answers_are_whole() {
    let mut raw = vec![0u16; 383];
    raw[192] = 0x3800;
    assert!(osf_ort::gaze::is_whole(&raw));
    raw[192 + 63] = 0x3c00;
    assert!(!osf_ort::gaze::is_whole(&raw));
    raw.push(0);
    assert!(osf_ort::gaze::is_whole(&raw));
}
