use osf_ort::glasses::{glare_frac as glare_word, hold_gaze as hold, luma as luma_word, suppress_glare};
use osf_ort::ieee::single;
use osf_ort::ieee::single::Single;
use osf_ort::{ear_2d, paint_synthetic_glasses, BgrImage};

fn s(x: f32) -> Single {
    single::of(x.to_bits())
}

fn f(x: Single) -> f32 {
    f32::from_bits(x.bits)
}

fn luma(c: [u8; 3]) -> f32 {
    f(luma_word(c[0], c[1], c[2]))
}

fn glare_frac(im: &BgrImage) -> f32 {
    f(glare_word(im))
}

fn hold_gaze(prev: [[f32; 4]; 2], next: [[f32; 4]; 2]) -> [[f32; 4]; 2] {
    hold(prev.map(|e| e.map(s)), next.map(|e| e.map(s))).map(|e| e.map(f))
}


fn luma_px(c: [u8; 3]) -> f32 {
    luma(c)
}

#[test]
fn suppress_glare_lowers_peak() {
    let mut im = BgrImage {
        width: 8,
        height: 8,
        data: vec![80u8, 80, 80].repeat(64),
    };
    im.set(3, 3, [255, 255, 255]);
    im.set(4, 3, [255, 250, 250]);
    let before = luma_px(im.get(3, 3));
    suppress_glare(&mut im);
    let after = luma_px(im.get(3, 3));
    assert!(after < before - 10.0, "{before} -> {after}");
}

#[test]
fn hold_gaze_keeps_prev_on_low_conf() {
    let prev = [[1.0, 10.0, 20.0, 0.5], [1.0, 11.0, 21.0, 0.6]];
    let next = [[1.0, 99.0, 99.0, 0.05], [1.0, 12.0, 22.0, 0.4]];
    let got = hold_gaze(prev, next);
    assert!((got[0][1] - 10.0).abs() < 1e-4);
    assert!((got[1][1] - 12.0).abs() < 1e-4);
}

#[test]
fn glare_frac_counts_hot_pixels() {
    let mut im = BgrImage {
        width: 4,
        height: 4,
        data: vec![40u8, 40, 40].repeat(16),
    };
    im.set(1, 1, [255, 255, 255]);
    assert!(glare_frac(&im) > 0.0);
    assert!(glare_frac(&im) < 0.2);
}

#[test]
fn glasses_change_only_the_eyes() {
    let mut lms = vec![[0.0f32, 0.0, 1.0]; 66];
    for (i, (row, col)) in [(30.0, 20.0), (28.0, 24.0), (28.0, 28.0), (30.0, 32.0), (32.0, 28.0), (32.0, 24.0)]
        .into_iter()
        .enumerate()
    {
        lms[36 + i] = [row, col, 1.0];
        lms[42 + i] = [row, col + 30.0, 1.0];
    }
    let words: Vec<[Single; 3]> = lms.iter().map(|p| p.map(s)).collect();
    let mut im = BgrImage {
        width: 96,
        height: 64,
        data: vec![90; 96 * 64 * 3],
    };
    paint_synthetic_glasses(&mut im, &words);
    assert!(im.data.iter().any(|v| *v != 90));
    assert_eq!(im.get(0, 63), [90, 90, 90]);
    assert_eq!(im.get(95, 63), [90, 90, 90]);
}

#[test]
fn lids_apart_over_width_of_the_eye() {
    let mut lms = vec![[s(0.0); 3]; 66];
    for first in [36, 42] {
        for (i, (x, y)) in [(0.0, 0.0), (1.0, 0.5), (3.0, 0.5), (4.0, 0.0), (3.0, -0.5), (1.0, -0.5)]
            .into_iter()
            .enumerate()
        {
            lms[first + i] = [s(y), s(x), s(1.0)];
        }
    }
    let e = f(ear_2d(&lms).unwrap());
    assert!((e - 0.25).abs() < 1e-6, "{e}");
    assert!(ear_2d(&lms[..40]).is_none());
}
