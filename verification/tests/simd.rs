use osf_ort::ieee::convert;
use osf_ort::ieee::single::Single;
use osf_ort::simd;
use osf_ort::simd::scalar;
use osf_ort::ColorNorm;

fn fill(w: u32, h: u32) -> Vec<u8> {
    (0..w as usize * h as usize * 3)
        .map(|i| ((i * 37 + 11) % 251) as u8)
        .collect()
}

fn max_abs_f16(a: &[u16], b: &[u16]) -> f32 {
    a.iter()
        .zip(b)
        .map(|(x, y)| {
            (f32::from_bits(convert::from_half(*x).bits) - f32::from_bits(convert::from_half(*y).bits)).abs()
        })
        .fold(0.0f32, f32::max)
}

fn run(
    f: impl Fn(&[u8], u32, u32, u32, u32, u32, u32, u32, [usize; 3], [Single; 3], [Single; 3], &mut [u16]),
    src: &[u8],
    sw: u32,
    sh: u32,
    dw: u32,
    dh: u32,
    n: &ColorNorm,
) -> Vec<u16> {
    let mut d = vec![0u16; 3 * dw as usize * dh as usize];
    f(src, sw, 0, 0, sw, sh, dw, dh, n.src, n.scale, n.bias, &mut d);
    d
}

#[test]
fn bilinear_dispatch_matches_scalar() {
    let n = ColorNorm::imagenet();
    let src = fill(64, 48);
    for (dw, dh) in [(16u32, 16u32), (17, 16), (16, 17), (8, 8)] {
        let a = run(simd::bilinear_nchw, &src, 64, 48, dw, dh, &n);
        let b = run(scalar::bilinear_nchw, &src, 64, 48, dw, dh, &n);
        let err = max_abs_f16(&a, &b);
        assert!(err < 2e-3, "{dw}x{dh} err={err}");
    }
}

#[test]
fn affine_roi_dispatch_matches_scalar() {
    let n = ColorNorm::imagenet();
    let src = fill(40, 30);
    let mut a = vec![0u16; 3 * 21 * 16];
    let mut b = vec![0u16; 3 * 21 * 16];
    simd::apply_affine_roi(&src, 40, 5, 7, 21, 16, n.src, n.scale, n.bias, &mut a);
    scalar::apply_affine_roi(&src, 40, 5, 7, 21, 16, n.src, n.scale, n.bias, &mut b);
    assert!(max_abs_f16(&a, &b) < 2e-3);
}

#[test]
fn resize_dispatch_matches_scalar() {
    let src = fill(40, 30);
    let mut a = vec![0u8; 17 * 16 * 3];
    let mut b = vec![0u8; 17 * 16 * 3];
    simd::resize_bilinear(&src, 40, 2, 3, 30, 24, 17, 16, &mut a);
    scalar::resize_bilinear(&src, 40, 2, 3, 30, 24, 17, 16, &mut b);
    let err = a
        .iter()
        .zip(&b)
        .map(|(x, y)| (*x as i16 - *y as i16).unsigned_abs())
        .max()
        .unwrap();
    assert!(err <= 1, "max abs {err}");
}

#[test]
fn rgb_to_bgr_dispatch_matches_scalar() {
    let mut a = fill(19, 5);
    let mut b = a.clone();
    simd::rgb_to_bgr_in_place(&mut a);
    scalar::rgb_to_bgr_in_place(&mut b);
    assert_eq!(a, b);
}

#[test]
fn box3_constant_is_identity() {
    let mut im = vec![77u8; 24 * 18 * 3];
    simd::box3_bgr(&mut im, 24, 18);
    assert!(im.iter().all(|&v| v == 77));
}

#[test]
fn bilinear_sse2_and_avx2_match_scalar() {
    let n = ColorNorm::retina();
    let src = fill(48, 40);
    let got = run(simd::bilinear_nchw, &src, 48, 40, 17, 16, &n);
    let sc = run(scalar::bilinear_nchw, &src, 48, 40, 17, 16, &n);
    assert!(max_abs_f16(&got, &sc) < 2e-3);
}

#[test]
fn bilinear_matches_hardware_arithmetic() {
    let n = ColorNorm::imagenet();
    let (sw, sh, dw, dh) = (64u32, 48u32, 17u32, 16u32);
    let src = fill(sw, sh);
    let got = run(scalar::bilinear_nchw, &src, sw, sh, dw, dh, &n);
    let tap = |i: u32, n_src: u32, n_dst: u32| {
        let s = (i as f32 + 0.5) * (n_src as f32 / n_dst as f32) - 0.5;
        let lo = s.floor().clamp(0.0, (n_src - 1) as f32) as u32;
        (lo, (lo + 1).min(n_src - 1), (s - lo as f32).clamp(0.0, 1.0))
    };
    for y in 0..dh {
        let (y0, y1, wy) = tap(y, sh, dh);
        for x in 0..dw {
            let (x0, x1, wx) = tap(x, sw, dw);
            for c in 0..3usize {
                let s = n.src[c];
                let p = |x: u32, y: u32| src[((y * sw + x) * 3) as usize + s] as f32;
                let v = p(x0, y0) * (1.0 - wx) * (1.0 - wy)
                    + p(x1, y0) * wx * (1.0 - wy)
                    + p(x0, y1) * (1.0 - wx) * wy
                    + p(x1, y1) * wx * wy;
                let want = half::f16::from_f32(
                    v * f32::from_bits(n.scale[c].bits) + f32::from_bits(n.bias[c].bits),
                );
                let o = c * (dw * dh) as usize + (y * dw + x) as usize;
                assert_eq!(got[o], want.to_bits(), "{x} {y} {c}");
            }
        }
    }
}

#[test]
fn bytes_are_rounded_and_held() {
    let at = |x: f32| simd::clamp_u8(Single { bits: x.to_bits() });
    assert_eq!(at(-3.0), 0);
    assert_eq!(at(12.4), 12);
    assert_eq!(at(12.5), 13);
    assert_eq!(at(300.0), 255);
    assert_eq!(simd::backend_name(), "scalar");
    assert_eq!(simd::HIST, 256);
}
