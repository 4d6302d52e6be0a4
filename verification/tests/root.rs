use osf_ort::ieee::convert;
use osf_ort::ieee::single;
use osf_ort::preprocess::retina_nchw_into;
use osf_ort::preprocess::resize_roi_into;
use osf_ort::{
    crop_img, imagenet_nchw, imagenet_nchw_roi_into, paste_bgr, resize_bgr, retina_nchw, BgrImage, ColorNorm,
};

fn solid(b: u8, g: u8, r: u8) -> BgrImage {
    BgrImage {
        width: 2,
        height: 2,
        data: vec![b, g, r].repeat(4),
    }
}

fn half(h: u16) -> f32 {
    f32::from_bits(convert::from_half(h).bits)
}

#[test]
fn imagenet_lut_matches_affine() {
    let n = ColorNorm::imagenet();
    for v in [0u8, 1, 17, 128, 255] {
        for c in 0..3 {
            let got = half(n.lut[c][v as usize]);
            let exp = v as f32 * f32::from_bits(n.scale[c].bits) + f32::from_bits(n.bias[c].bits);
            assert!((got - exp).abs() < 2e-3, "c={c} v={v} {got} vs {exp}");
        }
    }
}

#[test]
fn imagenet_swaps_bgr_to_rgb() {
    let red = imagenet_nchw(&solid(0, 0, 255), 2);
    let n = ColorNorm::imagenet();
    let exp_r = 255.0 * f32::from_bits(n.scale[0].bits) + f32::from_bits(n.bias[0].bits);
    let exp_g = f32::from_bits(n.bias[1].bits);
    let exp_b = f32::from_bits(n.bias[2].bits);
    assert!((half(red.data[0]) - exp_r).abs() < 2e-3);
    assert!((half(red.data[4]) - exp_g).abs() < 2e-3);
    assert!((half(red.data[8]) - exp_b).abs() < 2e-3);
}

#[test]
fn retina_keeps_bgr() {
    let blue = retina_nchw(&BgrImage {
        width: 640,
        height: 640,
        data: vec![200u8, 10, 3].repeat(640 * 640),
    });
    assert!((half(blue.data[0]) - (200.0 - 104.0)).abs() < 2e-3);
    assert!((half(blue.data[640 * 640]) - (10.0 - 117.0)).abs() < 2e-3);
    assert!((half(blue.data[2 * 640 * 640]) - (3.0 - 123.0)).abs() < 2e-3);
}

#[test]
fn resize_bgr_identity() {
    let im = solid(9, 10, 11);
    let got = resize_bgr(&im, 2, 2);
    assert_eq!(got.width, 2);
    assert_eq!(got.data, im.data);
}

#[test]
fn resize_roi_matches_crop() {
    let mut im = BgrImage::zeros(40, 30);
    for i in 0..im.data.len() {
        im.data[i] = (i % 251) as u8;
    }
    let crop = crop_img(&im, 5, 7, 21, 23);
    let via_crop = resize_bgr(&crop, 16, 16);
    let mut direct = vec![0u8; 16 * 16 * 3];
    resize_roi_into(&im.data, 40, 30, 5, 7, 21, 23, 16, 16, &mut direct);
    assert_eq!(via_crop.data, direct);
}

#[test]
fn nchw_roi_matches_crop() {
    let mut im = BgrImage::zeros(40, 30);
    for i in 0..im.data.len() {
        im.data[i] = (i % 251) as u8;
    }
    let crop = crop_img(&im, 5, 7, 21, 23);
    let a = imagenet_nchw(&crop, 16);
    let mut b = vec![0u16; 3 * 16 * 16];
    imagenet_nchw_roi_into(&im, 5, 7, 21, 23, 16, &mut b);
    for (x, y) in a.data.iter().zip(b.iter()) {
        assert_eq!(x, y);
    }
}

#[test]
fn flip_h_reverses_rows() {
    let im = BgrImage {
        width: 2,
        height: 1,
        data: vec![1, 2, 3, 4, 5, 6],
    };
    let got = im.flip_h();
    assert_eq!(got.data, vec![4, 5, 6, 1, 2, 3]);
}

#[test]
fn a_quarter_turn_goes_counter_clockwise() {
    let mut im = BgrImage {
        width: 3,
        height: 3,
        data: vec![0; 27],
    };
    im.set(2, 1, [10, 20, 30]);
    let zero = single::of(0.0f32.to_bits());
    let one = single::of(1.0f32.to_bits());
    let turned = im.rotate_about(zero, one, (one, one));
    assert_eq!(turned.get(1, 0), [10, 20, 30]);
    assert_eq!(turned.get(2, 1), [0, 0, 0]);
    let same = im.rotate_about(one, zero, (one, one));
    assert_eq!(same.data, im.data);
}

#[test]
fn large_detector_input_in_place() {
    let im = solid(200, 100, 10);
    let mut dst = vec![1u16; 3 * 640 * 640 + 2];
    retina_nchw_into(&im, &mut dst);
    assert_eq!(dst[..3 * 640 * 640], retina_nchw(&im).data[..]);
    assert_eq!(dst[3 * 640 * 640..], [1, 1]);
    let mut short = vec![1u16; 5];
    retina_nchw_into(&im, &mut short);
    assert_eq!(short, [0; 5]);
}

#[test]
fn what_is_laid_over_is_cropped_back() {
    let mut canvas = BgrImage {
        width: 6,
        height: 5,
        data: vec![7; 90],
    };
    let small = BgrImage {
        width: 2,
        height: 3,
        data: (100..118).collect(),
    };
    paste_bgr(&mut canvas, &small, 3, 1);
    assert_eq!(crop_img(&canvas, 3, 1, 5, 4).data, small.data);
    assert_eq!(canvas.get(2, 1), [7, 7, 7]);
    paste_bgr(&mut canvas, &small, -1, 4);
    assert_eq!(canvas.get(0, 4), [103, 104, 105]);
}

#[test]
fn nothing_is_written_where_nothing_fits() {
    let mut dst = [9u8; 10];
    resize_roi_into(&[], 7, 8, 0, 0, 3, 3, 2, 2, &mut dst);
    resize_roi_into(&[], 7, 8, 0, 0, 3, 3, 0, 5, &mut dst);
    resize_roi_into(&[], u32::MAX, u32::MAX, 0, 0, 3, 3, u32::MAX, u32::MAX, &mut dst);
    assert_eq!(dst, [9; 10]);
    resize_roi_into(&[], 7, 8, 5, 0, 5, 3, 1, 2, &mut dst);
    assert_eq!(dst, [0, 0, 0, 0, 0, 0, 9, 9, 9, 9]);
}

#[test]
fn resized_samples_stay_in_range() {
    let mut im = BgrImage::zeros(31, 17);
    for i in 0..im.data.len() {
        im.data[i] = 40 + ((i * 97) % 151) as u8;
    }
    for (w, h) in [(7, 5), (64, 64), (31, 40), (1, 1)] {
        let r = resize_bgr(&im, w, h);
        assert!(r.data.iter().all(|v| (40..=190).contains(v)));
    }
}

#[test]
fn long_rows_are_resized() {
    let n: u32 = 0x100_0002;
    let mut im = BgrImage::zeros(n, 1);
    for x in 0..n as usize {
        im.data[3 * x] = if x < n as usize / 2 { 10 } else { 200 };
    }
    let whole = resize_bgr(&im, 4, 1);
    assert_eq!([whole.data[0], whole.data[3], whole.data[6], whole.data[9]], [10, 10, 200, 200]);
    let mut part = vec![0u8; 12];
    resize_roi_into(&im.data, n, 1, 0, 0, n as i32, 1, 4, 1, &mut part);
    assert_eq!(part, whole.data);
    let mut wide = vec![0u16; 3 * 4 * 4];
    imagenet_nchw_roi_into(&im, 0, 0, n as i32, 1, 4, &mut wide);
    assert_eq!(wide, imagenet_nchw(&im, 4).data);
    let mut none = vec![7u16; 3];
    imagenet_nchw_roi_into(&im, 5, 0, 5, 1, 70000, &mut none);
    assert_eq!(none, [0, 0, 0]);
}
