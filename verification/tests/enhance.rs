use osf_ort::enhance::{
    analyze, classify, lut_from_hist, luma_bt601 as luma_word, tile_grid, tile_of, tile_rect, SceneKind,
};
use osf_ort::ieee::single;
use osf_ort::ieee::single::Single;
use osf_ort::{enhance_bgr, enhance_bgr_in_place, BgrImage, EnhanceCfg, HeMode};

fn s(x: f32) -> Single {
    single::of(x.to_bits())
}

fn f(x: Single) -> f32 {
    f32::from_bits(x.bits)
}

fn luma_bt601(b: u8, g: u8, r: u8) -> f32 {
    f(luma_word(b, g, r))
}


fn solid(w: u32, h: u32, b: u8, g: u8, r: u8) -> BgrImage {
    BgrImage {
        width: w,
        height: h,
        data: vec![b, g, r].repeat((w * h) as usize),
    }
}

fn mean_y(img: &BgrImage) -> f32 {
    let n = (img.width * img.height) as f32;
    img.data
        .chunks_exact(3)
        .map(|p| luma_bt601(p[0], p[1], p[2]))
        .sum::<f32>()
        / n
}

fn std_y(img: &BgrImage) -> f32 {
    let n = (img.width * img.height) as f32;
    let m = mean_y(img);
    let var = img
        .data
        .chunks_exact(3)
        .map(|p| {
            let d = luma_bt601(p[0], p[1], p[2]) - m;
            d * d
        })
        .sum::<f32>()
        / n;
    var.sqrt()
}

#[test]
fn gray_world_leaves_neutral_gray() {
    let src = solid(8, 8, 120, 120, 120);
    let cfg = EnhanceCfg {
        wb: true,
        ..EnhanceCfg::off()
    };
    let got = enhance_bgr(&src, &cfg);
    assert_eq!(got.data, src.data);
}

#[test]
fn gray_world_corrects_red_cast() {
    let src = solid(16, 16, 80, 80, 160);
    let cfg = EnhanceCfg {
        wb: true,
        ..EnhanceCfg::off()
    };
    let got = enhance_bgr(&src, &cfg);
    let (mut mb, mut mg, mut mr) = (0.0, 0.0, 0.0);
    let n = (got.width * got.height) as f32;
    for p in got.data.chunks_exact(3) {
        mb += p[0] as f32;
        mg += p[1] as f32;
        mr += p[2] as f32;
    }
    mb /= n;
    mg /= n;
    mr /= n;
    assert!((mb - mg).abs() < 2.0, "{mb} {mg} {mr}");
    assert!((mg - mr).abs() < 2.0, "{mb} {mg} {mr}");
}

#[test]
fn off_is_identity() {
    let src = solid(4, 4, 10, 20, 30);
    let got = enhance_bgr(&src, &EnhanceCfg::off());
    assert_eq!(got.data, src.data);
}

fn dark_ramp(w: u32, h: u32) -> BgrImage {
    let mut data = Vec::with_capacity((w * h * 3) as usize);
    for y in 0..h {
        for x in 0..w {
            let v = (20 + (x + y) * 40 / (w + h).max(1)).min(80) as u8;
            data.extend_from_slice(&[v, v, v]);
        }
    }
    BgrImage {
        width: w,
        height: h,
        data,
    }
}

#[test]
fn clahe_raises_luma_std_on_dark_ramp() {
    let src = dark_ramp(64, 64);
    let cfg = EnhanceCfg {
        he: HeMode::Clahe,
        clip_limit: s(2.0),
        blend: s(1.0),
        ..EnhanceCfg::off()
    };
    let got = enhance_bgr(&src, &cfg);
    assert!(
        std_y(&got) > std_y(&src) + 5.0,
        "std {} -> {}",
        std_y(&src),
        std_y(&got)
    );
}

fn high_contrast_block(w: u32, h: u32) -> BgrImage {
    let mut data = Vec::with_capacity((w * h * 3) as usize);
    for y in 0..h {
        for x in 0..w {
            let v = if ((x / 4) + (y / 4)) % 2 == 0 {
                10
            } else {
                240
            };
            data.extend_from_slice(&[v, v, v]);
        }
    }
    BgrImage {
        width: w,
        height: h,
        data,
    }
}

#[test]
fn clahe_clips_more_than_ahe() {
    let src = high_contrast_block(64, 64);
    let ahe = enhance_bgr(
        &src,
        &EnhanceCfg {
            he: HeMode::Ahe,
            blend: s(1.0),
            ..EnhanceCfg::off()
        },
    );
    let clahe = enhance_bgr(
        &src,
        &EnhanceCfg {
            he: HeMode::Clahe,
            clip_limit: s(2.0),
            blend: s(1.0),
            ..EnhanceCfg::off()
        },
    );
    let peak = |img: &BgrImage| {
        img.data
            .chunks_exact(3)
            .zip(src.data.chunks_exact(3))
            .map(|(a, b)| (luma_bt601(a[0], a[1], a[2]) - luma_bt601(b[0], b[1], b[2])).abs())
            .fold(0.0f32, f32::max)
    };
    assert!(
        peak(&clahe) <= peak(&ahe) + 1.0,
        "clahe {} ahe {}",
        peak(&clahe),
        peak(&ahe)
    );
}

#[test]
fn clip_limit_zero_matches_ahe() {
    let src = dark_ramp(32, 32);
    let a = enhance_bgr(
        &src,
        &EnhanceCfg {
            he: HeMode::Ahe,
            tiles: 4,
            blend: s(1.0),
            ..EnhanceCfg::off()
        },
    );
    let b = enhance_bgr(
        &src,
        &EnhanceCfg {
            he: HeMode::Clahe,
            clip_limit: s(0.0),
            tiles: 4,
            blend: s(1.0),
            ..EnhanceCfg::off()
        },
    );
    assert_eq!(a.data, b.data);
}

fn fill(w: u32, h: u32, b: u8, g: u8, r: u8) -> BgrImage {
    BgrImage {
        width: w,
        height: h,
        data: vec![b, g, r].repeat((w * h) as usize),
    }
}

fn paint_rect(img: &mut BgrImage, x0: u32, y0: u32, x1: u32, y1: u32, v: u8) {
    for y in y0..y1.min(img.height) {
        for x in x0..x1.min(img.width) {
            let i = ((y * img.width + x) * 3) as usize;
            img.data[i] = v;
            img.data[i + 1] = v;
            img.data[i + 2] = v;
        }
    }
}

#[test]
fn classifies_dark_overexp_backlight_noise() {
    assert_eq!(
        classify(&analyze(&fill(80, 80, 30, 30, 30))),
        SceneKind::Dark
    );
    assert_eq!(
        classify(&analyze(&fill(80, 80, 240, 240, 240))),
        SceneKind::Overexp
    );

    let mut back = fill(80, 80, 220, 220, 220);
    paint_rect(&mut back, 20, 20, 60, 60, 40);
    assert_eq!(classify(&analyze(&back)), SceneKind::Backlight);

    let mut noisy = fill(80, 80, 128, 128, 128);
    let mut s = 0x9e37_79b9u32;
    for p in &mut noisy.data {
        s ^= s << 13;
        s ^= s >> 17;
        s ^= s << 5;
        let n = (s as i32 as f32 / 2.147e9) * 48.0;
        *p = (*p as f32 + n).round().clamp(0.0, 255.0) as u8;
    }
    assert_eq!(classify(&analyze(&noisy)), SceneKind::Noisy);

    assert_eq!(
        classify(&analyze(&fill(80, 80, 80, 80, 170))),
        SceneKind::Cast
    );
    assert_eq!(
        classify(&analyze(&fill(80, 80, 140, 140, 140))),
        SceneKind::WellLit
    );
}

#[test]
fn auto_skips_well_lit() {
    let src = fill(32, 32, 140, 140, 140);
    let got = enhance_bgr(&src, &EnhanceCfg::auto());
    assert_eq!(got.data, src.data);
}

#[test]
fn in_place_does_the_same() {
    let src = dark_ramp(48, 40);
    let cfg = EnhanceCfg::clahe();
    let want = enhance_bgr(&src, &cfg);
    let mut got = dark_ramp(48, 40);
    enhance_bgr_in_place(&mut got, &cfg);
    assert_eq!(want.data, got.data);
    assert_ne!(src.data, got.data);
}

#[test]
fn modes_have_names() {
    assert_eq!(HeMode::Off.as_str(), "off");
    assert_eq!(HeMode::Ahe.as_str(), "ahe");
    assert_eq!(HeMode::Clahe.as_str(), "clahe");
}

#[test]
fn tiles_part_a_picture() {
    for (w, h, tiles) in [(37u32, 23u32, 8u32), (5, 9, 8), (64, 48, 1), (1, 1, 4)] {
        let (tx, ty, tw, th) = tile_grid(w, h, tiles);
        let mut seen = vec![0u32; (w * h) as usize];
        for j in 0..ty {
            for i in 0..tx {
                let (x1, y1, x2, y2) = tile_rect(i, j, tw, th, tx, ty, w, h);
                for y in y1..y2 {
                    for x in x1..x2 {
                        seen[(y * w + x) as usize] += 1;
                        assert_eq!(tile_of(x, y, tw, th, tx, ty), (i, j));
                    }
                }
            }
        }
        assert!(seen.iter().all(|n| *n == 1), "{w}x{h}");
    }
}

#[test]
fn tables_rise() {
    let mut hist = [0u32; 256];
    for i in 0..256 {
        hist[i] = ((i * 7919) % 13) as u32;
    }
    let n: u32 = hist.iter().sum();
    let lut = lut_from_hist(&hist, n);
    assert!(lut.windows(2).all(|p| p[0] <= p[1]));
    assert_eq!(lut[255], 255);
    let one = lut_from_hist(&hist, 0);
    assert!(one.windows(2).all(|p| p[0] <= p[1]));
}
