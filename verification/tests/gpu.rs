use osf_ort::ieee::single;
use osf_ort::ieee::single::Single;
use osf_ort::enhance_gpu::{make_info, white_gains, GpuEnhance};
use osf_ort::gpu_pre::{need_gpu, roi_slices, NeedGpu};
use osf_ort::{BgrImage, EnhanceCfg};

fn s(x: f32) -> Single {
    single::of(x.to_bits())
}

fn f(x: Single) -> f32 {
    f32::from_bits(x.bits)
}

#[test]
fn devices_learn_of_the_tiles() {
    let cfg = EnhanceCfg {
        tiles: 4,
        blend: s(1.5),
        ..EnhanceCfg::clahe()
    };
    let i = make_info(64, 32, &cfg, s(1.0), s(2.0), s(3.0));
    assert_eq!((i.width, i.height, i.n), (64, 32, 2048));
    assert_eq!((i.tiles_x, i.tiles_y, i.tile_w, i.tile_h), (4, 4, 16, 8));
    assert_eq!(f(i.blend), 1.0);
    assert_eq!(i.ahe, 0);
    let flat = EnhanceCfg {
        clip_limit: s(0.0),
        ..cfg
    };
    assert_eq!(make_info(64, 32, &flat, s(1.0), s(1.0), s(1.0)).ahe, 1);
}

#[test]
fn gains_bring_channels_to_grey() {
    let g = white_gains([100, 200, 300], 10).map(f);
    assert!((g[0] - 2.0).abs() < 1e-6 && (g[1] - 1.0).abs() < 1e-6);
    assert!((g[2] - 2.0 / 3.0).abs() < 1e-6);
}

#[test]
fn no_device_no_change() {
    let mut e = GpuEnhance::new(EnhanceCfg::clahe());
    assert!(!e.enabled());
    let im = BgrImage::zeros(3, 3);
    assert_eq!(e.run(&im), im.data.as_slice());
    let mut data: Vec<u8> = (0..27).collect();
    e.run_in_place(&mut data, 3, 3);
    assert_eq!(data, (0..27).collect::<Vec<u8>>());
    assert_eq!(need_gpu::<u8>(), Err(NeedGpu));
}

#[test]
fn parts_are_cut_out_by_slices() {
    let r = roi_slices(10, 20, 66, 132, 56).unwrap();
    assert_eq!(r.starts, [0, 20, 10, 0]);
    assert_eq!(r.ends, [1, 132, 66, 3]);
    assert_eq!(r.crop.map(f), [10.0, 20.0, 1.0, 2.0]);
    assert!(roi_slices(10, 20, 13, 132, 56).is_none());
}
