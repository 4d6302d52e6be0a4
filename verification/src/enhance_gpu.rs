//! What a device needs to know to enhance a picture.

use crate::enhance;
use crate::enhance::{tile_grid, EnhanceCfg, HeMode};
use crate::ieee::decimal;
use crate::ieee::single;
use crate::ieee::single::Single;
use crate::preprocess::BgrImage;
use vstd::prelude::*;

verus! {

/// The numbers that the kernels of a device run with.
#[derive(Clone, Copy)]
pub struct GpuInfo {
    pub width: u32,
    pub height: u32,
    pub tiles_x: u32,
    pub tiles_y: u32,
    pub tile_w: u32,
    pub tile_h: u32,
    pub n: u32,
    pub ahe: u32,
    pub clip_limit: Single,
    pub blend: Single,
    pub gb: Single,
    pub gg: Single,
    pub gr: Single,
}

/// The numbers for a picture of the given size and gains of its channels.
pub fn make_info(w: u32, h: u32, cfg: &EnhanceCfg, gb: Single, gg: Single, gr: Single) -> (r: GpuInfo)
    requires
        w * h <= u32::MAX,
    ensures
        r == (GpuInfo {
            width: w,
            height: h,
            tiles_x: enhance::tile_count(w as int, cfg.tiles as int) as u32,
            tiles_y: enhance::tile_count(h as int, cfg.tiles as int) as u32,
            tile_w: enhance::tile_size(w as int, cfg.tiles as int) as u32,
            tile_h: enhance::tile_size(h as int, cfg.tiles as int) as u32,
            n: (w * h) as u32,
            ahe: if cfg.unclipped() {
                1
            } else {
                0
            },
            clip_limit: cfg.clip_limit,
            blend: cfg.blend.clamp(single::of(0), single::of(single::ONE)),
            gb,
            gg,
            gr,
        }),
{
    let (tx, ty, tw, th): (u32, u32, u32, u32) = tile_grid(w, h, cfg.tiles);
    let ahe: bool = cfg.he == HeMode::Ahe || (cfg.he == HeMode::Clahe && cfg.clip_limit.le(
        single::of(0),
    ));
    GpuInfo {
        width: w,
        height: h,
        tiles_x: tx,
        tiles_y: ty,
        tile_w: tw,
        tile_h: th,
        n: w * h,
        ahe: if ahe {
            1
        } else {
            0
        },
        clip_limit: cfg.clip_limit,
        blend: cfg.blend.clamp(single::of(0), single::of(single::ONE)),
        gb,
        gg,
        gr,
    }
}

/// The mean of a channel of `n` pixels.
pub open spec fn channel_mean(sum: u32, n: u32) -> Single {
    Single::from_int(sum as int) * (single::of(single::ONE) / Single::from_int(
        if n < 1 {
            1
        } else {
            n as int
        },
    ))
}

/// The gain that brings a channel to grey.
pub open spec fn gain(gray: Single, mean: Single) -> Single {
    gray / mean.max(single::of(decimal::N0_001))
}

/// The gains that bring the mean of the picture to grey, from the sums of its channels.
pub fn white_gains(sums: [u32; 3], n: u32) -> (r: [Single; 3])
    ensures
        ({
            let b = channel_mean(sums[0], n);
            let g = channel_mean(sums[1], n);
            let d = channel_mean(sums[2], n);
            let gray = (b + g + d) / single::of(decimal::N3);
            r@ == seq![gain(gray, b), gain(gray, g), gain(gray, d)]
        }),
{
    let inv: Single = single::of(single::ONE) / single::from_u64(
        if n < 1 {
            1
        } else {
            n as u64
        },
    );
    let b: Single = single::from_u64(sums[0] as u64) * inv;
    let g: Single = single::from_u64(sums[1] as u64) * inv;
    let d: Single = single::from_u64(sums[2] as u64) * inv;
    let gray: Single = (b + g + d) / single::of(decimal::N3);
    let least: Single = single::of(decimal::N0_001);
    let r: [Single; 3] = [gray / b.max(least), gray / g.max(least), gray / d.max(least)];
    assert(r@ =~= seq![gain(gray, b), gain(gray, g), gain(gray, d)]);
    r
}

/// Enhancement in a build without a device: pictures stay as they are.
pub struct GpuEnhance {
    pub cfg: EnhanceCfg,
}

impl GpuEnhance {
    /// Takes in how pictures are to be enhanced.
    pub fn new(cfg: EnhanceCfg) -> (r: GpuEnhance)
        ensures
            r.cfg == cfg,
    {
        GpuEnhance { cfg }
    }

    /// Whether there is a device.
    pub fn enabled(&self) -> (r: bool)
        ensures
            !r,
    {
        false
    }

    /// The bytes of the picture.
    pub fn run<'a>(&self, src: &'a BgrImage) -> (r: &'a [u8])
        ensures
            r@ == src.data@,
    {
        src.data.as_slice()
    }

    /// Leaves the bytes of a picture as they are.
    pub fn run_in_place(&mut self, data: &mut [u8], width: u32, height: u32)
        ensures
            final(data)@ == old(data)@,
            *final(self) == *old(self),
    {
    }
}

} // verus!
