//! Pixel loops for preprocessing and enhancement.

use crate::ieee::single::Single;
use crate::preprocess;
use vstd::prelude::*;

pub mod scalar;

verus! {

/// The number of bins of a byte histogram.
pub const HIST: usize = 256;

/// Rounds to the nearest byte.
pub fn clamp_u8(v: Single) -> (r: u8)
    ensures
        r == preprocess::to_byte(v),
{
    preprocess::byte_of(v)
}

/// The name of the kind of code that the loops run as.
pub fn backend_name() -> (r: &'static str)
    ensures
        r@ == "scalar"@,
{
    "scalar"
}

/// Resizes a part of packed rows into three planes at the start of `data`.
pub fn bilinear_nchw(
    src_bgr: &[u8],
    src_w: u32,
    x0: u32,
    y0: u32,
    cw: u32,
    ch: u32,
    dst_w: u32,
    dst_h: u32,
    src: [usize; 3],
    scale: [Single; 3],
    bias: [Single; 3],
    data: &mut [u16],
)
    requires
        scalar::inside(
            src_bgr@.len() as int,
            src_w as int,
            x0 as int,
            y0 as int,
            cw as int,
            ch as int,
        ),
        preprocess::taps_stay(cw as int, dst_w as int),
        preprocess::taps_stay(ch as int, dst_h as int),
        dst_w * dst_h <= u32::MAX,
        3 * (dst_w * dst_h) <= old(data)@.len(),
        forall|c: int| 0 <= c < 3 ==> 0 <= #[trigger] src[c] < 3,
    ensures
        final(data)@ == Seq::new(
            old(data)@.len(),
            |i: int|
                if i < 3 * (dst_w * dst_h) {
                    scalar::nchw_at(
                        src_bgr@,
                        src_w as int,
                        x0 as int,
                        y0 as int,
                        cw as int,
                        ch as int,
                        dst_w as int,
                        dst_h as int,
                        src@,
                        scale@,
                        bias@,
                        i,
                    )
                } else {
                    old(data)@[i]
                },
        ),
{
    scalar::bilinear_nchw(src_bgr, src_w, x0, y0, cw, ch, dst_w, dst_h, src, scale, bias, data)
}

/// Writes a part of packed rows, at its own size, into three planes.
pub fn apply_affine_roi(
    src_bgr: &[u8],
    src_w: u32,
    x0: u32,
    y0: u32,
    cw: u32,
    ch: u32,
    src: [usize; 3],
    scale: [Single; 3],
    bias: [Single; 3],
    data: &mut [u16],
)
    requires
        scalar::inside(
            src_bgr@.len() as int,
            src_w as int,
            x0 as int,
            y0 as int,
            cw as int,
            ch as int,
        ),
        3 * (cw * ch) <= old(data)@.len(),
        forall|c: int| 0 <= c < 3 ==> 0 <= #[trigger] src[c] < 3,
    ensures
        final(data)@ == Seq::new(
            old(data)@.len(),
            |i: int|
                if i < 3 * (cw * ch) {
                    scalar::affine_at(
                        src_bgr@,
                        src_w as int,
                        x0 as int,
                        y0 as int,
                        cw as int,
                        ch as int,
                        src@,
                        scale@,
                        bias@,
                        i,
                    )
                } else {
                    old(data)@[i]
                },
        ),
{
    scalar::apply_affine_roi(src_bgr, src_w, x0, y0, cw, ch, src, scale, bias, data)
}

/// Resizes a part of packed rows into the first `dw * dh * 3` bytes of `dst`.
pub fn resize_bilinear(
    src: &[u8],
    width: u32,
    x1: u32,
    y1: u32,
    cw: u32,
    ch: u32,
    dw: u32,
    dh: u32,
    dst: &mut [u8],
)
    requires
        scalar::inside(src@.len() as int, width as int, x1 as int, y1 as int, cw as int, ch as int),
        preprocess::taps_stay(cw as int, dw as int),
        preprocess::taps_stay(ch as int, dh as int),
        dw * dh * 3 <= u32::MAX,
        dw * dh * 3 <= old(dst)@.len(),
    ensures
        final(dst)@ == Seq::new(
            old(dst)@.len(),
            |i: int|
                if i < dw * dh * 3 {
                    scalar::resize_at(
                        src@,
                        width as int,
                        x1 as int,
                        y1 as int,
                        cw as int,
                        ch as int,
                        dw as int,
                        dh as int,
                        i,
                    )
                } else {
                    old(dst)@[i]
                },
        ),
{
    scalar::resize_bilinear(src, width, x1, y1, cw, ch, dw, dh, dst)
}

/// Exchanges red and blue in place.
pub fn rgb_to_bgr_in_place(data: &mut [u8])
    ensures
        final(data)@ == preprocess::swizzled(old(data)@),
{
    scalar::rgb_to_bgr_in_place(data)
}

/// A 3 x 3 box filter with repeated edges.
pub fn box3_bgr(data: &mut [u8], width: u32, height: u32)
    requires
        width >= 2 && height >= 2 ==> width * height * 3 <= old(data)@.len(),
    ensures
        final(data)@ == scalar::boxed(old(data)@, width as int, height as int),
{
    scalar::box3_bgr(data, width, height)
}

/// Grey-world white balance.
pub fn gray_world(bgr: &mut [u8])
    requires
        old(bgr)@.len() <= 0xff_ffff_ffff_ffff,
    ensures
        final(bgr)@ == scalar::balanced(old(bgr)@),
{
    scalar::gray_world(bgr)
}

/// Mixes `a` parts of `dst` with `1 - a` parts of `src`, into `dst`.
pub fn blend_u8(dst: &mut [u8], src: &[u8], a: Single)
    ensures
        final(dst)@ == scalar::blended(old(dst)@, src@, a),
{
    scalar::blend_u8(dst, src, a)
}

/// Maps the brightness of every pixel by the tables of the tiles about it.
pub fn clahe_remap(
    bgr: &mut [u8],
    width: u32,
    height: u32,
    tx: u32,
    ty: u32,
    tw: u32,
    th: u32,
    luts: &[[u8; 256]],
)
    requires
        width * height * 3 <= old(bgr)@.len(),
        width * height * 3 <= u32::MAX,
        1 <= tx,
        1 <= ty,
        tx * ty <= luts@.len(),
        tx * ty <= u32::MAX,
    ensures
        final(bgr)@ == Seq::new(
            old(bgr)@.len(),
            |i: int|
                if i < width * height * 3 {
                    scalar::remapped_at(
                        old(bgr)@,
                        width as int,
                        tx as int,
                        ty as int,
                        tw as int,
                        th as int,
                        scalar::views(luts@),
                        i,
                    )
                } else {
                    old(bgr)@[i]
                },
        ),
{
    scalar::clahe_remap(bgr, width, height, tx, ty, tw, th, luts)
}

} // verus!
