//! The pixel loops, one pixel at a time.

use crate::ieee::convert;
use crate::ieee::single;
use crate::ieee::single::Single;
use crate::preprocess;
use crate::preprocess::Tap;
use vstd::prelude::*;

verus! {

/// The half-precision word of a scaled and biased value.
pub open spec fn affine_spec(v: Single, scale: Single, bias: Single) -> u16 {
    convert::half_word(v * scale + bias)
}

/// Scales and biases a value to half precision.
#[verifier::when_used_as_spec(affine_spec)]
pub fn affine_f16(v: Single, scale: Single, bias: Single) -> (r: u16)
    ensures
        r == affine_spec(v, scale, bias),
{
    convert::half_word(v * scale + bias)
}

/// Whether `[x0, x0 + cw) x [y0, y0 + ch)` lies in packed rows of `src_w` pixels.
pub open spec fn inside(len: int, src_w: int, x0: int, y0: int, cw: int, ch: int) -> bool {
    &&& 0 < cw
    &&& 0 < ch
    &&& x0 + cw <= src_w
    &&& src_w * (y0 + ch) * 3 <= len <= u32::MAX
}

/// One entry of the planar tensor of a resized part, without rounding to bytes.
pub open spec fn nchw_at(
    src_bgr: Seq<u8>,
    src_w: int,
    x0: int,
    y0: int,
    cw: int,
    ch: int,
    dst_w: int,
    dst_h: int,
    src: Seq<usize>,
    scale: Seq<Single>,
    bias: Seq<Single>,
    i: int,
) -> u16 {
    let c = preprocess::plane(i, dst_w, dst_h);
    let x = preprocess::plane_col(i, dst_w);
    let y = preprocess::plane_row(i, dst_w, dst_h);
    let xl = x0 + preprocess::tap_lo(x, cw, dst_w);
    let xh = x0 + preprocess::tap_hi(x, cw, dst_w);
    let yl = y0 + preprocess::tap_lo(y, ch, dst_h);
    let yh = y0 + preprocess::tap_hi(y, ch, dst_h);
    let s = src[c] as int;
    affine_spec(
        preprocess::mix_value(
            src_bgr[preprocess::place(src_w, xl, yl, s)],
            src_bgr[preprocess::place(src_w, xh, yl, s)],
            src_bgr[preprocess::place(src_w, xl, yh, s)],
            src_bgr[preprocess::place(src_w, xh, yh, s)],
            preprocess::tap_weight(x, cw, dst_w),
            preprocess::tap_weight(y, ch, dst_h),
        ),
        scale[c],
        bias[c],
    )
}

/// One entry of the planar tensor of a resized part.
pub fn nchw_pixel(
    src_bgr: &[u8],
    src_w: u32,
    x0: u32,
    y0: u32,
    cw: u32,
    ch: u32,
    dst_w: u32,
    ty: &Tap,
    x: u32,
    s: usize,
    scale: Single,
    bias: Single,
) -> (r: u16)
    requires
        inside(src_bgr@.len() as int, src_w as int, x0 as int, y0 as int, cw as int, ch as int),
        preprocess::tap_lo(x as int, cw as int, dst_w as int) < cw,
        ty.lo <= ty.hi < ch,
        s < 3,
    ensures
        r == affine_spec(
            preprocess::mix_value(
                src_bgr@[preprocess::place(
                    src_w as int,
                    x0 + preprocess::tap_lo(x as int, cw as int, dst_w as int),
                    y0 + ty.lo,
                    s as int,
                )],
                src_bgr@[preprocess::place(
                    src_w as int,
                    x0 + preprocess::tap_hi(x as int, cw as int, dst_w as int),
                    y0 + ty.lo,
                    s as int,
                )],
                src_bgr@[preprocess::place(
                    src_w as int,
                    x0 + preprocess::tap_lo(x as int, cw as int, dst_w as int),
                    y0 + ty.hi,
                    s as int,
                )],
                src_bgr@[preprocess::place(
                    src_w as int,
                    x0 + preprocess::tap_hi(x as int, cw as int, dst_w as int),
                    y0 + ty.hi,
                    s as int,
                )],
                preprocess::tap_weight(x as int, cw as int, dst_w as int),
                ty.weight,
            ),
            scale,
            bias,
        ),
{
    proof {
        lemma_rows_fit(src_w as int, y0 + ch, src_bgr@.len() as int);
    }
    let h: u32 = y0 + ch;
    let tx: Tap = preprocess::tap(x, cw, dst_w);
    let i00: usize = preprocess::pixel_place(src_w, h, x0 + tx.lo, y0 + ty.lo);
    let i10: usize = preprocess::pixel_place(src_w, h, x0 + tx.hi, y0 + ty.lo);
    let i01: usize = preprocess::pixel_place(src_w, h, x0 + tx.lo, y0 + ty.hi);
    let i11: usize = preprocess::pixel_place(src_w, h, x0 + tx.hi, y0 + ty.hi);
    affine_f16(
        preprocess::mixed_value(
            src_bgr[i00 + s],
            src_bgr[i10 + s],
            src_bgr[i01 + s],
            src_bgr[i11 + s],
            tx.weight,
            ty.weight,
        ),
        scale,
        bias,
    )
}

proof fn lemma_rows_fit(w: int, h: int, limit: int)
    requires
        w >= 1,
        h >= 0,
        w * h * 3 <= limit,
    ensures
        h <= limit,
{
    assert(h <= w * h * 3) by (nonlinear_arith)
        requires
            w >= 1,
            h >= 0,
    ;
}

/// Resizes a part of packed rows into three planes at the start of `data`.
pub fn bilinear_nchw(
    src_bgr: &[u8],
    src_w: u32,
    x0: u32,
    y0: u32,
    cw: u32,
    ch: u32,
    dst_w: u32,
    dst_h: u32,
    src: [usize; 3],
    scale: [Single; 3],
    bias: [Single; 3],
    data: &mut [u16],
)
    requires
        inside(src_bgr@.len() as int, src_w as int, x0 as int, y0 as int, cw as int, ch as int),
        preprocess::taps_stay(cw as int, dst_w as int),
        preprocess::taps_stay(ch as int, dst_h as int),
        dst_w * dst_h <= u32::MAX,
        3 * (dst_w * dst_h) <= old(data)@.len(),
        forall|c: int| 0 <= c < 3 ==> 0 <= #[trigger] src[c] < 3,
    ensures
        final(data)@ == Seq::new(
            old(data)@.len(),
            |i: int|
                if i < 3 * (dst_w * dst_h) {
                    nchw_at(
                        src_bgr@,
                        src_w as int,
                        x0 as int,
                        y0 as int,
                        cw as int,
                        ch as int,
                        dst_w as int,
                        dst_h as int,
                        src@,
                        scale@,
                        bias@,
                        i,
                    )
                } else {
                    old(data)@[i]
                },
        ),
{
    let ghost w = dst_w as int;
    let ghost h = dst_h as int;
    let ghost f = |i: int|
        nchw_at(
            src_bgr@,
            src_w as int,
            x0 as int,
            y0 as int,
            cw as int,
            ch as int,
            w,
            h,
            src@,
            scale@,
            bias@,
            i,
        );
    let mut c: usize = 0;
    let mut o: usize = 0;
    assert(0 * h == 0 && 0 * w == 0);
    while c < 3
        invariant
            c <= 3,
            o == (c * h) * w,
            w == dst_w,
            h == dst_h,
            3 * (w * h) <= data@.len() == old(data)@.len(),
            inside(src_bgr@.len() as int, src_w as int, x0 as int, y0 as int, cw as int, ch as int),
            preprocess::taps_stay(cw as int, dst_w as int),
            preprocess::taps_stay(ch as int, dst_h as int),
            forall|k: int| 0 <= k < 3 ==> 0 <= #[trigger] src[k] < 3,
            f == (|i: int|
                nchw_at(
                    src_bgr@,
                    src_w as int,
                    x0 as int,
                    y0 as int,
                    cw as int,
                    ch as int,
                    w,
                    h,
                    src@,
                    scale@,
                    bias@,
                    i,
                )),
            forall|j: int| 0 <= j < o ==> data@[j] == f(j),
            forall|j: int| o <= j < data@.len() ==> data@[j] == old(data)@[j],
        decreases 3 - c,
    {
        let mut y: u32 = 0;
        while y < dst_h
            invariant
                c < 3,
                y <= dst_h,
                o == (c * h + y) * w,
                w == dst_w,
                h == dst_h,
                3 * (w * h) <= data@.len() == old(data)@.len(),
                inside(
                    src_bgr@.len() as int,
                    src_w as int,
                    x0 as int,
                    y0 as int,
                    cw as int,
                    ch as int,
                ),
                preprocess::taps_stay(cw as int, dst_w as int),
                preprocess::taps_stay(ch as int, dst_h as int),
                forall|k: int| 0 <= k < 3 ==> 0 <= #[trigger] src[k] < 3,
                f == (|i: int|
                    nchw_at(
                        src_bgr@,
                        src_w as int,
                        x0 as int,
                        y0 as int,
                        cw as int,
                        ch as int,
                        w,
                        h,
                        src@,
                        scale@,
                        bias@,
                        i,
                    )),
                forall|j: int| 0 <= j < o ==> data@[j] == f(j),
                forall|j: int| o <= j < data@.len() ==> data@[j] == old(data)@[j],
            decreases dst_h - y,
        {
            let ty: Tap = preprocess::tap(y, ch, dst_h);
            let mut x: u32 = 0;
            while x < dst_w
                invariant
                    c < 3,
                    y < dst_h,
                    x <= dst_w,
                    o == (c * h + y) * w + x,
                    w == dst_w,
                    h == dst_h,
                    3 * (w * h) <= data@.len() == old(data)@.len(),
                    inside(
                        src_bgr@.len() as int,
                        src_w as int,
                        x0 as int,
                        y0 as int,
                        cw as int,
                        ch as int,
                    ),
                    preprocess::taps_stay(cw as int, dst_w as int),
                    preprocess::taps_stay(ch as int, dst_h as int),
                    forall|k: int| 0 <= k < 3 ==> 0 <= #[trigger] src[k] < 3,
                    ty.lo == preprocess::tap_lo(y as int, ch as int, h),
                    ty.hi == preprocess::tap_hi(y as int, ch as int, h),
                    ty.weight == preprocess::tap_weight(y as int, ch as int, h),
                    ty.lo <= ty.hi < ch,
                    f == (|i: int|
                        nchw_at(
                            src_bgr@,
                            src_w as int,
                            x0 as int,
                            y0 as int,
                            cw as int,
                            ch as int,
                            w,
                            h,
                            src@,
                            scale@,
                            bias@,
                            i,
                        )),
                    forall|j: int| 0 <= j < o ==> data@[j] == f(j),
                    forall|j: int| o <= j < data@.len() ==> data@[j] == old(data)@[j],
                decreases dst_w - x,
            {
                proof {
                    preprocess::lemma_plane(w, h, x as int, y as int, c as int);
                }
                data[o] = nchw_pixel(
                    src_bgr,
                    src_w,
                    x0,
                    y0,
                    cw,
                    ch,
                    dst_w,
                    &ty,
                    x,
                    src[c],
                    scale[c],
                    bias[c],
                );
                o = o + 1;
                x = x + 1;
            }
            proof {
                assert((c * h + y) * w + w == (c * h + (y + 1)) * w) by (nonlinear_arith);
            }
            y = y + 1;
        }
        proof {
            assert(c * h + h == (c + 1) * h) by (nonlinear_arith);
        }
        c = c + 1;
    }
    proof {
        assert((3 * h) * w == 3 * (w * h)) by (nonlinear_arith);
        assert(data@ =~= Seq::new(
            old(data)@.len(),
            |i: int|
                if i < 3 * (dst_w * dst_h) {
                    f(i)
                } else {
                    old(data)@[i]
                },
        ));
    }
}

/// One entry of the planar tensor of a part that keeps its size.
pub open spec fn affine_at(
    src_bgr: Seq<u8>,
    src_w: int,
    x0: int,
    y0: int,
    cw: int,
    ch: int,
    src: Seq<usize>,
    scale: Seq<Single>,
    bias: Seq<Single>,
    i: int,
) -> u16 {
    let c = preprocess::plane(i, cw, ch);
    let x = x0 + preprocess::plane_col(i, cw);
    let y = y0 + preprocess::plane_row(i, cw, ch);
    affine_spec(
        Single::from_int(src_bgr[preprocess::place(src_w, x, y, src[c] as int)] as int),
        scale[c],
        bias[c],
    )
}

/// Writes a part of packed rows, at its own size, into three planes.
pub fn apply_affine_roi(
    src_bgr: &[u8],
    src_w: u32,
    x0: u32,
    y0: u32,
    cw: u32,
    ch: u32,
    src: [usize; 3],
    scale: [Single; 3],
    bias: [Single; 3],
    data: &mut [u16],
)
    requires
        inside(src_bgr@.len() as int, src_w as int, x0 as int, y0 as int, cw as int, ch as int),
        3 * (cw * ch) <= old(data)@.len(),
        forall|c: int| 0 <= c < 3 ==> 0 <= #[trigger] src[c] < 3,
    ensures
        final(data)@ == Seq::new(
            old(data)@.len(),
            |i: int|
                if i < 3 * (cw * ch) {
                    affine_at(
                        src_bgr@,
                        src_w as int,
                        x0 as int,
                        y0 as int,
                        cw as int,
                        ch as int,
                        src@,
                        scale@,
                        bias@,
                        i,
                    )
                } else {
                    old(data)@[i]
                },
        ),
{
    let ghost w = cw as int;
    let ghost h = ch as int;
    let ghost f = |i: int|
        affine_at(src_bgr@, src_w as int, x0 as int, y0 as int, w, h, src@, scale@, bias@, i);
    proof {
        lemma_rows_fit(src_w as int, y0 + ch, src_bgr@.len() as int);
    }
    let rows: u32 = y0 + ch;
    let mut c: usize = 0;
    let mut o: usize = 0;
    assert(0 * h == 0 && 0 * w == 0);
    while c < 3
        invariant
            c <= 3,
            o == (c * h) * w,
            w == cw,
            h == ch,
            rows == y0 + ch,
            3 * (w * h) <= data@.len() == old(data)@.len(),
            inside(src_bgr@.len() as int, src_w as int, x0 as int, y0 as int, cw as int, ch as int),
            forall|k: int| 0 <= k < 3 ==> 0 <= #[trigger] src[k] < 3,
            f == (|i: int|
                affine_at(src_bgr@, src_w as int, x0 as int, y0 as int, w, h, src@, scale@, bias@, i)),
            forall|j: int| 0 <= j < o ==> data@[j] == f(j),
            forall|j: int| o <= j < data@.len() ==> data@[j] == old(data)@[j],
        decreases 3 - c,
    {
        let mut y: u32 = 0;
        while y < ch
            invariant
                c < 3,
                y <= ch,
                o == (c * h + y) * w,
                w == cw,
                h == ch,
                rows == y0 + ch,
                3 * (w * h) <= data@.len() == old(data)@.len(),
                inside(
                    src_bgr@.len() as int,
                    src_w as int,
                    x0 as int,
                    y0 as int,
                    cw as int,
                    ch as int,
                ),
                forall|k: int| 0 <= k < 3 ==> 0 <= #[trigger] src[k] < 3,
                f == (|i: int|
                    affine_at(src_bgr@, src_w as int, x0 as int, y0 as int, w, h, src@, scale@, bias@, i)),
                forall|j: int| 0 <= j < o ==> data@[j] == f(j),
                forall|j: int| o <= j < data@.len() ==> data@[j] == old(data)@[j],
            decreases ch - y,
        {
            let mut x: u32 = 0;
            while x < cw
                invariant
                    c < 3,
                    y < ch,
                    x <= cw,
                    o == (c * h + y) * w + x,
                    w == cw,
                    h == ch,
                    rows == y0 + ch,
                    3 * (w * h) <= data@.len() == old(data)@.len(),
                    inside(
                        src_bgr@.len() as int,
                        src_w as int,
                        x0 as int,
                        y0 as int,
                        cw as int,
                        ch as int,
                    ),
                    forall|k: int| 0 <= k < 3 ==> 0 <= #[trigger] src[k] < 3,
                    f == (|i: int|
                        affine_at(src_bgr@, src_w as int, x0 as int, y0 as int, w, h, src@, scale@, bias@, i)),
                    forall|j: int| 0 <= j < o ==> data@[j] == f(j),
                    forall|j: int| o <= j < data@.len() ==> data@[j] == old(data)@[j],
                decreases cw - x,
            {
                proof {
                    preprocess::lemma_plane(w, h, x as int, y as int, c as int);
                }
                let p: usize = preprocess::pixel_place(src_w, rows, x0 + x, y0 + y);
                let v: u8 = src_bgr[p + src[c]];
                data[o] = affine_f16(single::from_u64(v as u64), scale[c], bias[c]);
                o = o + 1;
                x = x + 1;
            }
            proof {
                assert((c * h + y) * w + w == (c * h + (y + 1)) * w) by (nonlinear_arith);
            }
            y = y + 1;
        }
        proof {
            assert(c * h + h == (c + 1) * h) by (nonlinear_arith);
        }
        c = c + 1;
    }
    proof {
        assert((3 * h) * w == 3 * (w * h)) by (nonlinear_arith);
        assert(data@ =~= Seq::new(
            old(data)@.len(),
            |i: int|
                if i < 3 * (cw * ch) {
                    f(i)
                } else {
                    old(data)@[i]
                },
        ));
    }
}

/// One byte of a resized part.
pub open spec fn resize_at(
    src: Seq<u8>,
    width: int,
    x1: int,
    y1: int,
    cw: int,
    ch: int,
    dw: int,
    dh: int,
    i: int,
) -> u8 {
    let x = preprocess::col(i, dw);
    let y = preprocess::row(i, dw);
    let c = preprocess::chan(i);
    let xl = x1 + preprocess::tap_lo(x, cw, dw);
    let xh = x1 + preprocess::tap_hi(x, cw, dw);
    let yl = y1 + preprocess::tap_lo(y, ch, dh);
    let yh = y1 + preprocess::tap_hi(y, ch, dh);
    preprocess::mix(
        src[preprocess::place(width, xl, yl, c)],
        src[preprocess::place(width, xh, yl, c)],
        src[preprocess::place(width, xl, yh, c)],
        src[preprocess::place(width, xh, yh, c)],
        preprocess::tap_weight(x, cw, dw),
        preprocess::tap_weight(y, ch, dh),
    )
}

/// Resizes a part of packed rows into the first `dw * dh * 3` bytes of `dst`.
pub fn resize_bilinear(
    src: &[u8],
    width: u32,
    x1: u32,
    y1: u32,
    cw: u32,
    ch: u32,
    dw: u32,
    dh: u32,
    dst: &mut [u8],
)
    requires
        inside(src@.len() as int, width as int, x1 as int, y1 as int, cw as int, ch as int),
        preprocess::taps_stay(cw as int, dw as int),
        preprocess::taps_stay(ch as int, dh as int),
        dw * dh * 3 <= u32::MAX,
        dw * dh * 3 <= old(dst)@.len(),
    ensures
        final(dst)@ == Seq::new(
            old(dst)@.len(),
            |i: int|
                if i < dw * dh * 3 {
                    resize_at(
                        src@,
                        width as int,
                        x1 as int,
                        y1 as int,
                        cw as int,
                        ch as int,
                        dw as int,
                        dh as int,
                        i,
                    )
                } else {
                    old(dst)@[i]
                },
        ),
{
    proof {
        lemma_rows_fit(width as int, y1 + ch, src@.len() as int);
    }
    let rows: u32 = y1 + ch;
    let ghost f = |i: int|
        resize_at(
            src@,
            width as int,
            x1 as int,
            y1 as int,
            cw as int,
            ch as int,
            dw as int,
            dh as int,
            i,
        );
    let mut y: u32 = 0;
    let mut o: usize = 0;
    while y < dh
        invariant
            y <= dh,
            o == preprocess::place(dw as int, 0, y as int, 0),
            rows == y1 + ch,
            inside(src@.len() as int, width as int, x1 as int, y1 as int, cw as int, ch as int),
            preprocess::taps_stay(cw as int, dw as int),
            preprocess::taps_stay(ch as int, dh as int),
            dw * dh * 3 <= dst@.len() == old(dst)@.len(),
            dw * dh * 3 <= u32::MAX,
            f == (|i: int|
                resize_at(
                    src@,
                    width as int,
                    x1 as int,
                    y1 as int,
                    cw as int,
                    ch as int,
                    dw as int,
                    dh as int,
                    i,
                )),
            forall|j: int| 0 <= j < o ==> dst@[j] == f(j),
            forall|j: int| o <= j < dst@.len() ==> dst@[j] == old(dst)@[j],
        decreases dh - y,
    {
        let ty: Tap = preprocess::tap(y, ch, dh);
        let mut x: u32 = 0;
        while x < dw
            invariant
                x <= dw,
                y < dh,
                o == preprocess::place(dw as int, x as int, y as int, 0),
                rows == y1 + ch,
                inside(src@.len() as int, width as int, x1 as int, y1 as int, cw as int, ch as int),
                preprocess::taps_stay(cw as int, dw as int),
                preprocess::taps_stay(ch as int, dh as int),
                dw * dh * 3 <= dst@.len() == old(dst)@.len(),
                dw * dh * 3 <= u32::MAX,
                ty.lo == preprocess::tap_lo(y as int, ch as int, dh as int),
                ty.hi == preprocess::tap_hi(y as int, ch as int, dh as int),
                ty.weight == preprocess::tap_weight(y as int, ch as int, dh as int),
                ty.lo <= ty.hi < ch,
                f == (|i: int|
                    resize_at(
                        src@,
                        width as int,
                        x1 as int,
                        y1 as int,
                        cw as int,
                        ch as int,
                        dw as int,
                        dh as int,
                        i,
                    )),
                forall|j: int| 0 <= j < o ==> dst@[j] == f(j),
                forall|j: int| o <= j < dst@.len() ==> dst@[j] == old(dst)@[j],
            decreases dw - x,
        {
            proof {
                preprocess::lemma_place(dw as int, dh as int, x as int, y as int, 0);
                preprocess::lemma_place(dw as int, dh as int, x as int, y as int, 1);
                preprocess::lemma_place(dw as int, dh as int, x as int, y as int, 2);
            }
            let tx: Tap = preprocess::tap(x, cw, dw);
            let i00: usize = preprocess::pixel_place(width, rows, x1 + tx.lo, y1 + ty.lo);
            let i10: usize = preprocess::pixel_place(width, rows, x1 + tx.hi, y1 + ty.lo);
            let i01: usize = preprocess::pixel_place(width, rows, x1 + tx.lo, y1 + ty.hi);
            let i11: usize = preprocess::pixel_place(width, rows, x1 + tx.hi, y1 + ty.hi);
            let (wx, wy) = (tx.weight, ty.weight);
            dst[o] = preprocess::mixed(src[i00], src[i10], src[i01], src[i11], wx, wy);
            dst[o + 1] = preprocess::mixed(
                src[i00 + 1],
                src[i10 + 1],
                src[i01 + 1],
                src[i11 + 1],
                wx,
                wy,
            );
            dst[o + 2] = preprocess::mixed(
                src[i00 + 2],
                src[i10 + 2],
                src[i01 + 2],
                src[i11 + 2],
                wx,
                wy,
            );
            o = o + 3;
            x = x + 1;
        }
        proof {
            preprocess::lemma_row_end(dw as int, y as int);
        }
        y = y + 1;
    }
    proof {
        assert(dh * dw * 3 == dw * dh * 3) by (nonlinear_arith);
        assert(dst@ =~= Seq::new(
            old(dst)@.len(),
            |i: int|
                if i < dw * dh * 3 {
                    f(i)
                } else {
                    old(dst)@[i]
                },
        ));
    }
}

/// Exchanges red and blue in place.
pub fn rgb_to_bgr_in_place(data: &mut [u8])
    ensures
        final(data)@ == preprocess::swizzled(old(data)@),
{
    preprocess::rgb_to_bgr_in_place(data)
}

/// The sample before, or the first.
pub open spec fn before(x: int) -> int {
    if x == 0 {
        0
    } else {
        x - 1
    }
}

/// The sample after, or the last.
pub open spec fn after(x: int, n: int) -> int {
    if x + 1 < n {
        x + 1
    } else {
        n - 1
    }
}

/// Three samples of a row about column `x`; edges repeat.
pub open spec fn row_sum(data: Seq<u8>, w: int, x: int, y: int, c: int) -> int {
    data[preprocess::place(w, before(x), y, c)] + data[preprocess::place(w, x, y, c)]
        + data[preprocess::place(w, after(x, w), y, c)]
}

/// The nine samples about a pixel; edges repeat.
pub open spec fn box_sum(data: Seq<u8>, w: int, h: int, x: int, y: int, c: int) -> int {
    row_sum(data, w, x, before(y), c) + row_sum(data, w, x, y, c) + row_sum(
        data,
        w,
        x,
        after(y, h),
        c,
    )
}

/// The mean of the nine samples about each pixel, rounded down; a picture with a
/// side under two pixels stays.
pub open spec fn boxed(data: Seq<u8>, w: int, h: int) -> Seq<u8> {
    if w < 2 || h < 2 {
        data
    } else {
        Seq::new(
            data.len(),
            |i: int|
                if i < w * h * 3 {
                    (box_sum(
                        data,
                        w,
                        h,
                        preprocess::col(i, w),
                        preprocess::row(i, w),
                        preprocess::chan(i),
                    ) / 9) as u8
                } else {
                    data[i]
                },
        )
    }
}

/// Where a pixel starts, in rows of `w`.
fn byte_place(w: usize, h: usize, x: usize, y: usize) -> (i: usize)
    requires
        x < w,
        y < h,
        w * h * 3 <= usize::MAX,
    ensures
        i == preprocess::place(w as int, x as int, y as int, 0),
        i + 2 < w * h * 3,
{
    proof {
        preprocess::lemma_place(w as int, h as int, x as int, y as int, 0);
        preprocess::lemma_place(w as int, h as int, x as int, y as int, 2);
        assert(0 <= y * w) by (nonlinear_arith)
            requires
                y >= 0,
                w >= 0,
        ;
    }
    (y * w + x) * 3
}

fn row_sums(data: &[u8], w: usize, h: usize) -> (tmp: Vec<u16>)
    requires
        2 <= w,
        w * h * 3 <= data@.len(),
    ensures
        tmp@ == Seq::new(
            (w * h * 3) as nat,
            |i: int|
                row_sum(
                    data@,
                    w as int,
                    preprocess::col(i, w as int),
                    preprocess::row(i, w as int),
                    preprocess::chan(i),
                ) as u16,
        ),
{
    let len: usize = data.len();
    let mut tmp: Vec<u16> = Vec::new();
    let ghost f = |i: int|
        row_sum(
            data@,
            w as int,
            preprocess::col(i, w as int),
            preprocess::row(i, w as int),
            preprocess::chan(i),
        ) as u16;
    let mut y: usize = 0;
    while y < h
        invariant
            y <= h,
            2 <= w,
            w * h * 3 <= len == data@.len(),
            tmp@.len() == preprocess::place(w as int, 0, y as int, 0),
            forall|i: int| 0 <= i < tmp@.len() ==> tmp@[i] == f(i),
            f == (|i: int|
                row_sum(
                    data@,
                    w as int,
                    preprocess::col(i, w as int),
                    preprocess::row(i, w as int),
                    preprocess::chan(i),
                ) as u16),
        decreases h - y,
    {
        let mut x: usize = 0;
        while x < w
            invariant
                x <= w,
                y < h,
                2 <= w,
                w * h * 3 <= len == data@.len(),
                tmp@.len() == preprocess::place(w as int, x as int, y as int, 0),
                forall|i: int| 0 <= i < tmp@.len() ==> tmp@[i] == f(i),
                f == (|i: int|
                    row_sum(
                        data@,
                        w as int,
                        preprocess::col(i, w as int),
                        preprocess::row(i, w as int),
                        preprocess::chan(i),
                    ) as u16),
            decreases w - x,
        {
            let xm: usize = if x == 0 { 0 } else { x - 1 };
            let xp: usize = if x + 1 < w { x + 1 } else { w - 1 };
            let a: usize = byte_place(w, h, xm, y);
            let b: usize = byte_place(w, h, x, y);
            let d: usize = byte_place(w, h, xp, y);
            proof {
                preprocess::lemma_place(w as int, h as int, x as int, y as int, 0);
                preprocess::lemma_place(w as int, h as int, x as int, y as int, 1);
                preprocess::lemma_place(w as int, h as int, x as int, y as int, 2);
            }
            tmp.push(data[a] as u16 + data[b] as u16 + data[d] as u16);
            tmp.push(data[a + 1] as u16 + data[b + 1] as u16 + data[d + 1] as u16);
            tmp.push(data[a + 2] as u16 + data[b + 2] as u16 + data[d + 2] as u16);
            x = x + 1;
        }
        proof {
            preprocess::lemma_row_end(w as int, y as int);
        }
        y = y + 1;
    }
    proof {
        assert(h * w * 3 == w * h * 3) by (nonlinear_arith);
        assert(tmp@ =~= Seq::new((w * h * 3) as nat, f));
    }
    tmp
}

fn col_third(tmp: &Vec<u16>, a: usize, b: usize, d: usize) -> (r: u8)
    requires
        a < tmp@.len(),
        b < tmp@.len(),
        d < tmp@.len(),
        tmp@[a as int] <= 765,
        tmp@[b as int] <= 765,
        tmp@[d as int] <= 765,
    ensures
        r == ((tmp@[a as int] + tmp@[b as int] + tmp@[d as int]) / 9) as u8,
{
    ((tmp[a] as u32 + tmp[b] as u32 + tmp[d] as u32) / 9) as u8
}

/// A 3 x 3 box filter with repeated edges.
pub fn box3_bgr(data: &mut [u8], width: u32, height: u32)
    requires
        width >= 2 && height >= 2 ==> width * height * 3 <= old(data)@.len(),
    ensures
        final(data)@ == boxed(old(data)@, width as int, height as int),
{
    if width < 2 || height < 2 {
        return;
    }
    let len: usize = data.len();
    let w: usize = width as usize;
    let h: usize = height as usize;
    let tmp: Vec<u16> = row_sums(data, w, h);
    let ghost src = data@;
    let ghost all = boxed(src, w as int, h as int);
    let mut y: usize = 0;
    let mut o: usize = 0;
    while y < h
        invariant
            y <= h == height,
            w == width,
            2 <= w,
            2 <= h,
            w * h * 3 <= src.len() == data@.len() == len,
            o == preprocess::place(w as int, 0, y as int, 0),
            all == boxed(src, w as int, h as int),
            tmp@ == Seq::new(
                (w * h * 3) as nat,
                |i: int|
                    row_sum(
                        src,
                        w as int,
                        preprocess::col(i, w as int),
                        preprocess::row(i, w as int),
                        preprocess::chan(i),
                    ) as u16,
            ),
            forall|j: int| 0 <= j < o ==> data@[j] == all[j],
            forall|j: int| o <= j < data@.len() ==> data@[j] == src[j],
        decreases h - y,
    {
        let ym: usize = if y == 0 { 0 } else { y - 1 };
        let yp: usize = if y + 1 < h { y + 1 } else { h - 1 };
        let mut x: usize = 0;
        while x < w
            invariant
                x <= w,
                y < h == height,
                w == width,
                2 <= w,
                2 <= h,
                ym == before(y as int),
                yp == after(y as int, h as int),
                w * h * 3 <= src.len() == data@.len() == len,
                o == preprocess::place(w as int, x as int, y as int, 0),
                all == boxed(src, w as int, h as int),
                tmp@ == Seq::new(
                    (w * h * 3) as nat,
                    |i: int|
                        row_sum(
                            src,
                            w as int,
                            preprocess::col(i, w as int),
                            preprocess::row(i, w as int),
                            preprocess::chan(i),
                        ) as u16,
                ),
                forall|j: int| 0 <= j < o ==> data@[j] == all[j],
                forall|j: int| o <= j < data@.len() ==> data@[j] == src[j],
            decreases w - x,
        {
            let a: usize = byte_place(w, h, x, ym);
            let d: usize = byte_place(w, h, x, yp);
            proof {
                preprocess::lemma_place(w as int, h as int, x as int, y as int, 0);
                preprocess::lemma_place(w as int, h as int, x as int, y as int, 1);
                preprocess::lemma_place(w as int, h as int, x as int, y as int, 2);
                preprocess::lemma_place(w as int, h as int, x as int, ym as int, 0);
                preprocess::lemma_place(w as int, h as int, x as int, ym as int, 1);
                preprocess::lemma_place(w as int, h as int, x as int, ym as int, 2);
                preprocess::lemma_place(w as int, h as int, x as int, yp as int, 0);
                preprocess::lemma_place(w as int, h as int, x as int, yp as int, 1);
                preprocess::lemma_place(w as int, h as int, x as int, yp as int, 2);
            }
            data[o] = col_third(&tmp, a, o, d);
            data[o + 1] = col_third(&tmp, a + 1, o + 1, d + 1);
            data[o + 2] = col_third(&tmp, a + 2, o + 2, d + 2);
            o = o + 3;
            x = x + 1;
        }
        proof {
            preprocess::lemma_row_end(w as int, y as int);
        }
        y = y + 1;
    }
    proof {
        assert(h * w * 3 == w * h * 3) by (nonlinear_arith);
        assert(data@ =~= all);
    }
}

/// A picture of one value comes out of the box filter as it went in.
pub proof fn lemma_box_constant(data: Seq<u8>, w: int, h: int, v: u8)
    requires
        0 <= w,
        0 <= h,
        w * h * 3 <= data.len(),
        forall|i: int| 0 <= i < data.len() ==> data[i] == v,
    ensures
        boxed(data, w, h) == data,
{
    if w >= 2 && h >= 2 {
        assert forall|i: int| 0 <= i < data.len() implies boxed(data, w, h)[i] == data[i] by {
            if i < w * h * 3 {
                preprocess::lemma_unplace(w, h, i);
                let (x, y, c) = (
                    preprocess::col(i, w),
                    preprocess::row(i, w),
                    preprocess::chan(i),
                );
                lemma_row_constant(data, w, h, x, before(y), c, v);
                lemma_row_constant(data, w, h, x, y, c, v);
                lemma_row_constant(data, w, h, x, after(y, h), c, v);
            }
        }
        assert(boxed(data, w, h) =~= data);
    }
}

proof fn lemma_row_constant(data: Seq<u8>, w: int, h: int, x: int, y: int, c: int, v: u8)
    requires
        2 <= w,
        0 <= x < w,
        0 <= y < h,
        0 <= c < 3,
        w * h * 3 <= data.len(),
        forall|i: int| 0 <= i < data.len() ==> data[i] == v,
    ensures
        row_sum(data, w, x, y, c) == 3 * v,
{
    preprocess::lemma_place(w, h, before(x), y, c);
    preprocess::lemma_place(w, h, x, y, c);
    preprocess::lemma_place(w, h, after(x, w), y, c);
}

/// The sum of one channel over the first `n` pixels.
pub open spec fn chan_sum(data: Seq<u8>, c: int, n: int) -> int
    decreases n,
{
    if n <= 0 {
        0
    } else {
        chan_sum(data, c, n - 1) + data[(n - 1) * 3 + c]
    }
}

/// The words of three and of one thousandth.
pub const THREE: u32 = 0x4040_0000;
pub const MILLI: u32 = 0x3a83_126f;

/// The mean of one channel.
pub open spec fn chan_mean(data: Seq<u8>, c: int) -> Single {
    let n = data.len() / 3;
    Single::from_int(chan_sum(data, c, n as int)) * (single::of(single::ONE) / Single::from_int(
        n as int,
    ))
}

/// The factor that brings one channel to the common mean.
pub open spec fn chan_gain(data: Seq<u8>, c: int) -> Single {
    (chan_mean(data, 0) + chan_mean(data, 1) + chan_mean(data, 2)) / single::of(THREE) / chan_mean(
        data,
        c,
    ).max(single::of(MILLI))
}

/// Every channel scaled to the common mean.
pub open spec fn balanced(data: Seq<u8>) -> Seq<u8> {
    Seq::new(
        data.len(),
        |i: int|
            if i < data.len() / 3 * 3 {
                preprocess::to_byte(Single::from_int(data[i] as int) * chan_gain(data, i % 3))
            } else {
                data[i]
            },
    )
}

/// Grey-world white balance: scales the channels to the same mean.
pub fn gray_world(bgr: &mut [u8])
    requires
        old(bgr)@.len() <= 0xff_ffff_ffff_ffff,
    ensures
        final(bgr)@ == balanced(old(bgr)@),
{
    let n: usize = bgr.len() / 3;
    if n == 0 {
        assert(bgr@ =~= balanced(bgr@));
        return;
    }
    let mut sb: u64 = 0;
    let mut sg: u64 = 0;
    let mut sr: u64 = 0;
    let mut k: usize = 0;
    while k < n
        invariant
            k <= n == bgr@.len() / 3,
            bgr@.len() <= 0xff_ffff_ffff_ffff,
            sb == chan_sum(bgr@, 0, k as int),
            sg == chan_sum(bgr@, 1, k as int),
            sr == chan_sum(bgr@, 2, k as int),
            sb <= 255 * k,
            sg <= 255 * k,
            sr <= 255 * k,
        decreases n - k,
    {
        sb = sb + bgr[k * 3] as u64;
        sg = sg + bgr[k * 3 + 1] as u64;
        sr = sr + bgr[k * 3 + 2] as u64;
        k = k + 1;
    }
    let inv: Single = single::of(single::ONE) / single::from_u64(n as u64);
    let mb: Single = single::from_u64(sb) * inv;
    let mg: Single = single::from_u64(sg) * inv;
    let mr: Single = single::from_u64(sr) * inv;
    let gray: Single = (mb + mg + mr) / single::of(THREE);
    let floor: Single = single::of(MILLI);
    let gb: Single = gray / mb.max(floor);
    let gg: Single = gray / mg.max(floor);
    let gr: Single = gray / mr.max(floor);
    let ghost src = bgr@;
    let mut k: usize = 0;
    while k < n
        invariant
            k <= n == src.len() / 3,
            3 * n <= usize::MAX,
            bgr@.len() == src.len(),
            gb == chan_gain(src, 0),
            gg == chan_gain(src, 1),
            gr == chan_gain(src, 2),
            forall|j: int| 0 <= j < 3 * k ==> bgr@[j] == balanced(src)[j],
            forall|j: int| 3 * k <= j < src.len() ==> bgr@[j] == src[j],
        decreases n - k,
    {
        let i: usize = k * 3;
        bgr[i] = preprocess::byte_of(single::from_u64(bgr[i] as u64) * gb);
        bgr[i + 1] = preprocess::byte_of(single::from_u64(bgr[i + 1] as u64) * gg);
        bgr[i + 2] = preprocess::byte_of(single::from_u64(bgr[i + 2] as u64) * gr);
        k = k + 1;
    }
    assert(bgr@ =~= balanced(src));
}

/// `a` parts of one sequence and the rest of another, as far as both reach.
pub open spec fn blended(dst: Seq<u8>, src: Seq<u8>, a: Single) -> Seq<u8> {
    Seq::new(
        dst.len(),
        |i: int|
            if i < src.len() {
                preprocess::to_byte(
                    Single::from_int(dst[i] as int) * a + Single::from_int(src[i] as int) * (
                    single::of(single::ONE) - a),
                )
            } else {
                dst[i]
            },
    )
}

/// Mixes `a` parts of `dst` with `1 - a` parts of `src`, into `dst`.
pub fn blend_u8(dst: &mut [u8], src: &[u8], a: Single)
    ensures
        final(dst)@ == blended(old(dst)@, src@, a),
{
    let b: Single = single::of(single::ONE) - a;
    let n: usize = if dst.len() < src.len() { dst.len() } else { src.len() };
    let mut i: usize = 0;
    while i < n
        invariant
            i <= n,
            n <= src@.len(),
            n <= dst@.len() == old(dst)@.len(),
            n == src@.len() || n == dst@.len(),
            b == single::of(single::ONE) - a,
            forall|j: int| 0 <= j < i ==> dst@[j] == blended(old(dst)@, src@, a)[j],
            forall|j: int| i <= j < dst@.len() ==> dst@[j] == old(dst)@[j],
        decreases n - i,
    {
        dst[i] = preprocess::byte_of(
            single::from_u64(dst[i] as u64) * a + single::from_u64(src[i] as u64) * b,
        );
        i = i + 1;
    }
    assert(dst@ =~= blended(old(dst)@, src@, a));
}

/// The words of the BT.601 weights and of what takes brightness and colour apart.
pub const LUMA_B: u32 = 0x3de9_78d5;
pub const LUMA_G: u32 = 0x3f16_45a2;
pub const LUMA_R: u32 = 0x3e99_1687;
pub const MID: u32 = 0x4300_0000;
pub const CB_R: u32 = 0x3e2c_c921;
pub const CB_G: u32 = 0x3ea9_9b6f;
pub const CR_G: u32 = 0x3ed6_5e46;
pub const CR_B: u32 = 0x3da6_86e8;
pub const B_CB: u32 = 0x3fe2_d0e5;
pub const G_CB: u32 = 0x3eb0_3298;
pub const G_CR: u32 = 0x3f36_d19e;
pub const R_CR: u32 = 0x3fb3_74bc;

/// Brightness.
pub open spec fn luma(b: Single, g: Single, r: Single) -> Single {
    single::of(LUMA_B) * b + single::of(LUMA_G) * g + single::of(LUMA_R) * r
}

/// Blue against brightness.
pub open spec fn chroma_b(b: Single, g: Single, r: Single) -> Single {
    single::of(MID) - single::of(CB_R) * r - single::of(CB_G) * g + single::of(preprocess::HALF) * b
}

/// Red against brightness.
pub open spec fn chroma_r(b: Single, g: Single, r: Single) -> Single {
    single::of(MID) + single::of(preprocess::HALF) * r - single::of(CR_G) * g - single::of(CR_B) * b
}

/// Takes a colour apart into brightness and two colour differences.
pub fn yuv_from_bgr(b: Single, g: Single, r: Single) -> (o: (Single, Single, Single))
    ensures
        o.0 == luma(b, g, r),
        o.1 == chroma_b(b, g, r),
        o.2 == chroma_r(b, g, r),
{
    let half: Single = single::of(preprocess::HALF);
    let y: Single = single::of(LUMA_B) * b + single::of(LUMA_G) * g + single::of(LUMA_R) * r;
    let cb: Single = single::of(MID) - single::of(CB_R) * r - single::of(CB_G) * g + half * b;
    let cr: Single = single::of(MID) + half * r - single::of(CR_G) * g - single::of(CR_B) * b;
    (y, cb, cr)
}

/// One channel of a colour that is given by brightness and colour differences.
pub open spec fn from_yuv(y: Single, cb: Single, cr: Single, c: int) -> Single {
    let db = cb - single::of(MID);
    let dr = cr - single::of(MID);
    if c == 0 {
        y + single::of(B_CB) * db
    } else if c == 1 {
        y - single::of(G_CB) * db - single::of(G_CR) * dr
    } else {
        y + single::of(R_CR) * dr
    }
}

/// Puts a colour together from brightness and two colour differences.
pub fn bgr_from_yuv(y: Single, cb: Single, cr: Single) -> (o: (Single, Single, Single))
    ensures
        o.0 == from_yuv(y, cb, cr, 0),
        o.1 == from_yuv(y, cb, cr, 1),
        o.2 == from_yuv(y, cb, cr, 2),
{
    let db: Single = cb - single::of(MID);
    let dr: Single = cr - single::of(MID);
    (
        y + single::of(B_CB) * db,
        y - single::of(G_CB) * db - single::of(G_CR) * dr,
        y + single::of(R_CR) * dr,
    )
}

/// The tables of a list, as sequences.
pub open spec fn views(luts: Seq<[u8; 256]>) -> Seq<Seq<u8>> {
    Seq::new(luts.len(), |t: int| luts[t]@)
}

/// A position in tiles, from the middle of the first.
pub open spec fn tile_pos(x: int, size: int) -> Single {
    Single::from_int(x) / Single::from_int(size) - single::of(preprocess::HALF)
}

/// The tile at or before a position, which may be before the first.
pub open spec fn tile_before(x: int, size: int) -> int {
    tile_pos(x, size).floor().to_int(i32::MIN as int, i32::MAX as int)
}

/// How far a position lies beyond the tile before it.
pub open spec fn tile_share(x: int, size: int) -> Single {
    tile_pos(x, size) - Single::from_int(tile_before(x, size))
}

/// Brightness `bin` at a pixel, by the tables of the four nearest tiles.
pub open spec fn mapped(
    luts: Seq<Seq<u8>>,
    tx: int,
    ty: int,
    tw: int,
    th: int,
    x: int,
    y: int,
    bin: int,
) -> Single {
    let one = single::of(single::ONE);
    let wx = tile_share(x, tw);
    let wy = tile_share(y, th);
    let xa = preprocess::cut(tile_before(x, tw), tx - 1);
    let xb = preprocess::cut(tile_before(x, tw) + 1, tx - 1);
    let ya = preprocess::cut(tile_before(y, th), ty - 1);
    let yb = preprocess::cut(tile_before(y, th) + 1, ty - 1);
    Single::from_int(luts[ya * tx + xa][bin] as int) * (one - wy) * (one - wx) + Single::from_int(
        luts[ya * tx + xb][bin] as int,
    ) * (one - wy) * wx + Single::from_int(luts[yb * tx + xa][bin] as int) * wy * (one - wx)
        + Single::from_int(luts[yb * tx + xb][bin] as int) * wy * wx
}

fn tiles_about(x: u32, size: u32, n: u32) -> (r: (u32, u32, Single))
    requires
        1 <= n,
    ensures
        r.0 == preprocess::cut(tile_before(x as int, size as int), n - 1),
        r.1 == preprocess::cut(tile_before(x as int, size as int) + 1, n - 1),
        r.2 == tile_share(x as int, size as int),
        r.0 < n,
        r.1 < n,
{
    let f: Single = single::from_u64(x as u64) / single::from_u64(size as u64) - single::of(
        preprocess::HALF,
    );
    let t: i32 = f.floor().to_i32();
    let w: Single = f - single::from_i64(t as i64);
    (cut_tile(t as i64, n), cut_tile(t as i64 + 1, n), w)
}

fn cut_tile(t: i64, n: u32) -> (r: u32)
    requires
        1 <= n,
    ensures
        r == preprocess::cut(t as int, n - 1),
        r < n,
{
    if t < 0 {
        0
    } else if t > (n - 1) as i64 {
        n - 1
    } else {
        t as u32
    }
}

proof fn lemma_tile_place(tx: int, ty: int, x: int, y: int)
    requires
        0 <= x < tx,
        0 <= y < ty,
    ensures
        0 <= y * tx + x < tx * ty,
{
    assert(0 <= y * tx + x < tx * ty) by (nonlinear_arith)
        requires
            0 <= x < tx,
            0 <= y < ty,
    ;
}

fn lut_entry(luts: &[[u8; 256]], tx: u32, ty: u32, x: u32, y: u32, bin: u8) -> (r: Single)
    requires
        x < tx,
        y < ty,
        tx * ty <= luts@.len(),
        tx * ty <= u32::MAX,
    ensures
        r == Single::from_int(views(luts@)[y * tx + x][bin as int] as int),
{
    proof {
        lemma_tile_place(tx as int, ty as int, x as int, y as int);
        assert(0 <= y * tx) by (nonlinear_arith)
            requires
                y >= 0,
                tx >= 0,
        ;
    }
    single::from_u64(luts[(y * tx + x) as usize][bin as usize] as u64)
}

fn map_y(
    luts: &[[u8; 256]],
    tx: u32,
    ty: u32,
    tw: u32,
    th: u32,
    x: u32,
    y: u32,
    bin: u8,
) -> (r: Single)
    requires
        1 <= tx,
        1 <= ty,
        tx * ty <= luts@.len(),
        tx * ty <= u32::MAX,
    ensures
        r == mapped(
            views(luts@),
            tx as int,
            ty as int,
            tw as int,
            th as int,
            x as int,
            y as int,
            bin as int,
        ),
{
    let (xa, xb, wx) = tiles_about(x, tw, tx);
    let (ya, yb, wy) = tiles_about(y, th, ty);
    let one: Single = single::of(single::ONE);
    lut_entry(luts, tx, ty, xa, ya, bin) * (one - wy) * (one - wx) + lut_entry(
        luts,
        tx,
        ty,
        xb,
        ya,
        bin,
    ) * (one - wy) * wx + lut_entry(luts, tx, ty, xa, yb, bin) * wy * (one - wx) + lut_entry(
        luts,
        tx,
        ty,
        xb,
        yb,
        bin,
    ) * wy * wx
}

/// One byte of a pixel whose brightness was mapped and whose colour was kept.
pub open spec fn remapped_at(
    bgr: Seq<u8>,
    w: int,
    tx: int,
    ty: int,
    tw: int,
    th: int,
    luts: Seq<Seq<u8>>,
    i: int,
) -> u8 {
    let x = preprocess::col(i, w);
    let y = preprocess::row(i, w);
    let b = Single::from_int(bgr[preprocess::place(w, x, y, 0)] as int);
    let g = Single::from_int(bgr[preprocess::place(w, x, y, 1)] as int);
    let r = Single::from_int(bgr[preprocess::place(w, x, y, 2)] as int);
    let bin = preprocess::to_byte(luma(b, g, r)) as int;
    preprocess::to_byte(
        from_yuv(
            mapped(luts, tx, ty, tw, th, x, y, bin),
            chroma_b(b, g, r),
            chroma_r(b, g, r),
            preprocess::chan(i),
        ),
    )
}

/// Maps the brightness of every pixel by the tables of the tiles about it.
pub fn clahe_remap(
    bgr: &mut [u8],
    width: u32,
    height: u32,
    tx: u32,
    ty: u32,
    tw: u32,
    th: u32,
    luts: &[[u8; 256]],
)
    requires
        width * height * 3 <= old(bgr)@.len(),
        width * height * 3 <= u32::MAX,
        1 <= tx,
        1 <= ty,
        tx * ty <= luts@.len(),
        tx * ty <= u32::MAX,
    ensures
        final(bgr)@ == Seq::new(
            old(bgr)@.len(),
            |i: int|
                if i < width * height * 3 {
                    remapped_at(
                        old(bgr)@,
                        width as int,
                        tx as int,
                        ty as int,
                        tw as int,
                        th as int,
                        views(luts@),
                        i,
                    )
                } else {
                    old(bgr)@[i]
                },
        ),
{
    let ghost src = bgr@;
    let ghost w = width as int;
    let ghost f = |i: int|
        remapped_at(src, w, tx as int, ty as int, tw as int, th as int, views(luts@), i);
    let mut y: u32 = 0;
    let mut o: usize = 0;
    while y < height
        invariant
            y <= height,
            w == width,
            width * height * 3 <= src.len() == bgr@.len(),
            width * height * 3 <= u32::MAX,
            1 <= tx,
            1 <= ty,
            tx * ty <= luts@.len(),
            tx * ty <= u32::MAX,
            o == preprocess::place(w, 0, y as int, 0),
            f == (|i: int|
                remapped_at(src, w, tx as int, ty as int, tw as int, th as int, views(luts@), i)),
            forall|j: int| 0 <= j < o ==> bgr@[j] == f(j),
            forall|j: int| o <= j < src.len() ==> bgr@[j] == src[j],
        decreases height - y,
    {
        let mut x: u32 = 0;
        while x < width
            invariant
                x <= width,
                y < height,
                w == width,
                width * height * 3 <= src.len() == bgr@.len(),
                width * height * 3 <= u32::MAX,
                1 <= tx,
                1 <= ty,
                tx * ty <= luts@.len(),
                tx * ty <= u32::MAX,
                o == preprocess::place(w, x as int, y as int, 0),
                f == (|i: int|
                    remapped_at(src, w, tx as int, ty as int, tw as int, th as int, views(luts@), i)),
                forall|j: int| 0 <= j < o ==> bgr@[j] == f(j),
                forall|j: int| o <= j < src.len() ==> bgr@[j] == src[j],
            decreases width - x,
        {
            proof {
                preprocess::lemma_place(w, height as int, x as int, y as int, 0);
                preprocess::lemma_place(w, height as int, x as int, y as int, 1);
                preprocess::lemma_place(w, height as int, x as int, y as int, 2);
            }
            let (yv, cb, cr) = yuv_from_bgr(
                single::from_u64(bgr[o] as u64),
                single::from_u64(bgr[o + 1] as u64),
                single::from_u64(bgr[o + 2] as u64),
            );
            let bin: u8 = preprocess::byte_of(yv);
            let m: Single = map_y(luts, tx, ty, tw, th, x, y, bin);
            let (b2, g2, r2) = bgr_from_yuv(m, cb, cr);
            bgr[o] = preprocess::byte_of(b2);
            bgr[o + 1] = preprocess::byte_of(g2);
            bgr[o + 2] = preprocess::byte_of(r2);
            o = o + 3;
            x = x + 1;
        }
        proof {
            preprocess::lemma_row_end(w, y as int);
        }
        y = y + 1;
    }
    proof {
        assert(height * width * 3 == width * height * 3) by (nonlinear_arith);
        assert(bgr@ =~= Seq::new(
            src.len(),
            |i: int|
                if i < width * height * 3 {
                    f(i)
                } else {
                    src[i]
                },
        ));
    }
}

} // verus!
