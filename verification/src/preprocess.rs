//! Packed BGR images: crops, mirrors, pastes, bilinear resizing, and planar
//! half-precision tensors.

use crate::decode::TensorF16;
use crate::geom;
use crate::ieee::convert;
use crate::ieee::facts;
use crate::ieee::order;
use crate::ieee::round;
use crate::ieee::single;
use crate::ieee::single::Single;
use vstd::arithmetic::div_mod::*;
use vstd::arithmetic::power2::*;
use vstd::prelude::*;

verus! {

/// A picture of packed 8-bit blue, green and red samples, row by row.
#[derive(Debug)]
pub struct BgrImage {
    pub width: u32,
    pub height: u32,
    pub data: Vec<u8>,
}

/// The place of channel `c` of the pixel in column `x` of row `y`, in rows of `w`.
pub open spec fn place(w: int, x: int, y: int, c: int) -> int {
    (y * w + x) * 3 + c
}

/// The channel that is held at place `i`.
pub open spec fn chan(i: int) -> int {
    i % 3
}

/// The column of place `i`, in rows of `w`.
pub open spec fn col(i: int, w: int) -> int {
    (i / 3) % w
}

/// The row of place `i`, in rows of `w`.
pub open spec fn row(i: int, w: int) -> int {
    (i / 3) / w
}

/// `place` lies inside a picture, and `row`, `col` and `chan` undo it.
pub proof fn lemma_place(w: int, h: int, x: int, y: int, c: int)
    requires
        0 <= x < w,
        0 <= y < h,
        0 <= c < 3,
    ensures
        0 <= place(w, x, y, c) < w * h * 3,
        row(place(w, x, y, c), w) == y,
        col(place(w, x, y, c), w) == x,
        chan(place(w, x, y, c)) == c,
{
    let p = y * w + x;
    assert(0 <= p < w * h) by (nonlinear_arith)
        requires
            0 <= x < w,
            0 <= y < h,
            p == y * w + x,
    ;
    lemma_fundamental_div_mod_converse(p, w, y, x);
    assert(place(w, x, y, c) == p * 3 + c);
    assert(place(w, x, y, c) / 3 == p);
}

/// Every place of a picture is that of its row, column and channel.
pub proof fn lemma_unplace(w: int, h: int, i: int)
    requires
        0 < w,
        0 <= i < w * h * 3,
    ensures
        place(w, col(i, w), row(i, w), chan(i)) == i,
        0 <= col(i, w) < w,
        0 <= row(i, w) < h,
        0 <= chan(i) < 3,
{
    let p = i / 3;
    lemma_fundamental_div_mod(p, w);
    lemma_mod_bound(p, w);
    let y = p / w;
    assert(w * y == y * w) by (nonlinear_arith);
    assert(0 <= y < h) by (nonlinear_arith)
        requires
            p == w * y + p % w,
            0 <= p % w < w,
            0 <= p < w * h,
    ;
}

/// The places of one row follow one another.
pub proof fn lemma_row_end(w: int, y: int)
    ensures
        place(w, w, y, 0) == place(w, 0, y + 1, 0),
{
    assert(y * w + w == (y + 1) * w) by (nonlinear_arith);
}

impl BgrImage {
    /// The number of bytes that the size calls for.
    pub open spec fn area(self) -> int {
        self.width * self.height * 3
    }

    /// The bytes fill the size exactly, and 32 bits count them.
    pub open spec fn wf(self) -> bool {
        &&& self.data@.len() == self.area()
        &&& self.area() <= u32::MAX
    }

    /// Whether a coordinate is that of a pixel.
    pub open spec fn holds(self, x: int, y: int) -> bool {
        0 <= x < self.width && 0 <= y < self.height
    }

    /// One sample of a pixel.
    pub open spec fn at(self, x: int, y: int, c: int) -> u8 {
        self.data@[place(self.width as int, x, y, c)]
    }

    /// A picture of the given size over the given bytes.
    pub fn new(width: u32, height: u32, data: Vec<u8>) -> (r: Self)
        ensures
            r.width == width,
            r.height == height,
            r.data == data,
    {
        BgrImage { width, height, data }
    }

    /// A black picture.
    pub fn zeros(width: u32, height: u32) -> (r: Self)
        requires
            width * height * 3 <= usize::MAX,
        ensures
            r.width == width,
            r.height == height,
            r.data@ == Seq::new((width * height * 3) as nat, |i: int| 0u8),
    {
        assert(0 <= width * height <= usize::MAX) by (nonlinear_arith)
            requires
                width * height * 3 <= usize::MAX,
                width >= 0,
                height >= 0,
        ;
        let n: usize = width as usize * height as usize * 3;
        BgrImage { width, height, data: vec![0u8; n] }
    }

    /// The pixel at a coordinate; black outside of the picture.
    pub fn get(&self, x: i32, y: i32) -> (r: [u8; 3])
        requires
            self.wf(),
        ensures
            forall|c: int|
                0 <= c < 3 ==> #[trigger] r[c] == (if self.holds(x as int, y as int) {
                    self.at(x as int, y as int, c)
                } else {
                    0
                }),
    {
        if x < 0 || y < 0 || x as u32 >= self.width || y as u32 >= self.height {
            return [0, 0, 0];
        }
        proof {
            lemma_place(self.width as int, self.height as int, x as int, y as int, 0);
            lemma_place(self.width as int, self.height as int, x as int, y as int, 2);
            assert(0 <= y * self.width) by (nonlinear_arith)
                requires
                    y >= 0,
                    self.width >= 0,
            ;
        }
        let i: usize = ((y as u32 * self.width + x as u32) * 3) as usize;
        [self.data[i], self.data[i + 1], self.data[i + 2]]
    }

    /// Writes the pixel at a coordinate; does nothing outside of the picture.
    pub fn set(&mut self, x: i32, y: i32, c: [u8; 3])
        requires
            old(self).wf(),
        ensures
            final(self).wf(),
            final(self).width == old(self).width,
            final(self).height == old(self).height,
            final(self).data@ == (if old(self).holds(x as int, y as int) {
                let i = place(old(self).width as int, x as int, y as int, 0);
                old(self).data@.update(i, c[0]).update(i + 1, c[1]).update(i + 2, c[2])
            } else {
                old(self).data@
            }),
    {
        if x < 0 || y < 0 || x as u32 >= self.width || y as u32 >= self.height {
            return;
        }
        proof {
            lemma_place(self.width as int, self.height as int, x as int, y as int, 0);
            lemma_place(self.width as int, self.height as int, x as int, y as int, 2);
            assert(0 <= y * self.width) by (nonlinear_arith)
                requires
                    y >= 0,
                    self.width >= 0,
            ;
        }
        let i: usize = ((y as u32 * self.width + x as u32) * 3) as usize;
        self.data[i] = c[0];
        self.data[i + 1] = c[1];
        self.data[i + 2] = c[2];
    }

    /// Changes the size. The bytes are kept where their number stays the same;
    /// otherwise they are cut off or filled up with zeros at the end.
    pub fn resize_buffer(&mut self, width: u32, height: u32)
        requires
            width * height * 3 <= usize::MAX,
        ensures
            final(self).width == width,
            final(self).height == height,
            final(self).data@ == Seq::new(
                (width * height * 3) as nat,
                |i: int|
                    if i < old(self).data@.len() {
                        old(self).data@[i]
                    } else {
                        0
                    },
            ),
    {
        assert(0 <= width * height <= usize::MAX) by (nonlinear_arith)
            requires
                width * height * 3 <= usize::MAX,
                width >= 0,
                height >= 0,
        ;
        let n: usize = width as usize * height as usize * 3;
        if self.data.len() != n {
            self.data.resize(n, 0);
        }
        self.width = width;
        self.height = height;
    }

    /// The bytes of the picture with its columns in the opposite order.
    pub open spec fn mirrored(self) -> Seq<u8> {
        let w = self.width as int;
        Seq::new(
            self.data@.len(),
            |i: int| self.at(w - 1 - col(i, w), row(i, w), chan(i)),
        )
    }

    /// The mirror image.
    pub fn flip_h(&self) -> (r: Self)
        requires
            self.wf(),
        ensures
            r.wf(),
            r.width == self.width,
            r.height == self.height,
            r.data@ == self.mirrored(),
    {
        let data: Vec<u8> = flip_h_rows(&self.data, self.width as usize, self.height as usize);
        BgrImage { width: self.width, height: self.height, data }
    }

    /// Mirrors the picture in place.
    pub fn flip_h_in_place(&mut self)
        requires
            old(self).wf(),
        ensures
            final(self).wf(),
            final(self).width == old(self).width,
            final(self).height == old(self).height,
            final(self).data@ == old(self).mirrored(),
    {
        let data: Vec<u8> = flip_h_rows(&self.data, self.width as usize, self.height as usize);
        self.data = data;
    }
}

fn flip_h_rows(src: &Vec<u8>, w: usize, h: usize) -> (dst: Vec<u8>)
    requires
        src@.len() == w * h * 3,
        w <= u32::MAX,
        h <= u32::MAX,
        w * h * 3 <= u32::MAX,
    ensures
        dst@ == Seq::new(
            src@.len(),
            |i: int|
                src@[place(w as int, w - 1 - col(i, w as int), row(i, w as int), chan(i))],
        ),
{
    let mut dst: Vec<u8> = Vec::new();
    let ghost f = |i: int|
        src@[place(w as int, w - 1 - col(i, w as int), row(i, w as int), chan(i))];
    let mut y: usize = 0;
    while y < h
        invariant
            y <= h,
            src@.len() == w * h * 3,
            w * h * 3 <= u32::MAX,
            w <= u32::MAX,
            dst@.len() == place(w as int, 0, y as int, 0),
            forall|i: int| 0 <= i < dst@.len() ==> dst@[i] == f(i),
            f == (|i: int|
                src@[place(w as int, w - 1 - col(i, w as int), row(i, w as int), chan(i))]),
        decreases h - y,
    {
        let mut x: usize = 0;
        while x < w
            invariant
                x <= w,
                y < h,
                src@.len() == w * h * 3,
                w * h * 3 <= u32::MAX,
                w <= u32::MAX,
                dst@.len() == place(w as int, x as int, y as int, 0),
                forall|i: int| 0 <= i < dst@.len() ==> dst@[i] == f(i),
                f == (|i: int|
                    src@[place(w as int, w - 1 - col(i, w as int), row(i, w as int), chan(i))]),
            decreases w - x,
        {
            proof {
                lemma_place(w as int, h as int, w - 1 - x, y as int, 0);
                lemma_place(w as int, h as int, w - 1 - x, y as int, 2);
                lemma_place(w as int, h as int, x as int, y as int, 0);
                lemma_place(w as int, h as int, x as int, y as int, 1);
                lemma_place(w as int, h as int, x as int, y as int, 2);
                assert(0 <= y * w) by (nonlinear_arith)
                    requires
                        y >= 0,
                        w >= 0,
                ;
            }
            let s: usize = (y * w + (w - 1 - x)) * 3;
            dst.push(src[s]);
            dst.push(src[s + 1]);
            dst.push(src[s + 2]);
            x = x + 1;
        }
        proof {
            lemma_row_end(w as int, y as int);
        }
        y = y + 1;
    }
    proof {
        assert(h * w * 3 == w * h * 3) by (nonlinear_arith);
        assert(dst@ =~= Seq::new(src@.len(), f));
    }
    dst
}

impl Clone for BgrImage {
    fn clone(&self) -> (r: Self)
        ensures
            r.width == self.width,
            r.height == self.height,
            r.data@ == self.data@,
    {
        let data: Vec<u8> = self.data.clone();
        assert(data@ =~= self.data@);
        BgrImage { width: self.width, height: self.height, data }
    }
}

/// Mirroring a picture twice gives the picture back.
pub proof fn lemma_mirror_involution(a: BgrImage, b: BgrImage)
    requires
        a.wf(),
        b.width == a.width,
        b.height == a.height,
        b.data@ == a.mirrored(),
    ensures
        b.mirrored() == a.data@,
{
    let w = a.width as int;
    let h = a.height as int;
    assert forall|i: int| 0 <= i < a.data@.len() implies b.mirrored()[i] == a.data@[i] by {
        if w == 0 {
            assert(w * h == 0) by (nonlinear_arith)
                requires
                    w == 0,
            ;
        }
        lemma_unplace(w, h, i);
        lemma_place(w, h, w - 1 - col(i, w), row(i, w), chan(i));
    }
    assert(b.mirrored() =~= a.data@);
}

/// What is written to a pixel is read back from it, and no other pixel changes.
pub proof fn lemma_set_then_get(a: BgrImage, b: BgrImage, x: int, y: int, v: Seq<u8>)
    requires
        a.wf(),
        a.holds(x, y),
        v.len() == 3,
        b.width == a.width,
        b.height == a.height,
        b.data@ == ({
            let i = place(a.width as int, x, y, 0);
            a.data@.update(i, v[0]).update(i + 1, v[1]).update(i + 2, v[2])
        }),
    ensures
        forall|c: int| 0 <= c < 3 ==> #[trigger] b.at(x, y, c) == v[c],
        forall|x2: int, y2: int, c: int|
            a.holds(x2, y2) && 0 <= c < 3 && (x2 != x || y2 != y) ==> #[trigger] b.at(x2, y2, c)
                == a.at(x2, y2, c),
{
    let w = a.width as int;
    let h = a.height as int;
    lemma_place(w, h, x, y, 0);
    lemma_place(w, h, x, y, 1);
    lemma_place(w, h, x, y, 2);
    assert forall|x2: int, y2: int, c: int|
        a.holds(x2, y2) && 0 <= c < 3 && (x2 != x || y2 != y) implies #[trigger] b.at(x2, y2, c)
        == a.at(x2, y2, c) by {
        lemma_place(w, h, x2, y2, c);
    }
}

/// The larger of a coordinate and zero.
pub open spec fn at_least_zero(x: int) -> int {
    if x < 0 {
        0
    } else {
        x
    }
}

/// `x`, cut off at zero below and at `limit` above.
pub open spec fn cut(x: int, limit: int) -> int {
    if x < 0 {
        0
    } else if x > limit {
        limit
    } else {
        x
    }
}

/// The extent of `from..to` after both ends were cut to `0..limit`, the start
/// below only.
pub open spec fn extent(from: int, to: int, limit: int) -> int {
    at_least_zero(cut(to, limit) - at_least_zero(from))
}

fn cut_axis(from: i32, to: i32, limit: u32) -> (r: (u32, u32))
    ensures
        r.0 == at_least_zero(from as int),
        r.1 == extent(from as int, to as int, limit as int),
        r.1 > 0 ==> r.0 + r.1 <= limit,
{
    let a: u32 = if from < 0 { 0 } else { from as u32 };
    let b: u32 = if to < 0 { 0 } else { to as u32 };
    let b: u32 = if b > limit { limit } else { b };
    (a, if b > a { b - a } else { 0 })
}

/// The part of a picture that `[x1, x2) x [y1, y2)` covers: its corner and size.
pub fn clamp_roi(bgr: &BgrImage, x1: i32, y1: i32, x2: i32, y2: i32) -> (r: (u32, u32, u32, u32))
    ensures
        r.0 == at_least_zero(x1 as int),
        r.1 == at_least_zero(y1 as int),
        r.2 == extent(x1 as int, x2 as int, bgr.width as int),
        r.3 == extent(y1 as int, y2 as int, bgr.height as int),
        r.2 > 0 ==> r.0 + r.2 <= bgr.width,
        r.3 > 0 ==> r.1 + r.3 <= bgr.height,
{
    let (x, w) = cut_axis(x1, x2, bgr.width);
    let (y, h) = cut_axis(y1, y2, bgr.height);
    (x, y, w, h)
}

/// Where a destination sample falls on the source axis.
pub struct Tap {
    /// The source sample before it.
    pub lo: u32,
    /// The source sample after it.
    pub hi: u32,
    /// How much of the sample after it is taken.
    pub weight: Single,
}

/// The word of one half.
pub const HALF: u32 = 0x3f00_0000;

/// The word of 255.
pub const FULL: u32 = 0x437f_0000;

/// The centre of destination sample `i` of `n_dst` on an axis of `n_src` samples.
pub open spec fn centre(i: int, n_src: int, n_dst: int) -> Single {
    (Single::from_int(i) + single::of(HALF)) * (Single::from_int(n_src) / Single::from_int(
        n_dst,
    )) - single::of(HALF)
}

/// The source sample before a destination sample.
pub open spec fn tap_lo(i: int, n_src: int, n_dst: int) -> int {
    centre(i, n_src, n_dst).floor().clamp(single::of(0), Single::from_int(n_src - 1)).to_int(
        0,
        u32::MAX as int,
    )
}

/// The source sample after a destination sample.
pub open spec fn tap_hi(i: int, n_src: int, n_dst: int) -> int {
    if tap_lo(i, n_src, n_dst) + 1 < n_src - 1 {
        tap_lo(i, n_src, n_dst) + 1
    } else {
        n_src - 1
    }
}

/// How much of the later source sample a destination sample takes.
pub open spec fn tap_weight(i: int, n_src: int, n_dst: int) -> Single {
    (centre(i, n_src, n_dst) - Single::from_int(tap_lo(i, n_src, n_dst))).clamp(
        single::of(0),
        single::of(single::ONE),
    )
}

/// The largest count that single precision holds exactly.
pub const AXIS_MAX: u32 = 0x100_0000;

/// Whether the last sample of an axis, as a number of single precision, lies on the axis.
pub open spec fn ends_inside(n: int) -> bool {
    Single::from_int(n - 1).to_int(0, u32::MAX as int) < n
}

/// Whether every destination sample has its source samples on the axis.
pub open spec fn taps_stay(n_src: int, n_dst: int) -> bool {
    forall|i: int| 0 <= i < n_dst ==> #[trigger] tap_lo(i, n_src, n_dst) < n_src
}

/// Whether resizing reads within the part: nothing is read of an empty one, a part that keeps its
/// size is copied, and else the source samples stay on their axes.
pub open spec fn reads_inside(cw: int, ch: int, dw: int, dh: int) -> bool {
    cw == 0 || ch == 0 || (cw == dw && ch == dh) || (taps_stay(cw, dw) && taps_stay(ch, dh))
}

/// Counts that single precision holds exactly end on their axis.
pub proof fn lemma_exact_end(n: int)
    requires
        0 < n <= AXIS_MAX,
    ensures
        ends_inside(n),
{
    facts::lemma_single_from_int(n - 1);
    facts::lemma_single_int_bound(Single::from_int(n - 1), n - 1, 0, u32::MAX as int);
}

/// Where an axis ends inside, no source sample lies past its end.
pub proof fn lemma_taps_stay(n_src: int, n_dst: int)
    requires
        0 < n_src <= u32::MAX,
        ends_inside(n_src),
    ensures
        taps_stay(n_src, n_dst),
{
    let last = Single::from_int(n_src - 1);
    facts::lemma_single_from_count(n_src - 1);
    assert forall|i: int| 0 <= i < n_dst implies #[trigger] tap_lo(i, n_src, n_dst) < n_src by {
        let c = centre(i, n_src, n_dst).floor().clamp(single::of(0), last);
        facts::lemma_single_int_order(c, last, u32::MAX as int);
    }
}

/// A part with sides that single precision counts exactly is read within.
pub proof fn lemma_reads_inside(cw: int, ch: int, dw: int, dh: int)
    requires
        0 <= cw <= AXIS_MAX,
        0 <= ch <= AXIS_MAX,
    ensures
        reads_inside(cw, ch, dw, dh),
{
    if cw > 0 && ch > 0 {
        lemma_exact_end(cw);
        lemma_exact_end(ch);
        lemma_taps_stay(cw, dw);
        lemma_taps_stay(ch, dh);
    }
}

/// The source samples around a destination sample.
pub fn tap(i: u32, n_src: u32, n_dst: u32) -> (t: Tap)
    requires
        0 < n_src,
        tap_lo(i as int, n_src as int, n_dst as int) < n_src,
    ensures
        t.lo == tap_lo(i as int, n_src as int, n_dst as int),
        t.hi == tap_hi(i as int, n_src as int, n_dst as int),
        t.weight == tap_weight(i as int, n_src as int, n_dst as int),
        t.lo <= t.hi < n_src,
{
    let scale: Single = single::from_u64(n_src as u64) / single::from_u64(n_dst as u64);
    let s: Single = (single::from_u64(i as u64) + single::of(HALF)) * scale - single::of(HALF);
    let last: Single = single::from_u64((n_src - 1) as u64);
    proof {
        facts::lemma_single_from_count(n_src - 1);
    }
    let c: Single = s.floor().clamp(single::of(0), last);
    let lo: u32 = c.to_u32();
    let hi: u32 = if lo + 1 < n_src - 1 { lo + 1 } else { n_src - 1 };
    let weight: Single = (s - single::from_u64(lo as u64)).clamp(
        single::of(0),
        single::of(single::ONE),
    );
    Tap { lo, hi, weight }
}

/// The byte nearest to a value.
pub open spec fn to_byte(v: Single) -> u8 {
    v.round().clamp(single::of(0), single::of(FULL)).to_int(0, 255) as u8
}

/// Rounds to the nearest byte.
pub fn byte_of(v: Single) -> (r: u8)
    ensures
        r == to_byte(v),
{
    v.round().clamp(single::of(0), single::of(FULL)).to_u8()
}

/// The nearest integer to a number that is not below zero, from its value in units of the smallest
/// number; from the middle the larger one.
pub open spec fn nearest_int(v: int) -> int {
    (2 * v + pow2(149)) / (2 * pow2(149) as int)
}

/// The byte nearest to a number that is not below zero.
pub proof fn lemma_to_byte(v: Single)
    requires
        v.is_finite(),
        !v.minus(),
    ensures
        nearest_int(order::val(v)) >= 0,
        to_byte(v) as int == (if nearest_int(order::val(v)) < 255 {
            nearest_int(order::val(v))
        } else {
            255
        }),
{
    let u = pow2(149) as int;
    let x = order::val(v);
    let full = single::of(FULL);
    lemma2_to64();
    lemma_pow2_pos(149);
    lemma_pow2_adds(8, 141);
    lemma_pow2_adds(15, 134);
    lemma_pow2_unfold(150);
    order::lemma_units_at(133, 0xff_0000);
    assert(133 * pow2(23) + 0xff_0000 == FULL);
    lemma_pow2_adds(16, 133);
    order::lemma_val_sign(v);
    assert(order::val(full) == 255 * u && full.is_finite());
    let zero = single::of(0);
    assert(order::val(zero) == 0) by {
        assert(round::units(0, 24) == 0);
    }
    if x < 256 * u {
        order::lemma_round_value(v);
        let (r, n) = (v.round(), nearest_int(x));
        order::lemma_val_order(r, zero);
        order::lemma_val_order(full, r);
        assert(n <= 254 ==> n * u <= 254 * u) by (nonlinear_arith)
            requires
                u > 0,
        ;
        assert(n >= 255 ==> n * u >= 255 * u) by (nonlinear_arith)
            requires
                u > 0,
        ;
        let c = r.clamp(zero, full);
        let m: int = if n < 255 {
            n
        } else {
            255
        };
        assert(order::val(c) == m * u);
        assert(!c.minus()) by {
            order::lemma_val_sign(c);
        }
        reveal(Single::to_int);
        lemma_fundamental_div_mod_converse(m * u, u, m, 0);
    } else {
        lemma_fundamental_div_mod(2 * x + u, 2 * u);
        lemma_mod_bound(2 * x + u, 2 * u);
        let n = nearest_int(x);
        assert(n >= 255) by (nonlinear_arith)
            requires
                2 * x + u == (2 * u) * n + (2 * x + u) % (2 * u),
                (2 * x + u) % (2 * u) < 2 * u,
                x >= 256 * u,
                u > 0,
        ;
        lemma_round_large(v);
        let r = v.round();
        order::lemma_val_order(full, full);
        assert(r.clamp(zero, full).key() == full.key());
        assert(r.clamp(zero, full) == full || r.clamp(zero, full) == r);
        reveal(Single::to_int);
        lemma_fundamental_div_mod_converse(255 * u, u, 255, 0);
    }
}

/// A number of 256 or more is more than 255 when rounded to an integer.
proof fn lemma_round_large(v: Single)
    requires
        v.is_finite(),
        !v.minus(),
        order::val(v) >= 256 * pow2(149),
    ensures
        v.round().gt(single::of(FULL)),
{
    let u = pow2(149) as int;
    let f = single::layout();
    let x = order::val(v);
    reveal(Single::integral_spec);
    reveal(Single::from_int);
    lemma2_to64();
    lemma_pow2_pos(149);
    let q = x / u;
    lemma_fundamental_div_mod(x, u);
    lemma_mod_bound(x, u);
    assert(q >= 256) by (nonlinear_arith)
        requires
            x == u * q + x % u,
            0 <= x % u < u,
            x >= 256 * u,
    ;
    order::lemma_count_order(256, q);
    order::lemma_count_order(256, q + 1);
    let top = Single::from_int(256);
    facts::lemma_single_from_int(256);
    facts::lemma_single_from_int(255);
    order::lemma_units_at(133, 0xff_0000);
    assert(133 * pow2(23) + 0xff_0000 == FULL);
    lemma_pow2_adds(16, 133);
    order::lemma_val_order(single::of(FULL), top);
    order::lemma_val_order(single::of(FULL), v);
    assert(top.gt(single::of(FULL)));
}

/// A larger number gives no smaller byte.
pub proof fn lemma_to_byte_rises(v: Single, w: Single)
    requires
        v.is_finite(),
        w.is_finite(),
        single::of(0).le(v),
        !v.minus(),
        v.le(w),
    ensures
        to_byte(v) <= to_byte(w),
{
    let u = pow2(149) as int;
    lemma_pow2_pos(149);
    order::lemma_val_order(v, w);
    order::lemma_val_sign(v);
    if w.minus() {
        assert(v.mag() == 0 && w.mag() == 0);
        lemma_zero_byte(v);
        lemma_zero_byte(w);
    } else {
        lemma_to_byte(v);
        lemma_to_byte(w);
        lemma_div_is_ordered(2 * order::val(v) + u, 2 * order::val(w) + u, 2 * u);
    }
}

proof fn lemma_zero_byte(v: Single)
    requires
        v.mag() == 0,
    ensures
        to_byte(v) == 0,
{
    reveal(Single::integral_spec);
    reveal(Single::to_int);
    lemma2_to64();
    lemma_pow2_pos(149);
    assert(round::units(0, 24) == 0);
    lemma_fundamental_div_mod_converse(0, pow2(149) as int, 0, 0);
}

/// Four neighbouring samples, weighted by how close they are.
pub open spec fn mix_value(p00: u8, p10: u8, p01: u8, p11: u8, wx: Single, wy: Single) -> Single {
    let one = single::of(single::ONE);
    Single::from_int(p00 as int) * (one - wx) * (one - wy) + Single::from_int(p10 as int) * wx * (
    one - wy) + Single::from_int(p01 as int) * (one - wx) * wy + Single::from_int(p11 as int) * wx
        * wy
}

/// The byte nearest to four neighbouring samples, weighted.
pub open spec fn mix(p00: u8, p10: u8, p01: u8, p11: u8, wx: Single, wy: Single) -> u8 {
    to_byte(mix_value(p00, p10, p01, p11, wx, wy))
}

/// Weighs four neighbouring samples.
pub fn mixed_value(p00: u8, p10: u8, p01: u8, p11: u8, wx: Single, wy: Single) -> (r: Single)
    ensures
        r == mix_value(p00, p10, p01, p11, wx, wy),
{
    let one: Single = single::of(single::ONE);
    single::from_u64(p00 as u64) * (one - wx) * (one - wy) + single::from_u64(p10 as u64) * wx * (
    one - wy) + single::from_u64(p01 as u64) * (one - wx) * wy + single::from_u64(p11 as u64) * wx
        * wy
}

/// Weighs four neighbouring samples to a byte.
pub fn mixed(p00: u8, p10: u8, p01: u8, p11: u8, wx: Single, wy: Single) -> (r: u8)
    ensures
        r == mix(p00, p10, p01, p11, wx, wy),
{
    byte_of(mixed_value(p00, p10, p01, p11, wx, wy))
}

/// A sample times two shares, against the shares that they stand for.
proof fn lemma_mixed_term(p: u8, a: Single, b: Single, x: int, y: int)
    requires
        a.is_finite(),
        b.is_finite(),
        0 <= x <= pow2(149),
        0 <= y <= pow2(149),
        -pow2(125) <= order::val(a) - x <= pow2(125),
        -pow2(125) <= order::val(b) - y <= pow2(125),
    ensures
        ({
            let t = Single::from_int(p as int) * a * b;
            let ideal = p * (x * y);
            &&& t.is_finite()
            &&& -pow2(158) < order::val(t) < pow2(158)
            &&& -(pow2(149) * pow2(136)) <= order::val(t) * pow2(149) - ideal <= pow2(149) * pow2(136)
        }),
{
    let u = pow2(149) as int;
    let g = pow2(125) as int;
    let h = Single::from_int(p as int);
    let (va, vb) = (order::val(a), order::val(b));
    lemma2_to64();
    lemma_pow2_pos(125);
    lemma_pow2_adds(24, 125);
    lemma_pow2_adds(7, 125);
    lemma_pow2_adds(8, 125);
    lemma_pow2_adds(9, 125);
    lemma_pow2_adds(11, 125);
    lemma_pow2_adds(32, 125);
    lemma_pow2_unfold(158);
    facts::lemma_single_from_int(p as int);
    let vp = order::val(h);
    assert(vp == p * u);
    assert(vp * va == (p * va) * u) by (nonlinear_arith)
        requires
            vp == p * u,
    ;
    let k = p * va;
    assert(-256 * g <= k - p * x <= 256 * g && 0 <= p * x <= 255 * u) by (nonlinear_arith)
        requires
            k == p * va,
            -g <= va - x <= g,
            0 <= p <= 255,
            0 <= x <= u,
            g > 0,
    ;
    assert(-(pow2(157) * u) < k * u < pow2(157) * u) by (nonlinear_arith)
        requires
            -256 * g <= k <= 255 * u + 256 * g,
            u == 0x100_0000 * g,
            pow2(157) == 0x1_0000_0000 * g,
            g > 0,
    ;
    order::lemma_product_close(h, a, 157);
    let m = order::val(h * a);
    assert(pow2(133) == 256 * g && pow2(132) == 128 * g && pow2(134) == 512 * g && pow2(136) == 2048 * g);
    assert(-128 * g <= m - k <= 128 * g) by (nonlinear_arith)
        requires
            2 * (m * u - k * u) <= u * (256 * g),
            2 * (k * u - m * u) <= u * (256 * g),
            u > 0,
    ;
    let d = m - p * x;
    assert(-384 * g <= d <= 384 * g);
    assert(-(300 * (u * u)) < m * vb < 300 * (u * u)) by (nonlinear_arith)
        requires
            -384 * g <= m <= 255 * u + 384 * g,
            -g <= vb <= u + g,
            u == 0x100_0000 * g,
            g > 0,
    ;
    assert(pow2(158) * u == 512 * (u * u) && u * u > 0) by (nonlinear_arith)
        requires
            pow2(158) == 512 * u,
            u > 0,
    ;
    order::lemma_product_close(h * a, b, 158);
    let t = order::val(h * a * b);
    assert(2 * (t * u - m * vb) <= u * (512 * g) && 2 * (m * vb - t * u) <= u * (512 * g));
    let e = vb - y;
    assert(m * vb == p * (x * y) + (p * x) * e + d * vb) by (nonlinear_arith)
        requires
            d == m - p * x,
            e == vb - y,
    ;
    assert(-(255 * (u * g)) <= (p * x) * e <= 255 * (u * g)) by (nonlinear_arith)
        requires
            0 <= p * x <= 255 * u,
            -g <= e <= g,
            g > 0,
    ;
    assert(-(768 * (u * g)) <= d * vb <= 768 * (u * g)) by (nonlinear_arith)
        requires
            -384 * g <= d <= 384 * g,
            -2 * u <= vb <= 2 * u,
            g > 0,
    ;
    assert(u * (512 * g) == 512 * (u * g) && u * (2048 * g) == 2048 * (u * g)) by (nonlinear_arith);
    assert(-(u * (2048 * g)) <= t * u - p * (x * y) <= u * (2048 * g));
    assert(-pow2(158) < t < pow2(158)) by (nonlinear_arith)
        requires
            2 * (t * u - m * vb) <= u * (512 * g),
            2 * (m * vb - t * u) <= u * (512 * g),
            -(300 * (u * u)) < m * vb < 300 * (u * u),
            u == 0x100_0000 * g,
            pow2(158) == 512 * u,
            g > 0,
    ;
}

/// Four samples mixed give a byte no smaller than the least of them and no larger than the largest.
pub proof fn lemma_mix_range(p00: u8, p10: u8, p01: u8, p11: u8, wx: Single, wy: Single, lo: u8, hi: u8)
    requires
        single::of(0).le(wx),
        wx.le(single::of(single::ONE)),
        single::of(0).le(wy),
        wy.le(single::of(single::ONE)),
        lo <= p00 <= hi,
        lo <= p10 <= hi,
        lo <= p01 <= hi,
        lo <= p11 <= hi,
    ensures
        lo <= mix(p00, p10, p01, p11, wx, wy) <= hi,
{
    let u = pow2(149) as int;
    let one = single::of(single::ONE);
    lemma2_to64();
    lemma_pow2_pos(136);
    lemma_pow2_adds(13, 136);
    lemma_pow2_adds(22, 136);
    lemma_pow2_adds(24, 136);
    lemma_pow2_unfold(126);
    lemma_pow2_unfold(150);
    lemma_pow2_unfold(159);
    lemma_pow2_unfold(160);
    lemma_pow2_unfold(161);
    lemma_pow2_unfold(136);
    lemma_pow2_unfold(137);
    facts::lemma_single_one();
    order::lemma_val_order(single::of(0), wx);
    order::lemma_val_order(wx, one);
    order::lemma_val_order(single::of(0), wy);
    order::lemma_val_order(wy, one);
    let (x, y) = (order::val(wx), order::val(wy));
    assert(0 <= x <= u && 0 <= y <= u) by {
        assert(round::units(0, 24) == 0);
    }
    order::lemma_val_negated(wx);
    order::lemma_val_negated(wy);
    order::lemma_sum_close(one, wx.negated(), 150);
    order::lemma_sum_close(one, wy.negated(), 150);
    let (cx, cy) = (one - wx, one - wy);
    lemma_mixed_term(p00, cx, cy, u - x, u - y);
    lemma_mixed_term(p10, wx, cy, x, u - y);
    lemma_mixed_term(p01, cx, wy, u - x, y);
    lemma_mixed_term(p11, wx, wy, x, y);
    let a = Single::from_int(p00 as int) * cx * cy;
    let b = Single::from_int(p10 as int) * wx * cy;
    let c = Single::from_int(p01 as int) * cx * wy;
    let d = Single::from_int(p11 as int) * wx * wy;
    order::lemma_sum_close(a, b, 161);
    order::lemma_sum_close(a + b, c, 161);
    order::lemma_sum_close(a + b + c, d, 161);
    let v = mix_value(p00, p10, p01, p11, wx, wy);
    let e = pow2(136) as int;
    let sum = order::val(a) + order::val(b) + order::val(c) + order::val(d);
    assert(-3 * e <= order::val(v) - sum <= 3 * e);
    let (k00, k10, k01, k11) = ((u - x) * (u - y), x * (u - y), (u - x) * y, x * y);
    let s = p00 * k00 + p10 * k10 + p01 * k01 + p11 * k11;
    assert(lo * (u * u) <= s <= hi * (u * u)) by (nonlinear_arith)
        requires
            s == p00 * k00 + p10 * k10 + p01 * k01 + p11 * k11,
            k00 == (u - x) * (u - y),
            k10 == x * (u - y),
            k01 == (u - x) * y,
            k11 == x * y,
            0 <= x <= u,
            0 <= y <= u,
            lo <= p00 <= hi,
            lo <= p10 <= hi,
            lo <= p01 <= hi,
            lo <= p11 <= hi,
    ;
    assert(sum * u == order::val(a) * u + order::val(b) * u + order::val(c) * u + order::val(d) * u)
        by (nonlinear_arith)
        requires
            sum == order::val(a) + order::val(b) + order::val(c) + order::val(d),
    ;
    assert(-(4 * (u * e)) <= sum * u - s <= 4 * (u * e));
    let z = order::val(v);
    assert(lo * u - 7 * e <= z <= hi * u + 7 * e) by (nonlinear_arith)
        requires
            lo * (u * u) <= s <= hi * (u * u),
            -(4 * (u * e)) <= sum * u - s <= 4 * (u * e),
            -3 * e <= z - sum <= 3 * e,
            u > 0,
    ;
    lemma_byte_between(v, lo, hi);
}

/// A number close to between two bytes rounds to between them.
proof fn lemma_byte_between(v: Single, lo: u8, hi: u8)
    requires
        v.is_finite(),
        lo <= hi,
        lo * pow2(149) - 7 * pow2(136) <= order::val(v) <= hi * pow2(149) + 7 * pow2(136),
    ensures
        lo <= to_byte(v) <= hi,
{
    let u = pow2(149) as int;
    let z = order::val(v);
    lemma2_to64();
    lemma_pow2_pos(136);
    lemma_pow2_adds(13, 136);
    if v.minus() {
        order::lemma_val_sign(v);
        assert(lo == 0) by (nonlinear_arith)
            requires
                lo * u - 7 * pow2(136) <= z,
                z <= 0,
                u == 0x2000 * pow2(136),
                pow2(136) > 0,
        ;
        assert(round::units(0, 24) == 0);
        lemma_minus_byte(v);
    } else {
        order::lemma_val_sign(v);
        lemma_to_byte(v);
        let n = nearest_int(z);
        lemma_fundamental_div_mod(2 * z + u, 2 * u);
        lemma_mod_bound(2 * z + u, 2 * u);
        assert(lo <= n <= hi) by (nonlinear_arith)
            requires
                2 * z + u == (2 * u) * n + (2 * z + u) % (2 * u),
                0 <= (2 * z + u) % (2 * u) < 2 * u,
                lo * u - 7 * pow2(136) <= z <= hi * u + 7 * pow2(136),
                u == 0x2000 * pow2(136),
                pow2(136) > 0,
        ;
    }
}

proof fn lemma_minus_byte(v: Single)
    requires
        v.is_finite(),
        v.minus(),
    ensures
        to_byte(v) == 0,
{
    reveal(Single::integral_spec);
    reveal(Single::to_int);
    let r = v.round();
    lemma2_to64();
    lemma_pow2_pos(149);
    assert(round::units(0, 24) == 0);
    lemma_fundamental_div_mod_converse(0, pow2(149) as int, 0, 0);
    assert(r.is_nan() || r.key() <= 0);
    assert(!r.is_nan());
}

/// The weight of a later source sample lies between nothing and one.
pub proof fn lemma_tap_weight(i: int, n_src: int, n_dst: int)
    requires
        0 <= i < n_dst <= u32::MAX,
        0 < n_src <= u32::MAX,
    ensures
        single::of(0).le(tap_weight(i, n_src, n_dst)),
        tap_weight(i, n_src, n_dst).le(single::of(single::ONE)),
{
    let half = single::of(HALF);
    let lo = tap_lo(i, n_src, n_dst);
    let u = pow2(149) as int;
    lemma2_to64();
    assert(0 <= lo <= u32::MAX) by {
        reveal(Single::to_int);
    }
    order::lemma_count_value(i);
    order::lemma_count_value(n_src);
    order::lemma_count_value(lo);
    order::lemma_ratio_value(Single::from_int(n_src), n_dst);
    assert(half.is_finite() && 0 <= order::val(half) <= u && half.mag() == HALF as u64) by {
        facts::lemma_single_one();
        order::lemma_val_order(single::of(0), half);
        order::lemma_val_order(half, single::of(single::ONE));
        assert(round::units(0, 24) == 0);
    }
    order::lemma_val_negated(half);
    lemma_pow2_pos(149);
    lemma_pow2_pos(218);
    round::lemma_pow2_monotone(195, 219);
    round::lemma_pow2_monotone(149, 181);
    lemma_pow2_unfold(182);
    lemma_pow2_unfold(183);
    lemma_pow2_unfold(184);
    round::lemma_pow2_monotone(184, 219);
    lemma_pow2_unfold(220);
    lemma_pow2_unfold(221);
    lemma_pow2_unfold(222);
    let a = Single::from_int(i) + half;
    order::lemma_sum_close(Single::from_int(i), half, 183);
    round::lemma_pow2_monotone(159, 182);
    let b = Single::from_int(n_src) / Single::from_int(n_dst);
    let (va, vb) = (order::val(a), order::val(b));
    lemma_pow2_adds(184, 183);
    lemma_pow2_adds(218, 149);
    lemma_pow2_unfold(219);
    assert(-(pow2(219) * pow2(149)) < va * vb < pow2(219) * pow2(149)) by (nonlinear_arith)
        requires
            -pow2(184) < va < pow2(184),
            0 <= vb < pow2(183),
            pow2(184) * pow2(183) == pow2(218) * pow2(149),
            pow2(219) == 2 * pow2(218),
            pow2(149) > 0,
            pow2(218) > 0,
    ;
    order::lemma_product_close(a, b, 219);
    let p = a * b;
    assert(-pow2(220) < order::val(p) < pow2(220)) by (nonlinear_arith)
        requires
            2 * (order::val(p) * pow2(149) - va * vb) <= pow2(149) * pow2(195),
            2 * (va * vb - order::val(p) * pow2(149)) <= pow2(149) * pow2(195),
            -(pow2(219) * pow2(149)) < va * vb < pow2(219) * pow2(149),
            pow2(195) <= pow2(219),
            pow2(220) == 2 * pow2(219),
            pow2(149) > 0,
    ;
    order::lemma_sum_close(p, half.negated(), 221);
    let c = centre(i, n_src, n_dst);
    let l = Single::from_int(lo);
    order::lemma_val_negated(l);
    round::lemma_pow2_monotone(197, 220);
    order::lemma_sum_close(c, l.negated(), 222);
}

/// A resized sample lies between the least and the largest sample of the part that it was resized
/// from.
pub proof fn lemma_resize_range(
    src: Seq<u8>,
    width: int,
    x0: int,
    y0: int,
    cw: int,
    ch: int,
    dw: int,
    dh: int,
    x: int,
    y: int,
    c: int,
    lo: u8,
    hi: u8,
)
    requires
        0 < cw <= u32::MAX,
        0 < ch <= u32::MAX,
        0 <= x < dw <= u32::MAX,
        0 <= y < dh <= u32::MAX,
        reads_inside(cw, ch, dw, dh),
        forall|i: int, j: int|
            0 <= i < cw && 0 <= j < ch ==> lo <= #[trigger] src[place(width, x0 + i, y0 + j, c)] <= hi,
    ensures
        lo <= resized_at(src, width, x0, y0, cw, ch, dw, dh, x, y, c) <= hi,
{
    if !(cw == dw && ch == dh) {
        lemma_tap_range(x, cw, dw);
        lemma_tap_range(y, ch, dh);
        lemma_tap_weight(x, cw, dw);
        lemma_tap_weight(y, ch, dh);
        let (xl, xh) = (tap_lo(x, cw, dw), tap_hi(x, cw, dw));
        let (yl, yh) = (tap_lo(y, ch, dh), tap_hi(y, ch, dh));
        lemma_mix_range(
            src[place(width, x0 + xl, y0 + yl, c)],
            src[place(width, x0 + xh, y0 + yl, c)],
            src[place(width, x0 + xl, y0 + yh, c)],
            src[place(width, x0 + xh, y0 + yh, c)],
            tap_weight(x, cw, dw),
            tap_weight(y, ch, dh),
            lo,
            hi,
        );
    }
}

/// One sample of the part of a picture with corner `(x0, y0)` and size `cw x ch`,
/// resized to `dw x dh`: the sample itself where the size stays, else the four
/// neighbours mixed.
pub open spec fn resized_at(
    src: Seq<u8>,
    width: int,
    x0: int,
    y0: int,
    cw: int,
    ch: int,
    dw: int,
    dh: int,
    x: int,
    y: int,
    c: int,
) -> u8 {
    if cw == dw && ch == dh {
        src[place(width, x0 + x, y0 + y, c)]
    } else {
        let xl = x0 + tap_lo(x, cw, dw);
        let xh = x0 + tap_hi(x, cw, dw);
        let yl = y0 + tap_lo(y, ch, dh);
        let yh = y0 + tap_hi(y, ch, dh);
        mix(
            src[place(width, xl, yl, c)],
            src[place(width, xh, yl, c)],
            src[place(width, xl, yh, c)],
            src[place(width, xh, yh, c)],
            tap_weight(x, cw, dw),
            tap_weight(y, ch, dh),
        )
    }
}

/// The bytes of the resized part of a picture; all zero where the part is empty.
pub open spec fn resized(
    src: Seq<u8>,
    width: int,
    x0: int,
    y0: int,
    cw: int,
    ch: int,
    dw: int,
    dh: int,
) -> Seq<u8> {
    Seq::new(
        (dw * dh * 3) as nat,
        |i: int|
            if cw == 0 || ch == 0 {
                0
            } else {
                resized_at(src, width, x0, y0, cw, ch, dw, dh, col(i, dw), row(i, dw), chan(i))
            },
    )
}

/// Where a pixel starts.
pub fn pixel_place(w: u32, h: u32, x: u32, y: u32) -> (i: usize)
    requires
        x < w,
        y < h,
        w * h * 3 <= u32::MAX,
    ensures
        i == place(w as int, x as int, y as int, 0),
        i + 2 < w * h * 3,
{
    proof {
        lemma_place(w as int, h as int, x as int, y as int, 0);
        lemma_place(w as int, h as int, x as int, y as int, 2);
        assert(0 <= y * w) by (nonlinear_arith)
            requires
                y >= 0,
                w >= 0,
        ;
    }
    ((y * w + x) * 3) as usize
}

/// Takes `[x1, x2) x [y1, y2)` out of a picture and resizes it into the first
/// `dw * dh * 3` bytes of `dst`. Nothing is written where `dst` is too short
/// for them.
pub fn resize_roi_into(
    src: &[u8],
    width: u32,
    height: u32,
    x1: i32,
    y1: i32,
    x2: i32,
    y2: i32,
    dw: u32,
    dh: u32,
    dst: &mut [u8],
)
    requires
        dw * dh * 3 <= old(dst)@.len() && extent(x1 as int, x2 as int, width as int) > 0 && extent(
            y1 as int,
            y2 as int,
            height as int,
        ) > 0 && dw > 0 && dh > 0 ==> {
            &&& src@.len() >= width * height * 3
            &&& width * height * 3 <= u32::MAX
            &&& dw * dh * 3 <= u32::MAX
            &&& reads_inside(
                extent(x1 as int, x2 as int, width as int),
                extent(y1 as int, y2 as int, height as int),
                dw as int,
                dh as int,
            )
        },
    ensures
        final(dst)@.len() == old(dst)@.len(),
        final(dst)@ == (if old(dst)@.len() < dw * dh * 3 {
            old(dst)@
        } else {
            resized(
                src@,
                width as int,
                at_least_zero(x1 as int),
                at_least_zero(y1 as int),
                extent(x1 as int, x2 as int, width as int),
                extent(y1 as int, y2 as int, height as int),
                dw as int,
                dh as int,
            ) + old(dst)@.skip(dw * dh * 3)
        }),
{
    proof {
        assert(0 <= dw * dh <= 0xffff_ffff * 0xffff_ffff) by (nonlinear_arith)
            requires
                0 <= dw <= 0xffff_ffff,
                0 <= dh <= 0xffff_ffff,
        ;
        assert(dw == 0 || dh == 0 ==> dw * dh == 0) by (nonlinear_arith);
    }
    let len: usize = dst.len();
    let wanted: u128 = dw as u128 * dh as u128 * 3;
    if dw == 0 || dh == 0 || (len as u128) < wanted {
        assert(dst@ =~= Seq::<u8>::empty() + dst@.skip(0));
        assert(dw == 0 || dh == 0 ==> resized(
            src@,
            width as int,
            at_least_zero(x1 as int),
            at_least_zero(y1 as int),
            extent(x1 as int, x2 as int, width as int),
            extent(y1 as int, y2 as int, height as int),
            dw as int,
            dh as int,
        ) =~= Seq::empty());
        return;
    }
    let need: usize = wanted as usize;
    let (x0, cw) = cut_axis(x1, x2, width);
    let (y0, ch) = cut_axis(y1, y2, height);
    let ghost all = resized(
        src@,
        width as int,
        x0 as int,
        y0 as int,
        cw as int,
        ch as int,
        dw as int,
        dh as int,
    );
    if cw == 0 || ch == 0 {
        let mut i: usize = 0;
        while i < need
            invariant
                i <= need == all.len(),
                dst@.len() == old(dst)@.len(),
                need <= dst@.len(),
                cw == 0 || ch == 0,
                all == resized(
                    src@,
                    width as int,
                    x0 as int,
                    y0 as int,
                    cw as int,
                    ch as int,
                    dw as int,
                    dh as int,
                ),
                forall|j: int| 0 <= j < i ==> dst@[j] == all[j],
                forall|j: int| i <= j < dst@.len() ==> dst@[j] == old(dst)@[j],
            decreases need - i,
        {
            dst[i] = 0;
            i = i + 1;
        }
        assert(dst@ =~= all + old(dst)@.skip(need as int));
        return;
    }
    let whole: bool = cw == dw && ch == dh;
    let mut y: u32 = 0;
    let mut o: usize = 0;
    while y < dh
        invariant
            y <= dh,
            o == place(dw as int, 0, y as int, 0),
            src@.len() >= width * height * 3,
            width * height * 3 <= u32::MAX,
            dw * dh * 3 == need <= dst@.len(),
            need <= u32::MAX,
            0 < cw,
            0 < ch,
            whole || taps_stay(cw as int, dw as int) && taps_stay(ch as int, dh as int),
            x0 + cw <= width,
            y0 + ch <= height,
            whole == (cw == dw && ch == dh),
            all == resized(
                src@,
                width as int,
                x0 as int,
                y0 as int,
                cw as int,
                ch as int,
                dw as int,
                dh as int,
            ),
            dst@.len() == old(dst)@.len(),
            forall|j: int| 0 <= j < o ==> dst@[j] == all[j],
            forall|j: int| o <= j < dst@.len() ==> dst@[j] == old(dst)@[j],
        decreases dh - y,
    {
        let ty: Tap = if whole { Tap { lo: 0, hi: 0, weight: single::of(0) } } else { tap(y, ch, dh) };
        let mut x: u32 = 0;
        while x < dw
            invariant
                x <= dw,
                y < dh,
                o == place(dw as int, x as int, y as int, 0),
                src@.len() >= width * height * 3,
                width * height * 3 <= u32::MAX,
                dw * dh * 3 == need <= dst@.len(),
                need <= u32::MAX,
                0 < cw,
                0 < ch,
                whole || taps_stay(cw as int, dw as int) && taps_stay(ch as int, dh as int),
                x0 + cw <= width,
                y0 + ch <= height,
                whole == (cw == dw && ch == dh),
                !whole ==> {
                    &&& ty.lo == tap_lo(y as int, ch as int, dh as int)
                    &&& ty.hi == tap_hi(y as int, ch as int, dh as int)
                    &&& ty.weight == tap_weight(y as int, ch as int, dh as int)
                    &&& ty.lo <= ty.hi < ch
                },
                all == resized(
                    src@,
                    width as int,
                    x0 as int,
                    y0 as int,
                    cw as int,
                    ch as int,
                    dw as int,
                    dh as int,
                ),
                dst@.len() == old(dst)@.len(),
                forall|j: int| 0 <= j < o ==> dst@[j] == all[j],
                forall|j: int| o <= j < dst@.len() ==> dst@[j] == old(dst)@[j],
            decreases dw - x,
        {
            proof {
                lemma_place(dw as int, dh as int, x as int, y as int, 0);
                lemma_place(dw as int, dh as int, x as int, y as int, 1);
                lemma_place(dw as int, dh as int, x as int, y as int, 2);
            }
            if whole {
                let s: usize = pixel_place(width, height, x0 + x, y0 + y);
                dst[o] = src[s];
                dst[o + 1] = src[s + 1];
                dst[o + 2] = src[s + 2];
            } else {
                let tx: Tap = tap(x, cw, dw);
                let i00: usize = pixel_place(width, height, x0 + tx.lo, y0 + ty.lo);
                let i10: usize = pixel_place(width, height, x0 + tx.hi, y0 + ty.lo);
                let i01: usize = pixel_place(width, height, x0 + tx.lo, y0 + ty.hi);
                let i11: usize = pixel_place(width, height, x0 + tx.hi, y0 + ty.hi);
                let wx: Single = tx.weight;
                let wy: Single = ty.weight;
                dst[o] = mixed(src[i00], src[i10], src[i01], src[i11], wx, wy);
                dst[o + 1] = mixed(src[i00 + 1], src[i10 + 1], src[i01 + 1], src[i11 + 1], wx, wy);
                dst[o + 2] = mixed(src[i00 + 2], src[i10 + 2], src[i01 + 2], src[i11 + 2], wx, wy);
            }
            o = o + 3;
            x = x + 1;
        }
        proof {
            lemma_row_end(dw as int, y as int);
        }
        y = y + 1;
    }
    proof {
        assert(dh * dw * 3 == dw * dh * 3) by (nonlinear_arith);
        assert(dst@ =~= all + old(dst)@.skip(need as int));
    }
}

/// The sides of a picture that is not empty are signed words too.
proof fn lemma_sides(im: BgrImage)
    requires
        im.wf(),
    ensures
        im.width > 0 && im.height > 0 ==> im.width <= i32::MAX && im.height <= i32::MAX,
{
    let (w, h) = (im.width as int, im.height as int);
    if w > 0 && h > 0 {
        assert(w <= w * h && h <= w * h) by (nonlinear_arith)
            requires
                w > 0,
                h > 0,
        ;
    }
}

/// Bilinear resize about pixel centres; the picture itself where the size stays.
pub fn resize_bgr(bgr: &BgrImage, dw: u32, dh: u32) -> (r: BgrImage)
    requires
        bgr.wf(),
        dw * dh * 3 <= u32::MAX,
        reads_inside(bgr.width as int, bgr.height as int, dw as int, dh as int),
    ensures
        r.wf(),
        dw == 0 || dh == 0 ==> r.width == 0 && r.height == 0,
        dw > 0 && dh > 0 ==> r.width == dw && r.height == dh && r.data@ == resized(
            bgr.data@,
            bgr.width as int,
            0,
            0,
            bgr.width as int,
            bgr.height as int,
            dw as int,
            dh as int,
        ),
        dw == bgr.width && dh == bgr.height && dw > 0 && dh > 0 ==> r.data@ == bgr.data@,
{
    if dw == 0 || dh == 0 {
        let none: BgrImage = BgrImage { width: 0, height: 0, data: Vec::new() };
        assert(none.area() == 0) by (nonlinear_arith)
            requires
                none.area() == none.width * none.height * 3,
                none.width == 0,
        ;
        return none;
    }
    if dw == bgr.width && dh == bgr.height {
        proof {
            let all = resized(
                bgr.data@,
                bgr.width as int,
                0,
                0,
                bgr.width as int,
                bgr.height as int,
                dw as int,
                dh as int,
            );
            assert forall|i: int| 0 <= i < all.len() implies all[i] == bgr.data@[i] by {
                lemma_unplace(dw as int, dh as int, i);
            }
            assert(all =~= bgr.data@);
        }
        return bgr.clone();
    }
    proof {
        assert(0 <= dw * dh <= u32::MAX) by (nonlinear_arith)
            requires
                dw >= 0,
                dh >= 0,
                dw * dh * 3 <= u32::MAX,
        ;
    }
    let mut data: Vec<u8> = vec![0u8; (dw * dh * 3) as usize];
    let ghost blank = data@;
    proof {
        lemma_sides(*bgr);
    }
    resize_roi_into(
        bgr.data.as_slice(),
        bgr.width,
        bgr.height,
        0,
        0,
        bgr.width as i32,
        bgr.height as i32,
        dw,
        dh,
        data.as_mut_slice(),
    );
    assert(blank.skip(dw * dh * 3) =~= Seq::<u8>::empty());
    BgrImage { width: dw, height: dh, data }
}

/// Row by row, the samples of columns `x..x + w`; a row that `data` does not hold
/// to its end is left out.
pub open spec fn rows_of(data: Seq<u8>, width: int, x: int, w: int, y: int, end: int) -> Seq<u8>
    decreases end - y,
{
    if y >= end {
        Seq::empty()
    } else {
        let s = place(width, x, y, 0);
        let here = if s + w * 3 <= data.len() {
            data.subrange(s, s + w * 3)
        } else {
            Seq::empty()
        };
        here + rows_of(data, width, x, w, y + 1, end)
    }
}

proof fn lemma_rows_step(data: Seq<u8>, width: int, x: int, w: int, y0: int, y: int)
    requires
        y0 <= y,
    ensures
        rows_of(data, width, x, w, y0, y + 1) == rows_of(data, width, x, w, y0, y) + rows_of(
            data,
            width,
            x,
            w,
            y,
            y + 1,
        ),
    decreases y - y0,
{
    assert(rows_of(data, width, x, w, y + 1, y + 1) =~= Seq::empty());
    if y0 < y {
        lemma_rows_step(data, width, x, w, y0 + 1, y);
        let a = rows_of(data, width, x, w, y0, y + 1);
        let b = rows_of(data, width, x, w, y0, y) + rows_of(data, width, x, w, y, y + 1);
        assert(a =~= b);
    } else {
        assert(rows_of(data, width, x, w, y0, y) =~= Seq::empty());
        assert(Seq::<u8>::empty() + rows_of(data, width, x, w, y, y + 1) =~= rows_of(
            data,
            width,
            x,
            w,
            y,
            y + 1,
        ));
    }
}

/// The part of packed rows that `[x1, x2) x [y1, y2)` covers.
pub fn crop_slice(
    data: &[u8],
    width: u32,
    height: u32,
    x1: i32,
    y1: i32,
    x2: i32,
    y2: i32,
) -> (r: BgrImage)
    requires
        width * height * 3 <= u32::MAX,
    ensures
        r.width == extent(x1 as int, x2 as int, width as int),
        r.height == extent(y1 as int, y2 as int, height as int),
        r.data@ == rows_of(
            data@,
            width as int,
            at_least_zero(x1 as int),
            r.width as int,
            at_least_zero(y1 as int),
            at_least_zero(y1 as int) + r.height,
        ),
{
    let (x, w) = cut_axis(x1, x2, width);
    let (y, h) = cut_axis(y1, y2, height);
    let mut out: Vec<u8> = Vec::new();
    let mut k: u32 = 0;
    proof {
        assert(rows_of(data@, width as int, x as int, w as int, y as int, y as int)
            =~= Seq::<u8>::empty());
    }
    while k < h
        invariant
            k <= h,
            h > 0 ==> y + h <= height,
            w > 0 ==> x + w <= width,
            width * height * 3 <= u32::MAX,
            out@ == rows_of(data@, width as int, x as int, w as int, y as int, y + k),
        decreases h - k,
    {
        proof {
            lemma_rows_step(data@, width as int, x as int, w as int, y as int, y + k);
            assert(rows_of(data@, width as int, x as int, w as int, y + k + 1, y + k + 1)
                =~= Seq::<u8>::empty());
        }
        let ghost here = rows_of(data@, width as int, x as int, w as int, y + k, y + k + 1);
        if w > 0 {
            let s: usize = pixel_place(width, height, x, y + k);
            proof {
                lemma_place(width as int, height as int, x + w - 1, y + k, 2);
            }
            let n: usize = (w as usize) * 3;
            if n <= data.len() && s <= data.len() - n {
                out.extend_from_slice(&data[s..s + n]);
                assert(here =~= data@.subrange(s as int, s + n));
            } else {
                assert(here =~= Seq::<u8>::empty());
            }
        } else {
            assert(here =~= Seq::<u8>::empty());
        }
        assert(out@ =~= rows_of(data@, width as int, x as int, w as int, y as int, y + k + 1));
        k = k + 1;
    }
    BgrImage { width: w, height: h, data: out }
}

/// In a full picture every row is there, so a crop holds the samples in place.
pub proof fn lemma_crop_samples(im: BgrImage, x: int, w: int, y: int, end: int)
    requires
        im.wf(),
        0 <= x,
        0 < w,
        x + w <= im.width,
        0 <= y <= end <= im.height,
    ensures
        rows_of(im.data@, im.width as int, x, w, y, end) == Seq::new(
            (w * (end - y) * 3) as nat,
            |i: int| im.at(x + col(i, w), y + row(i, w), chan(i)),
        ),
    decreases end - y,
{
    let width = im.width as int;
    let all = Seq::new(
        (w * (end - y) * 3) as nat,
        |i: int| im.at(x + col(i, w), y + row(i, w), chan(i)),
    );
    if y == end {
        assert(w * 0 == 0);
        assert(rows_of(im.data@, width, x, w, y, end) =~= all);
    } else {
        lemma_crop_samples(im, x, w, y + 1, end);
        lemma_place(width, im.height as int, x, y, 0);
        lemma_place(width, im.height as int, x + w - 1, y, 2);
        let s = place(width, x, y, 0);
        let here = im.data@.subrange(s, s + w * 3);
        let rest = rows_of(im.data@, width, x, w, y + 1, end);
        let n = w * (end - y) * 3;
        assert(n == w * 3 + w * (end - y - 1) * 3) by (nonlinear_arith)
            requires
                n == w * (end - y) * 3,
        ;
        assert forall|i: int| 0 <= i < n implies (here + rest)[i] == all[i] by {
            lemma_unplace(w, end - y, i);
            let r = row(i, w);
            let k = col(i, w);
            let c = chan(i);
            if i < w * 3 {
                assert(r == 0) by (nonlinear_arith)
                    requires
                        i == (r * w + k) * 3 + c,
                        0 <= i < w * 3,
                        0 <= k < w,
                        0 <= c,
                        0 <= r,
                ;
                assert(r * w == 0) by (nonlinear_arith)
                    requires
                        r == 0,
                ;
                assert(y + r == y);
                assert(place(width, x + k, y + r, c) == s + i);
            } else {
                let j = i - w * 3;
                assert(r >= 1) by (nonlinear_arith)
                    requires
                        i == (r * w + k) * 3 + c,
                        i >= w * 3,
                        k < w,
                        c < 3,
                        0 <= r,
                ;
                assert(j == place(w, k, r - 1, c)) by (nonlinear_arith)
                    requires
                        j == i - w * 3,
                        i == (r * w + k) * 3 + c,
                        place(w, k, r - 1, c) == ((r - 1) * w + k) * 3 + c,
                ;
                lemma_place(w, end - y - 1, k, r - 1, c);
                assert(rest[j] == im.at(x + k, y + 1 + (r - 1), c));
            }
        }
        assert(here + rest =~= all);
    }
}

/// The part of a picture that `[x1, x2) x [y1, y2)` covers.
pub fn crop_img(im: &BgrImage, x1: i32, y1: i32, x2: i32, y2: i32) -> (r: BgrImage)
    requires
        im.width * im.height * 3 <= u32::MAX,
    ensures
        r.width == extent(x1 as int, x2 as int, im.width as int),
        r.height == extent(y1 as int, y2 as int, im.height as int),
        r.data@ == rows_of(
            im.data@,
            im.width as int,
            at_least_zero(x1 as int),
            r.width as int,
            at_least_zero(y1 as int),
            at_least_zero(y1 as int) + r.height,
        ),
        im.wf() ==> r.wf(),
        im.wf() && r.width > 0 && r.height > 0 ==> r.data@ == Seq::new(
            (r.width * r.height * 3) as nat,
            |i: int|
                im.at(
                    at_least_zero(x1 as int) + col(i, r.width as int),
                    at_least_zero(y1 as int) + row(i, r.width as int),
                    chan(i),
                ),
        ),
{
    let r: BgrImage = crop_slice(im.data.as_slice(), im.width, im.height, x1, y1, x2, y2);
    proof {
        let x = at_least_zero(x1 as int);
        let y = at_least_zero(y1 as int);
        let w = r.width as int;
        let h = r.height as int;
        if im.wf() {
            if w > 0 && h > 0 {
                lemma_crop_samples(*im, x, w, y, y + h);
                assert(w * h <= im.width * im.height) by (nonlinear_arith)
                    requires
                        0 < w <= im.width,
                        0 < h <= im.height,
                ;
            } else if w == 0 {
                lemma_rows_none(im.data@, im.width as int, x, y, y + h);
                assert(w * h == 0) by (nonlinear_arith)
                    requires
                        w == 0,
                ;
            } else {
                assert(w * h == 0) by (nonlinear_arith)
                    requires
                        h == 0,
                ;
            }
        }
    }
    r
}

proof fn lemma_rows_none(data: Seq<u8>, width: int, x: int, y: int, end: int)
    requires
        0 <= x,
        0 <= y,
        0 <= width,
    ensures
        rows_of(data, width, x, 0, y, end).len() == 0,
    decreases end - y,
{
    if y < end {
        lemma_rows_none(data, width, x, y + 1, end);
        assert(0 <= y * width) by (nonlinear_arith)
            requires
                0 <= y,
                0 <= width,
        ;
    }
}

/// A gently patterned picture to put a face on.
pub fn synth_canvas(width: u32, height: u32) -> (r: BgrImage)
    requires
        width * height * 3 <= usize::MAX,
    ensures
        r.width == width,
        r.height == height,
        r.data@ == Seq::new((width * height * 3) as nat, |i: int| (42 + i % 7) as u8),
{
    assert(0 <= width * height <= usize::MAX) by (nonlinear_arith)
        requires
            width * height * 3 <= usize::MAX,
            width >= 0,
            height >= 0,
    ;
    let n: usize = width as usize * height as usize * 3;
    let mut data: Vec<u8> = Vec::new();
    let mut i: usize = 0;
    while i < n
        invariant
            i <= n,
            data@ == Seq::new(i as nat, |j: int| (42 + j % 7) as u8),
        decreases n - i,
    {
        data.push(42 + (i % 7) as u8);
        i = i + 1;
        assert(data@ =~= Seq::new(i as nat, |j: int| (42 + j % 7) as u8));
    }
    BgrImage { width, height, data }
}

/// The bytes of `dst` with `src` laid over it, its corner at `(x, y)`.
pub open spec fn pasted(dst: BgrImage, src: BgrImage, x: int, y: int) -> Seq<u8> {
    let w = dst.width as int;
    Seq::new(
        dst.data@.len(),
        |i: int|
            if src.holds(col(i, w) - x, row(i, w) - y) {
                src.at(col(i, w) - x, row(i, w) - y, chan(i))
            } else {
                dst.data@[i]
            },
    )
}

/// Lays `src` over `dst` with its corner at `(x, y)`; what falls outside is cut.
pub fn paste_bgr(dst: &mut BgrImage, src: &BgrImage, x: i32, y: i32)
    requires
        old(dst).wf(),
        src.wf(),
        x + src.width <= i32::MAX,
        y + src.height <= i32::MAX,
    ensures
        final(dst).wf(),
        final(dst).width == old(dst).width,
        final(dst).height == old(dst).height,
        final(dst).data@ == pasted(*old(dst), *src, x as int, y as int),
{
    let w: u32 = dst.width;
    let h: u32 = dst.height;
    let sw: u32 = src.width;
    let sh: u32 = src.height;
    let mut py: u32 = 0;
    let mut i: usize = 0;
    let ghost all = pasted(*dst, *src, x as int, y as int);
    while py < h
        invariant
            py <= h,
            w == dst.width == old(dst).width,
            h == dst.height == old(dst).height,
            w * h * 3 <= u32::MAX,
            old(dst).wf(),
            src.wf(),
            sw == src.width,
            sh == src.height,
            x + sw <= i32::MAX,
            y + sh <= i32::MAX,
            i == place(w as int, 0, py as int, 0),
            dst.data@.len() == w * h * 3,
            all == pasted(*old(dst), *src, x as int, y as int),
            forall|j: int| 0 <= j < i ==> dst.data@[j] == all[j],
            forall|j: int| i <= j < dst.data@.len() ==> dst.data@[j] == old(dst).data@[j],
        decreases h - py,
    {
        let mut px: u32 = 0;
        while px < w
            invariant
                px <= w,
                py < h,
                w == dst.width == old(dst).width,
                h == dst.height == old(dst).height,
                w * h * 3 <= u32::MAX,
                old(dst).wf(),
                src.wf(),
                sw == src.width,
                sh == src.height,
                x + sw <= i32::MAX,
                y + sh <= i32::MAX,
                i == place(w as int, px as int, py as int, 0),
                dst.data@.len() == w * h * 3,
                all == pasted(*old(dst), *src, x as int, y as int),
                forall|j: int| 0 <= j < i ==> dst.data@[j] == all[j],
                forall|j: int| i <= j < dst.data@.len() ==> dst.data@[j] == old(dst).data@[j],
            decreases w - px,
        {
            proof {
                lemma_place(w as int, h as int, px as int, py as int, 0);
                lemma_place(w as int, h as int, px as int, py as int, 1);
                lemma_place(w as int, h as int, px as int, py as int, 2);
            }
            let sx: i64 = px as i64 - x as i64;
            let sy: i64 = py as i64 - y as i64;
            if 0 <= sx && sx < sw as i64 && 0 <= sy && sy < sh as i64 {
                let s: usize = pixel_place(sw, sh, sx as u32, sy as u32);
                dst.data[i] = src.data[s];
                dst.data[i + 1] = src.data[s + 1];
                dst.data[i + 2] = src.data[s + 2];
            }
            i = i + 3;
            px = px + 1;
        }
        proof {
            lemma_row_end(w as int, py as int);
        }
        py = py + 1;
    }
    proof {
        assert(h * w * 3 == w * h * 3) by (nonlinear_arith);
        assert(dst.data@ =~= all);
    }
}

/// What is laid over a picture wholly inside it is read back from there: cropping the place where
/// `src` was laid gives the samples of `src`.
pub proof fn lemma_paste_reads_back(dst: BgrImage, src: BgrImage, out: BgrImage, x: int, y: int)
    requires
        dst.wf(),
        src.wf(),
        out.wf(),
        out.width == dst.width,
        out.height == dst.height,
        out.data@ == pasted(dst, src, x, y),
        0 <= x,
        x + src.width <= dst.width,
        0 <= y,
        y + src.height <= dst.height,
        src.width > 0,
        src.height > 0,
    ensures
        src.data@ == Seq::new(
            (src.width * src.height * 3) as nat,
            |i: int| out.at(x + col(i, src.width as int), y + row(i, src.width as int), chan(i)),
        ),
{
    let (w, h) = (src.width as int, src.height as int);
    let part = Seq::new(
        (w * h * 3) as nat,
        |i: int| out.at(x + col(i, w), y + row(i, w), chan(i)),
    );
    assert(w * h * 3 >= 0) by (nonlinear_arith)
        requires
            w > 0,
            h > 0,
    ;
    assert forall|i: int| 0 <= i < part.len() implies part[i] == src.data@[i] by {
        lemma_unplace(w, h, i);
        lemma_place(
            dst.width as int,
            dst.height as int,
            x + col(i, w),
            y + row(i, w),
            chan(i),
        );
    }
    assert(part =~= src.data@);
}

/// Packed pixels with the first and third sample of each exchanged; what is left
/// over after the last whole pixel stays.
pub open spec fn swizzled(data: Seq<u8>) -> Seq<u8> {
    Seq::new(
        data.len(),
        |i: int|
            if i / 3 * 3 + 3 > data.len() {
                data[i]
            } else {
                data[i / 3 * 3 + (2 - i % 3)]
            },
    )
}

/// Exchanges red and blue in place.
pub fn rgb_to_bgr_in_place(data: &mut [u8])
    ensures
        final(data)@ == swizzled(old(data)@),
{
    let n: usize = data.len();
    let mut i: usize = 0;
    while n - i >= 3
        invariant
            i <= n == data@.len(),
            i % 3 == 0,
            data@.len() == old(data)@.len(),
            forall|j: int| 0 <= j < i ==> data@[j] == swizzled(old(data)@)[j],
            forall|j: int| i <= j < n ==> data@[j] == old(data)@[j],
        decreases n - i,
    {
        let a: u8 = data[i];
        let b: u8 = data[i + 2];
        data[i] = b;
        data[i + 2] = a;
        i = i + 3;
    }
    assert(data@ =~= swizzled(old(data)@));
}

/// Exchanging red and blue twice changes nothing.
pub proof fn lemma_swizzle_involution(data: Seq<u8>)
    ensures
        swizzled(swizzled(data)) == data,
{
    let once = swizzled(data);
    assert forall|i: int| 0 <= i < data.len() implies swizzled(once)[i] == data[i] by {
        if i / 3 * 3 + 3 <= data.len() {
            let j = i / 3 * 3 + (2 - i % 3);
            assert(j / 3 == i / 3 && j % 3 == 2 - i % 3);
        }
    }
    assert(swizzled(once) =~= data);
}

/// How bytes become tensor values: per destination plane a scale, a bias and the
/// BGR channel that feeds it, with the half-precision result of every byte.
pub struct ColorNorm {
    pub scale: [Single; 3],
    pub bias: [Single; 3],
    /// BGR channel index for destination planes 0..2.
    pub src: [usize; 3],
    pub lut: [[u16; 256]; 3],
}

/// The words of the ImageNet channel means, red first.
pub const IMAGENET_MEAN_R: u32 = 0x3ef8_51ec;
pub const IMAGENET_MEAN_G: u32 = 0x3ee9_78d5;
pub const IMAGENET_MEAN_B: u32 = 0x3ecf_df3b;

/// The words of the ImageNet channel deviations, red first.
pub const IMAGENET_STD_R: u32 = 0x3e6a_7efa;
pub const IMAGENET_STD_G: u32 = 0x3e65_6042;
pub const IMAGENET_STD_B: u32 = 0x3e66_6666;

/// The words of the means that the RetinaFace network subtracts, blue first.
pub const RETINA_MEAN_B: u32 = 0x42d0_0000;
pub const RETINA_MEAN_G: u32 = 0x42ea_0000;
pub const RETINA_MEAN_R: u32 = 0x42f6_0000;

/// The half-precision word of `v * scale + bias`.
pub open spec fn baked(v: int, scale: Single, bias: Single) -> u16 {
    convert::half_word(Single::from_int(v) * scale + bias)
}

/// The factor that divides by 255 and by a deviation.
pub open spec fn inverse_std(std: u32) -> Single {
    single::of(single::ONE) / (single::of(std) * single::of(FULL))
}

/// The bias that subtracts a mean in deviations.
pub open spec fn mean_bias(mean: u32, std: u32) -> Single {
    (single::of(mean) / single::of(std)).negated()
}

fn bake_row(scale: Single, bias: Single) -> (r: [u16; 256])
    ensures
        forall|v: int| 0 <= v < 256 ==> #[trigger] r[v] == baked(v, scale, bias),
{
    let mut r: [u16; 256] = [0u16; 256];
    let mut v: usize = 0;
    while v < 256
        invariant
            v <= 256,
            forall|k: int| 0 <= k < v ==> #[trigger] r[k] == baked(k, scale, bias),
        decreases 256 - v,
    {
        r[v] = convert::half_word(single::from_u64(v as u64) * scale + bias);
        v = v + 1;
    }
    r
}

impl ColorNorm {
    /// Every table entry is the byte scaled and biased, and the planes are fed
    /// from real channels.
    pub open spec fn wf(self) -> bool {
        forall|c: int|
            0 <= c < 3 ==> 0 <= #[trigger] self.src[c] < 3 && (forall|v: int|
                0 <= v < 256 ==> #[trigger] self.lut[c][v] == baked(
                    v,
                    self.scale[c],
                    self.bias[c],
                ))
    }

    /// Red, green and blue planes, each `(x / 255 - mean) / deviation`.
    pub open spec fn is_imagenet(self) -> bool {
        &&& self.wf()
        &&& self.src@ == seq![2usize, 1, 0]
        &&& self.scale@ == seq![
            inverse_std(IMAGENET_STD_R),
            inverse_std(IMAGENET_STD_G),
            inverse_std(IMAGENET_STD_B),
        ]
        &&& self.bias@ == seq![
            mean_bias(IMAGENET_MEAN_R, IMAGENET_STD_R),
            mean_bias(IMAGENET_MEAN_G, IMAGENET_STD_G),
            mean_bias(IMAGENET_MEAN_B, IMAGENET_STD_B),
        ]
    }

    /// Blue, green and red planes, each with its mean subtracted.
    pub open spec fn is_retina(self) -> bool {
        &&& self.wf()
        &&& self.src@ == seq![0usize, 1, 2]
        &&& self.scale@ == seq![
            single::of(single::ONE),
            single::of(single::ONE),
            single::of(single::ONE),
        ]
        &&& self.bias@ == seq![
            single::of(RETINA_MEAN_B).negated(),
            single::of(RETINA_MEAN_G).negated(),
            single::of(RETINA_MEAN_R).negated(),
        ]
    }

    fn bake(scale: [Single; 3], bias: [Single; 3], src: [usize; 3]) -> (r: Self)
        requires
            forall|c: int| 0 <= c < 3 ==> 0 <= #[trigger] src[c] < 3,
        ensures
            r.wf(),
            r.scale == scale,
            r.bias == bias,
            r.src == src,
    {
        let lut: [[u16; 256]; 3] = [
            bake_row(scale[0], bias[0]),
            bake_row(scale[1], bias[1]),
            bake_row(scale[2], bias[2]),
        ];
        ColorNorm { scale, bias, src, lut }
    }

    /// Planes in red, green, blue order, each `(x / 255 - mean) / deviation`.
    pub fn imagenet() -> (r: Self)
        ensures
            r.is_imagenet(),
    {
        let one: Single = single::of(single::ONE);
        let full: Single = single::of(FULL);
        let (sr, sg, sb) = (
            single::of(IMAGENET_STD_R),
            single::of(IMAGENET_STD_G),
            single::of(IMAGENET_STD_B),
        );
        Self::bake(
            [one / (sr * full), one / (sg * full), one / (sb * full)],
            [
                (single::of(IMAGENET_MEAN_R) / sr).negated(),
                (single::of(IMAGENET_MEAN_G) / sg).negated(),
                (single::of(IMAGENET_MEAN_B) / sb).negated(),
            ],
            [2, 1, 0],
        )
    }

    /// Planes in blue, green, red order, each with its mean subtracted.
    pub fn retina() -> (r: Self)
        ensures
            r.is_retina(),
    {
        let one: Single = single::of(single::ONE);
        Self::bake(
            [one, one, one],
            [
                single::of(RETINA_MEAN_B).negated(),
                single::of(RETINA_MEAN_G).negated(),
                single::of(RETINA_MEAN_R).negated(),
            ],
            [0, 1, 2],
        )
    }
}

/// The column of entry `i` of planes of `w x h`.
pub open spec fn plane_col(i: int, w: int) -> int {
    i % w
}

/// The row of entry `i` of planes of `w x h`.
pub open spec fn plane_row(i: int, w: int, h: int) -> int {
    (i / w) % h
}

/// The plane of entry `i` of planes of `w x h`.
pub open spec fn plane(i: int, w: int, h: int) -> int {
    (i / w) / h
}

/// An entry of three planes, by its plane, row and column.
pub proof fn lemma_plane(w: int, h: int, x: int, y: int, c: int)
    requires
        0 <= x < w,
        0 <= y < h,
        0 <= c < 3,
    ensures
        plane_col((c * h + y) * w + x, w) == x,
        plane_row((c * h + y) * w + x, w, h) == y,
        plane((c * h + y) * w + x, w, h) == c,
        0 <= (c * h + y) * w + x < 3 * (w * h),
{
    let q = c * h + y;
    lemma_fundamental_div_mod_converse(q * w + x, w, q, x);
    lemma_fundamental_div_mod_converse(q, h, c, y);
    assert(0 <= q < 3 * h) by (nonlinear_arith)
        requires
            q == c * h + y,
            0 <= c <= 2,
            0 <= y < h,
    ;
    assert(0 <= q * w + x < 3 * (w * h)) by (nonlinear_arith)
        requires
            0 <= q < 3 * h,
            0 <= x < w,
    ;
}

/// The planar half-precision tensor of the part of a picture with corner
/// `(x0, y0)` and size `cw x ch`, resized to `w x h`; all zero where the part is
/// empty.
pub open spec fn tensor_of(
    bgr: BgrImage,
    x0: int,
    y0: int,
    cw: int,
    ch: int,
    w: int,
    h: int,
    norm: ColorNorm,
) -> Seq<u16> {
    Seq::new(
        (3 * (w * h)) as nat,
        |i: int|
            if cw == 0 || ch == 0 {
                0
            } else {
                let c = plane(i, w, h);
                norm.lut[c][resized_at(
                    bgr.data@,
                    bgr.width as int,
                    x0,
                    y0,
                    cw,
                    ch,
                    w,
                    h,
                    plane_col(i, w),
                    plane_row(i, w, h),
                    norm.src[c] as int,
                ) as int]
            },
    )
}

/// Resizes `[x1, x2) x [y1, y2)` of a picture into the planes at the start of
/// `dst`. Where `dst` is too short, or the planes are empty, it is all zeroed.
pub fn nchw_roi_into(
    bgr: &BgrImage,
    x1: i32,
    y1: i32,
    x2: i32,
    y2: i32,
    width: u32,
    height: u32,
    norm: &ColorNorm,
    dst: &mut [u16],
)
    requires
        bgr.wf(),
        norm.wf(),
        3 * (width * height) <= usize::MAX,
        3 * (width * height) <= old(dst)@.len() && extent(x1 as int, x2 as int, bgr.width as int) > 0
            && extent(y1 as int, y2 as int, bgr.height as int) > 0 ==> {
            &&& width * height <= u32::MAX
            &&& reads_inside(
                extent(x1 as int, x2 as int, bgr.width as int),
                extent(y1 as int, y2 as int, bgr.height as int),
                width as int,
                height as int,
            )
        },
    ensures
        final(dst)@.len() == old(dst)@.len(),
        final(dst)@ == (if width * height == 0 || old(dst)@.len() < 3 * (width * height) {
            Seq::new(old(dst)@.len(), |i: int| 0u16)
        } else {
            tensor_of(
                *bgr,
                at_least_zero(x1 as int),
                at_least_zero(y1 as int),
                extent(x1 as int, x2 as int, bgr.width as int),
                extent(y1 as int, y2 as int, bgr.height as int),
                width as int,
                height as int,
                *norm,
            ) + old(dst)@.skip(3 * (width * height))
        }),
{
    proof {
        assert(0 <= width * height <= usize::MAX) by (nonlinear_arith)
            requires
                3 * (width * height) <= usize::MAX,
                width >= 0,
                height >= 0,
        ;
    }
    let n: usize = width as usize * height as usize;
    let total: usize = dst.len();
    if n == 0 || total < 3 * n {
        clear(dst, total);
        assert(dst@ =~= Seq::new(total as nat, |i: int| 0u16));
        return;
    }
    let (x0, y0, cw, ch) = clamp_roi(bgr, x1, y1, x2, y2);
    let ghost all = tensor_of(
        *bgr,
        x0 as int,
        y0 as int,
        cw as int,
        ch as int,
        width as int,
        height as int,
        *norm,
    );
    if cw == 0 || ch == 0 {
        clear(dst, 3 * n);
        assert(dst@ =~= all + old(dst)@.skip(3 * n));
        return;
    }
    let whole: bool = cw == width && ch == height;
    let mut c: usize = 0;
    let mut o: usize = 0;
    let ghost w = width as int;
    let ghost h = height as int;
    assert(0 * h == 0);
    while c < 3
        invariant
            c <= 3,
            o == (c * h) * w,
            w == width,
            h == height,
            n == w * h,
            0 < n,
            3 * n <= total == dst@.len() == old(dst)@.len(),
            bgr.wf(),
            norm.wf(),
            0 < cw,
            0 < ch,
            whole == (cw == width && ch == height),
            whole || taps_stay(cw as int, w) && taps_stay(ch as int, h),
            x0 + cw <= bgr.width,
            y0 + ch <= bgr.height,
            all == tensor_of(*bgr, x0 as int, y0 as int, cw as int, ch as int, w, h, *norm),
            forall|j: int| 0 <= j < o ==> dst@[j] == all[j],
            forall|j: int| o <= j < dst@.len() ==> dst@[j] == old(dst)@[j],
        decreases 3 - c,
    {
        let mut y: u32 = 0;
        while y < height
            invariant
                c < 3,
                y <= height,
                o == (c * h + y) * w,
                w == width,
                h == height,
                n == w * h,
                0 < n,
                3 * n <= total == dst@.len() == old(dst)@.len(),
                bgr.wf(),
                norm.wf(),
                0 < cw,
                0 < ch,
                whole == (cw == width && ch == height),
                whole || taps_stay(cw as int, w) && taps_stay(ch as int, h),
                x0 + cw <= bgr.width,
                y0 + ch <= bgr.height,
                all == tensor_of(*bgr, x0 as int, y0 as int, cw as int, ch as int, w, h, *norm),
                forall|j: int| 0 <= j < o ==> dst@[j] == all[j],
                forall|j: int| o <= j < dst@.len() ==> dst@[j] == old(dst)@[j],
            decreases height - y,
        {
            let mut x: u32 = 0;
            let ty: Tap = if whole {
                Tap { lo: 0, hi: 0, weight: single::of(0) }
            } else {
                tap(y, ch, height)
            };
            while x < width
                invariant
                    c < 3,
                    y < height,
                    x <= width,
                    o == (c * h + y) * w + x,
                    w == width,
                    h == height,
                    n == w * h,
                    0 < n,
                    3 * n <= total == dst@.len() == old(dst)@.len(),
                    bgr.wf(),
                    norm.wf(),
                    0 < cw,
                    0 < ch,
                    whole == (cw == width && ch == height),
                    whole || taps_stay(cw as int, w) && taps_stay(ch as int, h),
                    x0 + cw <= bgr.width,
                    y0 + ch <= bgr.height,
                    !whole ==> {
                        &&& ty.lo == tap_lo(y as int, ch as int, h)
                        &&& ty.hi == tap_hi(y as int, ch as int, h)
                        &&& ty.weight == tap_weight(y as int, ch as int, h)
                        &&& ty.lo <= ty.hi < ch
                    },
                    all == tensor_of(*bgr, x0 as int, y0 as int, cw as int, ch as int, w, h, *norm),
                    forall|j: int| 0 <= j < o ==> dst@[j] == all[j],
                    forall|j: int| o <= j < dst@.len() ==> dst@[j] == old(dst)@[j],
                decreases width - x,
            {
                proof {
                    lemma_plane(w, h, x as int, y as int, c as int);
                }
                let s: usize = norm.src[c];
                let v: u8 = sample_resized(bgr, x0, y0, cw, ch, width, height, x, y, &ty, s);
                dst[o] = norm.lut[c][v as usize];
                o = o + 1;
                x = x + 1;
            }
            proof {
                assert((c * h + y) * w + w == (c * h + (y + 1)) * w) by (nonlinear_arith);
            }
            y = y + 1;
        }
        proof {
            assert(c * h + h == (c + 1) * h) by (nonlinear_arith);
        }
        c = c + 1;
    }
    proof {
        assert((3 * h) * w == 3 * (w * h)) by (nonlinear_arith);
        assert(dst@ =~= all + old(dst)@.skip(3 * n));
    }
}

fn clear(dst: &mut [u16], n: usize)
    requires
        n <= old(dst)@.len(),
    ensures
        final(dst)@.len() == old(dst)@.len(),
        forall|j: int| 0 <= j < n ==> final(dst)@[j] == 0,
        forall|j: int| n <= j < old(dst)@.len() ==> final(dst)@[j] == old(dst)@[j],
{
    let mut i: usize = 0;
    while i < n
        invariant
            i <= n <= dst@.len() == old(dst)@.len(),
            forall|j: int| 0 <= j < i ==> dst@[j] == 0,
            forall|j: int| i <= j < dst@.len() ==> dst@[j] == old(dst)@[j],
        decreases n - i,
    {
        dst[i] = 0;
        i = i + 1;
    }
}

fn sample_resized(
    bgr: &BgrImage,
    x0: u32,
    y0: u32,
    cw: u32,
    ch: u32,
    dw: u32,
    dh: u32,
    x: u32,
    y: u32,
    ty: &Tap,
    c: usize,
) -> (v: u8)
    requires
        bgr.wf(),
        0 < cw,
        0 < ch,
        x0 + cw <= bgr.width,
        y0 + ch <= bgr.height,
        x < dw,
        y < dh,
        c < 3,
        !(cw == dw && ch == dh) ==> {
            &&& tap_lo(x as int, cw as int, dw as int) < cw
            &&& ty.lo == tap_lo(y as int, ch as int, dh as int)
            &&& ty.hi == tap_hi(y as int, ch as int, dh as int)
            &&& ty.weight == tap_weight(y as int, ch as int, dh as int)
            &&& ty.lo <= ty.hi < ch
        },
    ensures
        v == resized_at(
            bgr.data@,
            bgr.width as int,
            x0 as int,
            y0 as int,
            cw as int,
            ch as int,
            dw as int,
            dh as int,
            x as int,
            y as int,
            c as int,
        ),
{
    let (w, h) = (bgr.width, bgr.height);
    if cw == dw && ch == dh {
        bgr.data[pixel_place(w, h, x0 + x, y0 + y) + c]
    } else {
        let tx: Tap = tap(x, cw, dw);
        mixed(
            bgr.data[pixel_place(w, h, x0 + tx.lo, y0 + ty.lo) + c],
            bgr.data[pixel_place(w, h, x0 + tx.hi, y0 + ty.lo) + c],
            bgr.data[pixel_place(w, h, x0 + tx.lo, y0 + ty.hi) + c],
            bgr.data[pixel_place(w, h, x0 + tx.hi, y0 + ty.hi) + c],
            tx.weight,
            ty.weight,
        )
    }
}

/// The tensor of an empty part does not depend on which side is empty.
proof fn lemma_empty_tensor(im: BgrImage, w: int, h: int, norm: ColorNorm)
    requires
        im.width == 0 || im.height == 0,
    ensures
        ({
            let (x2, y2) = (im.width as i32 as int, im.height as i32 as int);
            tensor_of(im, 0, 0, extent(0, x2, im.width as int), extent(0, y2, im.height as int), w, h, norm)
                == tensor_of(im, 0, 0, im.width as int, im.height as int, w, h, norm)
        }),
{
    let (x2, y2) = (im.width as i32 as int, im.height as i32 as int);
    assert(tensor_of(
        im,
        0,
        0,
        extent(0, x2, im.width as int),
        extent(0, y2, im.height as int),
        w,
        h,
        norm,
    ) =~= tensor_of(im, 0, 0, im.width as int, im.height as int, w, h, norm));
}

/// Resizes a whole picture into the planes at the start of `dst`.
pub fn nchw_into(bgr: &BgrImage, width: u32, height: u32, norm: &ColorNorm, dst: &mut [u16])
    requires
        bgr.wf(),
        norm.wf(),
        3 * (width * height) <= usize::MAX,
        3 * (width * height) <= old(dst)@.len() && bgr.width > 0 && bgr.height > 0 ==> {
            &&& width * height <= u32::MAX
            &&& reads_inside(bgr.width as int, bgr.height as int, width as int, height as int)
        },
    ensures
        final(dst)@.len() == old(dst)@.len(),
        final(dst)@ == (if width * height == 0 || old(dst)@.len() < 3 * (width * height) {
            Seq::new(old(dst)@.len(), |i: int| 0u16)
        } else {
            tensor_of(
                *bgr,
                0,
                0,
                bgr.width as int,
                bgr.height as int,
                width as int,
                height as int,
                *norm,
            ) + old(dst)@.skip(3 * (width * height))
        }),
{
    proof {
        lemma_sides(*bgr);
        assert(width * height >= 0) by (nonlinear_arith)
            requires
                width >= 0,
                height >= 0,
        ;
    }
    nchw_roi_into(bgr, 0, 0, bgr.width as i32, bgr.height as i32, width, height, norm, dst);
    proof {
        if bgr.width == 0 || bgr.height == 0 {
            lemma_empty_tensor(*bgr, width as int, height as int, *norm);
        }
    }
}

/// A picture resized to `width x height` as a tensor of one item.
pub fn nchw(bgr: &BgrImage, width: u32, height: u32, norm: &ColorNorm) -> (r: TensorF16)
    requires
        bgr.wf(),
        norm.wf(),
        width * height <= u32::MAX,
        3 * (width * height) <= usize::MAX,
        reads_inside(bgr.width as int, bgr.height as int, width as int, height as int),
    ensures
        r.shape@ == seq![1i64, 3, height as i64, width as i64],
        r.data@ == tensor_of(
            *bgr,
            0,
            0,
            bgr.width as int,
            bgr.height as int,
            width as int,
            height as int,
            *norm,
        ),
{
    let n: usize = (width * height) as usize;
    let mut data: Vec<u16> = vec![0u16; 3 * n];
    let ghost blank = data@;
    nchw_into(bgr, width, height, norm, data.as_mut_slice());
    proof {
        assert(blank.skip(3 * (width * height)) =~= Seq::<u16>::empty());
        let all = tensor_of(
            *bgr,
            0,
            0,
            bgr.width as int,
            bgr.height as int,
            width as int,
            height as int,
            *norm,
        );
        assert(data@ =~= all);
    }
    TensorF16 { shape: vec![1, 3, height as i64, width as i64], data }
}

/// A picture as the square input of the ImageNet-trained networks.
pub fn imagenet_nchw(bgr: &BgrImage, size: u32) -> (r: TensorF16)
    requires
        bgr.wf(),
        size * size <= u32::MAX,
        3 * (size * size) <= usize::MAX,
        reads_inside(bgr.width as int, bgr.height as int, size as int, size as int),
    ensures
        r.shape@ == seq![1i64, 3, size as i64, size as i64],
        exists|norm: ColorNorm| #[trigger]
            norm.is_imagenet() && r.data@ == tensor_of(
                *bgr,
                0,
                0,
                bgr.width as int,
                bgr.height as int,
                size as int,
                size as int,
                norm,
            ),
{
    let norm: ColorNorm = ColorNorm::imagenet();
    let r: TensorF16 = nchw(bgr, size, size, &norm);
    assert(norm.is_imagenet());
    r
}

/// Like [`imagenet_nchw`], into the start of `dst`.
pub fn imagenet_nchw_into(bgr: &BgrImage, size: u32, dst: &mut [u16])
    requires
        bgr.wf(),
        3 * (size * size) <= usize::MAX,
        3 * (size * size) <= old(dst)@.len() && bgr.width > 0 && bgr.height > 0 ==> {
            &&& size * size <= u32::MAX
            &&& reads_inside(bgr.width as int, bgr.height as int, size as int, size as int)
        },
    ensures
        final(dst)@.len() == old(dst)@.len(),
        exists|norm: ColorNorm| #[trigger]
            norm.is_imagenet() && final(dst)@ == (if size == 0 || old(dst)@.len() < 3 * (size
                * size) {
                Seq::new(old(dst)@.len(), |i: int| 0u16)
            } else {
                tensor_of(
                    *bgr,
                    0,
                    0,
                    bgr.width as int,
                    bgr.height as int,
                    size as int,
                    size as int,
                    norm,
                ) + old(dst)@.skip(3 * (size * size))
            }),
{
    proof {
        assert(size * size == 0 <==> size == 0) by (nonlinear_arith);
    }
    let norm: ColorNorm = ColorNorm::imagenet();
    nchw_into(bgr, size, size, &norm, dst);
    assert(norm.is_imagenet());
}

/// Like [`imagenet_nchw_into`], from a part of the picture.
pub fn imagenet_nchw_roi_into(
    bgr: &BgrImage,
    x1: i32,
    y1: i32,
    x2: i32,
    y2: i32,
    size: u32,
    dst: &mut [u16],
)
    requires
        bgr.wf(),
        3 * (size * size) <= usize::MAX,
        3 * (size * size) <= old(dst)@.len() && extent(x1 as int, x2 as int, bgr.width as int) > 0
            && extent(y1 as int, y2 as int, bgr.height as int) > 0 ==> {
            &&& size * size <= u32::MAX
            &&& reads_inside(
                extent(x1 as int, x2 as int, bgr.width as int),
                extent(y1 as int, y2 as int, bgr.height as int),
                size as int,
                size as int,
            )
        },
    ensures
        final(dst)@.len() == old(dst)@.len(),
        exists|norm: ColorNorm| #[trigger]
            norm.is_imagenet() && final(dst)@ == (if size == 0 || old(dst)@.len() < 3 * (size
                * size) {
                Seq::new(old(dst)@.len(), |i: int| 0u16)
            } else {
                tensor_of(
                    *bgr,
                    at_least_zero(x1 as int),
                    at_least_zero(y1 as int),
                    extent(x1 as int, x2 as int, bgr.width as int),
                    extent(y1 as int, y2 as int, bgr.height as int),
                    size as int,
                    size as int,
                    norm,
                ) + old(dst)@.skip(3 * (size * size))
            }),
{
    proof {
        assert(size * size == 0 <==> size == 0) by (nonlinear_arith);
    }
    let norm: ColorNorm = ColorNorm::imagenet();
    nchw_roi_into(bgr, x1, y1, x2, y2, size, size, &norm, dst);
    assert(norm.is_imagenet());
}

/// The edge of the RetinaFace network's square input.
pub const RETINA_SIZE: u32 = 640;

/// A picture as the input of the RetinaFace network.
pub fn retina_nchw(bgr: &BgrImage) -> (r: TensorF16)
    requires
        bgr.wf(),
        reads_inside(bgr.width as int, bgr.height as int, 640, 640),
    ensures
        r.shape@ == seq![1i64, 3, 640, 640],
        exists|norm: ColorNorm| #[trigger]
            norm.is_retina() && r.data@ == tensor_of(
                *bgr,
                0,
                0,
                bgr.width as int,
                bgr.height as int,
                640,
                640,
                norm,
            ),
{
    let norm: ColorNorm = ColorNorm::retina();
    let r: TensorF16 = nchw(bgr, RETINA_SIZE, RETINA_SIZE, &norm);
    assert(norm.is_retina());
    r
}

/// Like [`retina_nchw`], into the start of `dst`.
pub fn retina_nchw_into(bgr: &BgrImage, dst: &mut [u16])
    requires
        bgr.wf(),
        old(dst)@.len() >= 3 * (640 * 640) ==> reads_inside(
            bgr.width as int,
            bgr.height as int,
            640,
            640,
        ),
    ensures
        final(dst)@.len() == old(dst)@.len(),
        exists|norm: ColorNorm| #[trigger]
            norm.is_retina() && final(dst)@ == (if old(dst)@.len() < 3 * (640 * 640) {
                Seq::new(old(dst)@.len(), |i: int| 0u16)
            } else {
                tensor_of(*bgr, 0, 0, bgr.width as int, bgr.height as int, 640, 640, norm) + old(
                    dst,
                )@.skip(3int * (640 * 640))
            }),
{
    let norm: ColorNorm = ColorNorm::retina();
    nchw_into(bgr, RETINA_SIZE, RETINA_SIZE, &norm, dst);
    assert(norm.is_retina());
}

proof fn lemma_resized_part(im: BgrImage, part: BgrImage, x0: int, y0: int, w: int, h: int)
    requires
        im.wf(),
        part.wf(),
        0 < part.width,
        0 < part.height,
        reads_inside(part.width as int, part.height as int, w, h),
        0 <= x0,
        0 <= y0,
        x0 + part.width <= im.width,
        y0 + part.height <= im.height,
        0 <= w,
        0 <= h,
        part.data@ == Seq::new(
            (part.width * part.height * 3) as nat,
            |i: int|
                im.at(x0 + col(i, part.width as int), y0 + row(i, part.width as int), chan(i)),
        ),
    ensures
        resized(
            im.data@,
            im.width as int,
            x0,
            y0,
            part.width as int,
            part.height as int,
            w,
            h,
        ) == resized(
            part.data@,
            part.width as int,
            0,
            0,
            part.width as int,
            part.height as int,
            w,
            h,
        ),
{
    let cw = part.width as int;
    let ch = part.height as int;
    assert forall|x: int, y: int, c: int|
        0 <= x < cw && 0 <= y < ch && 0 <= c < 3 implies #[trigger] part.at(x, y, c) == im.at(
        x0 + x,
        y0 + y,
        c,
    ) by {
        lemma_place(cw, ch, x, y, c);
    }
    let p = resized(im.data@, im.width as int, x0, y0, cw, ch, w, h);
    let q = resized(part.data@, cw, 0, 0, cw, ch, w, h);
    assert forall|i: int| 0 <= i < p.len() implies p[i] == q[i] by {
        if w == 0 {
            assert(w * h == 0) by (nonlinear_arith)
                requires
                    w == 0,
            ;
        }
        lemma_unplace(w, h, i);
        let (x, y, c) = (col(i, w), row(i, w), chan(i));
        if cw == w && ch == h {
            assert(part.at(x, y, c) == im.at(x0 + x, y0 + y, c));
        } else {
            lemma_tap_range(x, cw, w);
            lemma_tap_range(y, ch, h);
            let (xl, xh) = (tap_lo(x, cw, w), tap_hi(x, cw, w));
            let (yl, yh) = (tap_lo(y, ch, h), tap_hi(y, ch, h));
            assert(part.at(xl, yl, c) == im.at(x0 + xl, y0 + yl, c));
            assert(part.at(xh, yl, c) == im.at(x0 + xh, y0 + yl, c));
            assert(part.at(xl, yh, c) == im.at(x0 + xl, y0 + yh, c));
            assert(part.at(xh, yh, c) == im.at(x0 + xh, y0 + yh, c));
        }
    }
    assert(p =~= q);
}

/// Resizing a part of a picture, wherever its corners lie, gives the bytes that resizing the crop of
/// it gives; all zero where the part is empty.
pub proof fn lemma_part_resizes_as_crop(
    im: BgrImage,
    part: BgrImage,
    x1: int,
    y1: int,
    x2: int,
    y2: int,
    dw: int,
    dh: int,
)
    requires
        im.wf(),
        part.wf(),
        reads_inside(part.width as int, part.height as int, dw, dh),
        part.width == extent(x1, x2, im.width as int),
        part.height == extent(y1, y2, im.height as int),
        part.width > 0 && part.height > 0 ==> part.data@ == Seq::new(
            (part.width * part.height * 3) as nat,
            |i: int|
                im.at(
                    at_least_zero(x1) + col(i, part.width as int),
                    at_least_zero(y1) + row(i, part.width as int),
                    chan(i),
                ),
        ),
        0 < dw,
        0 < dh,
    ensures
        resized(
            im.data@,
            im.width as int,
            at_least_zero(x1),
            at_least_zero(y1),
            extent(x1, x2, im.width as int),
            extent(y1, y2, im.height as int),
            dw,
            dh,
        ) == resized(
            part.data@,
            part.width as int,
            0,
            0,
            part.width as int,
            part.height as int,
            dw,
            dh,
        ),
        part.width == 0 || part.height == 0 ==> resized(
            part.data@,
            part.width as int,
            0,
            0,
            part.width as int,
            part.height as int,
            dw,
            dh,
        ) == Seq::new((dw * dh * 3) as nat, |i: int| 0u8),
{
    if part.width > 0 && part.height > 0 {
        lemma_resized_part(im, part, at_least_zero(x1), at_least_zero(y1), dw, dh);
    }
}

/// Resizing a part of a picture gives what resizing the crop of it gives.
pub proof fn lemma_roi_is_crop(
    im: BgrImage,
    part: BgrImage,
    x0: int,
    y0: int,
    w: int,
    h: int,
    norm: ColorNorm,
)
    requires
        im.wf(),
        part.wf(),
        0 < part.width,
        0 < part.height,
        reads_inside(part.width as int, part.height as int, w, h),
        0 <= x0,
        0 <= y0,
        x0 + part.width <= im.width,
        y0 + part.height <= im.height,
        0 <= w,
        0 <= h,
        part.data@ == Seq::new(
            (part.width * part.height * 3) as nat,
            |i: int|
                im.at(x0 + col(i, part.width as int), y0 + row(i, part.width as int), chan(i)),
        ),
        norm.wf(),
    ensures
        tensor_of(im, x0, y0, part.width as int, part.height as int, w, h, norm) == tensor_of(
            part,
            0,
            0,
            part.width as int,
            part.height as int,
            w,
            h,
            norm,
        ),
        resized(
            im.data@,
            im.width as int,
            x0,
            y0,
            part.width as int,
            part.height as int,
            w,
            h,
        ) == resized(
            part.data@,
            part.width as int,
            0,
            0,
            part.width as int,
            part.height as int,
            w,
            h,
        ),
{
    let cw = part.width as int;
    let ch = part.height as int;
    assert forall|x: int, y: int, c: int|
        0 <= x < cw && 0 <= y < ch && 0 <= c < 3 implies #[trigger] part.at(x, y, c) == im.at(
        x0 + x,
        y0 + y,
        c,
    ) by {
        lemma_place(cw, ch, x, y, c);
    }
    assert forall|x: int, y: int, c: int|
        0 <= x < w && 0 <= y < h && 0 <= c < 3 implies #[trigger] resized_at(
        im.data@,
        im.width as int,
        x0,
        y0,
        cw,
        ch,
        w,
        h,
        x,
        y,
        c,
    ) == resized_at(part.data@, cw, 0, 0, cw, ch, w, h, x, y, c) by {
        if cw == w && ch == h {
            assert(part.at(x, y, c) == im.at(x0 + x, y0 + y, c));
        } else {
            lemma_tap_range(x, cw, w);
            lemma_tap_range(y, ch, h);
            let (xl, xh) = (tap_lo(x, cw, w), tap_hi(x, cw, w));
            let (yl, yh) = (tap_lo(y, ch, h), tap_hi(y, ch, h));
            assert(part.at(xl, yl, c) == im.at(x0 + xl, y0 + yl, c));
            assert(part.at(xh, yl, c) == im.at(x0 + xh, y0 + yl, c));
            assert(part.at(xl, yh, c) == im.at(x0 + xl, y0 + yh, c));
            assert(part.at(xh, yh, c) == im.at(x0 + xh, y0 + yh, c));
        }
    }
    let a = tensor_of(im, x0, y0, cw, ch, w, h, norm);
    let b = tensor_of(part, 0, 0, cw, ch, w, h, norm);
    assert forall|i: int| 0 <= i < a.len() implies a[i] == b[i] by {
        lemma_unplane(w, h, i);
        let c = plane(i, w, h);
        assert(0 <= norm.src[c] < 3);
    }
    assert(a =~= b);
    lemma_resized_part(im, part, x0, y0, w, h);
}

/// The ImageNet tensor of a part of a picture, wherever its corners lie, is that of the crop of it,
/// whichever tables the two were made with; all zero where the part is empty.
pub proof fn lemma_part_tensor_as_crop(
    im: BgrImage,
    part: BgrImage,
    x1: int,
    y1: int,
    x2: int,
    y2: int,
    size: int,
    a: ColorNorm,
    b: ColorNorm,
)
    requires
        im.wf(),
        part.wf(),
        a.is_imagenet(),
        b.is_imagenet(),
        0 <= size,
        reads_inside(part.width as int, part.height as int, size, size),
        part.width == extent(x1, x2, im.width as int),
        part.height == extent(y1, y2, im.height as int),
        part.width > 0 && part.height > 0 ==> part.data@ == Seq::new(
            (part.width * part.height * 3) as nat,
            |i: int|
                im.at(
                    at_least_zero(x1) + col(i, part.width as int),
                    at_least_zero(y1) + row(i, part.width as int),
                    chan(i),
                ),
        ),
    ensures
        tensor_of(
            im,
            at_least_zero(x1),
            at_least_zero(y1),
            extent(x1, x2, im.width as int),
            extent(y1, y2, im.height as int),
            size,
            size,
            a,
        ) == tensor_of(
            part,
            0,
            0,
            part.width as int,
            part.height as int,
            size,
            size,
            b,
        ),
        part.width == 0 || part.height == 0 ==> tensor_of(
            part,
            0,
            0,
            part.width as int,
            part.height as int,
            size,
            size,
            b,
        ) == Seq::new((3 * (size * size)) as nat, |i: int| 0u16),
{
    let (cw, ch) = (part.width as int, part.height as int);
    let p = tensor_of(part, 0, 0, cw, ch, size, size, a);
    let q = tensor_of(part, 0, 0, cw, ch, size, size, b);
    if cw > 0 && ch > 0 {
        lemma_roi_is_crop(im, part, at_least_zero(x1), at_least_zero(y1), size, size, a);
        assert forall|i: int| 0 <= i < p.len() implies p[i] == q[i] by {
            lemma_unplane(size, size, i);
            let c = plane(i, size, size);
            assert(a.src@[c] == b.src@[c]);
            assert(a.scale@[c] == b.scale@[c] && a.bias@[c] == b.bias@[c]);
            let v = resized_at(
                part.data@,
                cw,
                0,
                0,
                cw,
                ch,
                size,
                size,
                plane_col(i, size),
                plane_row(i, size, size),
                a.src[c] as int,
            ) as int;
            assert(0 <= a.src[c] < 3 && 0 <= b.src[c] < 3);
            assert(a.lut[c][v] == baked(v, a.scale[c], a.bias[c]));
            assert(b.lut[c][v] == baked(v, b.scale[c], b.bias[c]));
        }
        assert(p =~= q);
    } else {
        let zero = Seq::new((3 * (size * size)) as nat, |i: int| 0u16);
        assert(q =~= zero);
        assert(tensor_of(im, at_least_zero(x1), at_least_zero(y1), cw, ch, size, size, a) =~= zero);
    }
}

proof fn lemma_tap_range(i: int, n_src: int, n_dst: int)
    requires
        0 < n_src <= u32::MAX,
        0 <= i < n_dst,
        taps_stay(n_src, n_dst),
    ensures
        0 <= tap_lo(i, n_src, n_dst) <= tap_hi(i, n_src, n_dst) < n_src,
{
    let last = Single::from_int(n_src - 1);
    facts::lemma_single_from_count(n_src - 1);
    let c = centre(i, n_src, n_dst).floor().clamp(single::of(0), last);
    facts::lemma_single_int_order(c, last, u32::MAX as int);
}

proof fn lemma_unplane(w: int, h: int, i: int)
    requires
        0 <= w,
        0 <= h,
        0 <= i < 3 * (w * h),
    ensures
        0 <= plane_col(i, w) < w,
        0 <= plane_row(i, w, h) < h,
        0 <= plane(i, w, h) < 3,
{
    if w == 0 || h == 0 {
        assert(w * h == 0) by (nonlinear_arith)
            requires
                w == 0 || h == 0,
        ;
    }
    lemma_fundamental_div_mod(i, w);
    lemma_mod_bound(i, w);
    let q = i / w;
    assert(0 <= q < 3 * h) by (nonlinear_arith)
        requires
            i == w * q + i % w,
            0 <= i % w < w,
            0 <= i < 3 * (w * h),
    ;
    lemma_fundamental_div_mod(q, h);
    lemma_mod_bound(q, h);
    let c = q / h;
    assert(0 <= c < 3) by (nonlinear_arith)
        requires
            q == h * c + q % h,
            0 <= q % h < h,
            0 <= q < 3 * h,
    ;
}

/// A coordinate at or before `x` that lies on an axis of `n` samples.
pub open spec fn floor_on_axis(x: Single, n: int) -> int {
    x.floor().clamp(single::of(0), Single::from_int(n - 1)).to_int(i32::MIN as int, i32::MAX as int)
}

pub open spec fn next_on_axis(i: int, n: int) -> int {
    if i + 1 < n - 1 {
        i + 1
    } else {
        n - 1
    }
}

/// How far `x` lies beyond sample `i`, at most one sample.
pub open spec fn share(x: Single, i: int) -> Single {
    (x - Single::from_int(i)).clamp(single::of(0), single::of(single::ONE))
}

fn axis_floor(x: Single, n: u32) -> (r: (i32, i32, Single))
    requires
        0 < n <= i32::MAX,
        ends_inside(n as int),
    ensures
        r.0 == floor_on_axis(x, n as int),
        r.1 == next_on_axis(r.0 as int, n as int),
        r.2 == share(x, r.0 as int),
        0 <= r.0 <= r.1 < n,
{
    let last: Single = single::from_u64((n - 1) as u64);
    proof {
        facts::lemma_single_from_count(n - 1);
    }
    let c: Single = x.floor().clamp(single::of(0), last);
    proof {
        facts::lemma_single_int_order(c, last, u32::MAX as int);
        facts::lemma_single_int_nonneg(c, i32::MIN as int, i32::MAX as int);
        assert(c.to_int(i32::MIN as int, i32::MAX as int) <= c.to_int(0, u32::MAX as int)) by {
            reveal(Single::to_int);
        }
    }
    let i: i32 = c.to_i32();
    let j: i32 = if i + 1 < n as i32 - 1 { i + 1 } else { n as i32 - 1 };
    let w: Single = (x - single::from_i64(i as i64)).clamp(
        single::of(0),
        single::of(single::ONE),
    );
    (i, j, w)
}

impl BgrImage {
    /// One sample at a point between pixels; black in an empty picture.
    pub open spec fn sampled(self, x: Single, y: Single, c: int) -> u8 {
        if self.width == 0 || self.height == 0 {
            0
        } else {
            let xl = floor_on_axis(x, self.width as int);
            let yl = floor_on_axis(y, self.height as int);
            let xh = next_on_axis(xl, self.width as int);
            let yh = next_on_axis(yl, self.height as int);
            mix(
                self.at(xl, yl, c),
                self.at(xh, yl, c),
                self.at(xl, yh, c),
                self.at(xh, yh, c),
                share(x, xl),
                share(y, yl),
            )
        }
    }

    /// The colour at a point between pixels, by its four neighbours.
    pub fn sample(&self, x: Single, y: Single) -> (r: [u8; 3])
        requires
            self.wf(),
            self.width > 0 && self.height > 0 ==> ends_inside(self.width as int) && ends_inside(
                self.height as int,
            ),
        ensures
            r@ == seq![self.sampled(x, y, 0), self.sampled(x, y, 1), self.sampled(x, y, 2)],
    {
        if self.width == 0 || self.height == 0 {
            return [0, 0, 0];
        }
        proof {
            lemma_sides(*self);
        }
        let (x0, x1, wx) = axis_floor(x, self.width);
        let (y0, y1, wy) = axis_floor(y, self.height);
        let p00: [u8; 3] = self.get(x0, y0);
        let p10: [u8; 3] = self.get(x1, y0);
        let p01: [u8; 3] = self.get(x0, y1);
        let p11: [u8; 3] = self.get(x1, y1);
        [
            mixed(p00[0], p10[0], p01[0], p11[0], wx, wy),
            mixed(p00[1], p10[1], p01[1], p11[1], wx, wy),
            mixed(p00[2], p10[2], p01[2], p11[2], wx, wy),
        ]
    }

    /// The point that a picture turned clockwise about `(cx, cy)` shows at `(x, y)`.
    pub open spec fn turned(cos: Single, sin: Single, cx: Single, cy: Single, x: int, y: int) -> (
        Single,
        Single,
    ) {
        let dx = Single::from_int(x) - cx;
        let dy = Single::from_int(y) - cy;
        (cos * dx + sin * dy + cx, sin.negated() * dx + cos * dy + cy)
    }

    /// The picture turned counter-clockwise about `center` by the angle whose
    /// cosine and sine are given.
    pub fn rotate_about(&self, cos: Single, sin: Single, center: (Single, Single)) -> (r: Self)
        requires
            self.wf(),
            self.width > 0 && self.height > 0 ==> ends_inside(self.width as int) && ends_inside(
                self.height as int,
            ),
        ensures
            r.wf(),
            r.width == self.width,
            r.height == self.height,
            r.data@ == Seq::new(
                self.data@.len(),
                |i: int|
                    {
                        let p = Self::turned(
                            cos,
                            sin.negated(),
                            center.0,
                            center.1,
                            col(i, self.width as int),
                            row(i, self.width as int),
                        );
                        self.sampled(p.0, p.1, chan(i))
                    },
            ),
    {
        let (cx, cy) = center;
        let back: Single = sin.negated();
        let (w, h) = (self.width, self.height);
        let ghost f = |i: int|
            {
                let p = Self::turned(cos, back, cx, cy, col(i, w as int), row(i, w as int));
                self.sampled(p.0, p.1, chan(i))
            };
        let mut data: Vec<u8> = Vec::new();
        let mut y: u32 = 0;
        while y < h
            invariant
                y <= h,
                w == self.width,
                h == self.height,
                w > 0 && h > 0 ==> ends_inside(w as int) && ends_inside(h as int),
                self.wf(),
                data@.len() == place(w as int, 0, y as int, 0),
                forall|i: int| 0 <= i < data@.len() ==> data@[i] == f(i),
                f == (|i: int|
                    {
                        let p = Self::turned(cos, back, cx, cy, col(i, w as int), row(i, w as int));
                        self.sampled(p.0, p.1, chan(i))
                    }),
            decreases h - y,
        {
            let mut x: u32 = 0;
            while x < w
                invariant
                    x <= w,
                    y < h,
                    w == self.width,
                    h == self.height,
                    w > 0 && h > 0 ==> ends_inside(w as int) && ends_inside(h as int),
                    self.wf(),
                    data@.len() == place(w as int, x as int, y as int, 0),
                    forall|i: int| 0 <= i < data@.len() ==> data@[i] == f(i),
                    f == (|i: int|
                        {
                            let p = Self::turned(
                                cos,
                                back,
                                cx,
                                cy,
                                col(i, w as int),
                                row(i, w as int),
                            );
                            self.sampled(p.0, p.1, chan(i))
                        }),
                decreases w - x,
            {
                proof {
                    lemma_place(w as int, h as int, x as int, y as int, 0);
                    lemma_place(w as int, h as int, x as int, y as int, 1);
                    lemma_place(w as int, h as int, x as int, y as int, 2);
                }
                let dx: Single = single::from_u64(x as u64) - cx;
                let dy: Single = single::from_u64(y as u64) - cy;
                let sx: Single = cos * dx + back * dy + cx;
                let sy: Single = back.negated() * dx + cos * dy + cy;
                let p: [u8; 3] = self.sample(sx, sy);
                data.push(p[0]);
                data.push(p[1]);
                data.push(p[2]);
                x = x + 1;
            }
            proof {
                lemma_row_end(w as int, y as int);
            }
            y = y + 1;
        }
        proof {
            assert(h * w * 3 == w * h * 3) by (nonlinear_arith);
            assert(data@ =~= Seq::new(self.data@.len(), f));
        }
        BgrImage { width: w, height: h, data }
    }
}

/// The word of eight.
pub const EIGHT: u32 = 0x4100_0000;

/// The left or upper edge of a padded box.
pub open spec fn padded_start(x: Single, size: Single, margin: Single) -> int {
    (x - size * margin).max(single::of(0)).to_int(i32::MIN as int, i32::MAX as int)
}

/// The right or lower edge of a padded box.
pub open spec fn padded_end(x: Single, size: Single, margin: Single, limit: int) -> int {
    (x + size * (single::of(single::ONE) + margin)).min(Single::from_int(limit)).to_int(
        i32::MIN as int,
        i32::MAX as int,
    )
}

/// The part of a frame around a detection `[x, y, w, h, ..]`, padded by `margin`
/// sizes, with its corner and the height of the face inside. A box under eight
/// pixels gives the whole frame.
pub fn face_crop(frame: &BgrImage, d: &[Single; 5], margin: Single) -> (r: (
    BgrImage,
    (i32, i32),
    Single,
))
    requires
        frame.wf(),
    ensures
        ({
            let x1 = padded_start(d[0], d[2], margin);
            let y1 = padded_start(d[1], d[3], margin);
            let x2 = padded_end(d[0], d[2], margin, frame.width as int);
            let y2 = padded_end(d[1], d[3], margin, frame.height as int);
            if x2 - x1 < 8 || y2 - y1 < 8 {
                &&& r.0.width == frame.width
                &&& r.0.height == frame.height
                &&& r.0.data@ == frame.data@
                &&& r.1 == (0i32, 0i32)
                &&& r.2 == Single::from_int(frame.height as int)
            } else {
                &&& r.0.width == extent(x1, x2, frame.width as int)
                &&& r.0.height == extent(y1, y2, frame.height as int)
                &&& r.0.data@ == rows_of(
                    frame.data@,
                    frame.width as int,
                    at_least_zero(x1),
                    r.0.width as int,
                    at_least_zero(y1),
                    at_least_zero(y1) + r.0.height,
                )
                &&& r.1.0 == x1 && r.1.1 == y1
                &&& r.2 == ((d[1] + d[3]).min(Single::from_int(y2)) - d[1].max(
                    Single::from_int(y1),
                )).max(single::of(EIGHT))
            }
        }),
{
    let (x, y, w, h) = (d[0], d[1], d[2], d[3]);
    let zero: Single = single::of(0);
    let one: Single = single::of(single::ONE);
    let x1: i32 = (x - w * margin).max(zero).to_i32();
    let y1: i32 = (y - h * margin).max(zero).to_i32();
    let x2: i32 = (x + w * (one + margin)).min(single::from_u64(frame.width as u64)).to_i32();
    let y2: i32 = (y + h * (one + margin)).min(single::from_u64(frame.height as u64)).to_i32();
    if (x2 as i64) - (x1 as i64) < 8 || (y2 as i64) - (y1 as i64) < 8 {
        return (frame.clone(), (0, 0), single::from_u64(frame.height as u64));
    }
    let inner: Single = (y + h).min(single::from_i64(y2 as i64)) - y.max(
        single::from_i64(y1 as i64),
    );
    (crop_img(frame, x1, y1, x2, y2), (x1, y1), inner.max(single::of(EIGHT)))
}

/// A coordinate on the pixels of an axis.
pub open spec fn on_axis(x: Single, limit: int) -> int {
    x.clamp(single::of(0), Single::from_int(limit) - single::of(single::ONE)).to_int(
        i32::MIN as int,
        i32::MAX as int,
    )
}

/// The whole part of a padding, as a number again.
pub open spec fn whole_pad(size: Single, pad: Single) -> Single {
    Single::from_int((size * pad).to_int(i32::MIN as int, i32::MAX as int))
}

fn axis_clamp(x: Single, limit: u32) -> (r: i32)
    requires
        0 < limit <= geom::SIDE_MAX,
    ensures
        r == on_axis(x, limit as int),
        0 <= r < i32::MAX,
        limit <= AXIS_MAX ==> r < limit,
{
    let last: Single = single::from_u64(limit as u64) - single::of(single::ONE);
    proof {
        geom::lemma_less_one(limit as int);
        geom::lemma_on_image(x, limit as int);
        assert(last.max(single::of(0)).key() == last.key());
    }
    let c: Single = x.clamp(single::of(0), last);
    proof {
        let d = geom::on_image(x, Single::from_int(limit as int));
        if c != d {
            assert(c.mag() == 0 && d.mag() == 0);
            assert(c.to_int(i32::MIN as int, i32::MAX as int) == d.to_int(
                i32::MIN as int,
                i32::MAX as int,
            )) by {
                reveal(Single::to_int);
                facts::lemma_single_int_nonneg(c, i32::MIN as int, i32::MAX as int);
                facts::lemma_single_int_nonneg(d, i32::MIN as int, i32::MAX as int);
            }
        }
    }
    c.to_i32()
}

/// The box `[x, y, w, h, ..]` padded on each side by whole pixels, as the corners
/// `(x1, y1, x2, y2)` of pixels of the frame; the lower edges are one further.
pub fn crop_box_pad(frame: &BgrImage, d: &[Single; 5], pad_x: Single, pad_y: Single) -> (r: (
    i32,
    i32,
    i32,
    i32,
))
    requires
        0 < frame.width <= geom::SIDE_MAX,
        0 < frame.height <= geom::SIDE_MAX,
    ensures
        r.0 == on_axis(d[0] - whole_pad(d[2], pad_x), frame.width as int),
        r.1 == on_axis(d[1] - whole_pad(d[3], pad_y), frame.height as int) + 1,
        r.2 == on_axis(d[0] + d[2] + whole_pad(d[2], pad_x), frame.width as int),
        r.3 == on_axis(d[1] + d[3] + whole_pad(d[3], pad_y), frame.height as int) + 1,
        0 <= r.0,
        1 <= r.1,
        0 <= r.2,
        1 <= r.3,
        frame.width <= AXIS_MAX ==> r.0 < frame.width && r.2 < frame.width,
        frame.height <= AXIS_MAX ==> r.1 <= frame.height && r.3 <= frame.height,
{
    let (x, y, w, h) = (d[0], d[1], d[2], d[3]);
    let px: Single = single::from_i64((w * pad_x).to_i32() as i64);
    let py: Single = single::from_i64((h * pad_y).to_i32() as i64);
    (
        axis_clamp(x - px, frame.width),
        axis_clamp(y - py, frame.height) + 1,
        axis_clamp(x + w + px, frame.width),
        axis_clamp(y + h + py, frame.height) + 1,
    )
}

/// The words of the horizontal and vertical padding of a face crop.
pub const PAD_X: u32 = 0x3dcc_cccd;
pub const PAD_Y: u32 = 0x3e00_0000;

/// The padded box of a face.
pub fn crop_box(frame: &BgrImage, d: &[Single; 5]) -> (r: (i32, i32, i32, i32))
    requires
        0 < frame.width <= geom::SIDE_MAX,
        0 < frame.height <= geom::SIDE_MAX,
    ensures
        r.0 == on_axis(d[0] - whole_pad(d[2], single::of(PAD_X)), frame.width as int),
        r.1 == on_axis(d[1] - whole_pad(d[3], single::of(PAD_Y)), frame.height as int) + 1,
        r.2 == on_axis(d[0] + d[2] + whole_pad(d[2], single::of(PAD_X)), frame.width as int),
        r.3 == on_axis(d[1] + d[3] + whole_pad(d[3], single::of(PAD_Y)), frame.height as int) + 1,
{
    crop_box_pad(frame, d, single::of(PAD_X), single::of(PAD_Y))
}

/// How much of two boxes overlaps, of what they cover together.
pub open spec fn overlap(a: Seq<Single>, b: Seq<Single>) -> Single {
    let l = a[0].max(b[0]);
    let t = a[1].max(b[1]);
    let r = (a[0] + a[2]).min(b[0] + b[2]);
    let bot = (a[1] + a[3]).min(b[1] + b[3]);
    if r.le(l) || bot.le(t) {
        single::of(0)
    } else {
        let inter = (r - l) * (bot - t);
        inter / (a[2] * a[3] + b[2] * b[3] - inter)
    }
}

/// Intersection over union of a detection and a box.
pub fn iou(a: &[Single; 5], b: &[Single; 4]) -> (r: Single)
    ensures
        r == overlap(a@, b@),
{
    let (ax2, ay2) = (a[0] + a[2], a[1] + a[3]);
    let (bx2, by2) = (b[0] + b[2], b[1] + b[3]);
    let l: Single = a[0].max(b[0]);
    let t: Single = a[1].max(b[1]);
    let r: Single = ax2.min(bx2);
    let bot: Single = ay2.min(by2);
    if r.le(l) || bot.le(t) {
        return single::of(0);
    }
    let inter: Single = (r - l) * (bot - t);
    inter / (a[2] * a[3] + b[2] * b[3] - inter)
}

} // verus!
