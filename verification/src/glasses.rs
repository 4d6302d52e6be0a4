//! Eyes behind glasses: glare, pupils that are lost for a moment, and painted rims for trials.

use crate::ieee::decimal;
use crate::ieee::facts;
use crate::ieee::maths::hypot;
use crate::ieee::single;
use crate::ieee::single::Single;
use crate::preprocess;
use crate::preprocess::{byte_of, BgrImage};
use vstd::prelude::*;

verus! {

/// The landmarks of the right eye.
pub const RIGHT_EYE: [usize; 6] = [36, 37, 38, 39, 40, 41];

/// The landmarks of the left eye.
pub const LEFT_EYE: [usize; 6] = [42, 43, 44, 45, 46, 47];

/// The word of the least confidence of a pupil.
pub const GAZE_MIN_CONF: u32 = 0x3e38_51ec;

/// The word of the share of bright pixels above which there is glare.
pub const GLARE_FRAC_THRESH: u32 = 0x3c75_c28f;

/// A pupil `[open, row, column, confidence]`, the place and confidence of the one before in its
/// stead where its own confidence has collapsed.
pub open spec fn held(prev: Seq<Single>, next: Seq<Single>) -> Seq<Single> {
    let least = single::of(GAZE_MIN_CONF);
    if next[3].lt(least) && prev[3].ge(least) {
        seq![next[0], prev[1], prev[2], prev[3]]
    } else {
        next
    }
}

fn hold_one(prev: [Single; 4], next: [Single; 4]) -> (r: [Single; 4])
    ensures
        r@ == held(prev@, next@),
{
    let least: Single = single::of(GAZE_MIN_CONF);
    if next[3].lt(least) && prev[3].ge(least) {
        let r: [Single; 4] = [next[0], prev[1], prev[2], prev[3]];
        proof {
            assert(r@ =~= held(prev@, next@));
        }
        r
    } else {
        next
    }
}

/// Keeps the pupils of the frame before where the confidence of the new ones has collapsed.
pub fn hold_gaze(prev: [[Single; 4]; 2], next: [[Single; 4]; 2]) -> (r: [[Single; 4]; 2])
    ensures
        forall|i: int| 0 <= i < 2 ==> (#[trigger] r[i])@ == held(prev[i]@, next[i]@),
{
    [hold_one(prev[0], next[0]), hold_one(prev[1], next[1])]
}

pub open spec fn luma_spec(b: u8, g: u8, r: u8) -> Single {
    single::of(decimal::N0_114) * Single::from_int(b as int) + single::of(decimal::N0_587)
        * Single::from_int(g as int) + single::of(decimal::N0_299) * Single::from_int(r as int)
}

/// The brightness of a pixel.
#[verifier::when_used_as_spec(luma_spec)]
pub fn luma(b: u8, g: u8, r: u8) -> (v: Single)
    ensures
        v == luma_spec(b, g, r),
{
    single::of(decimal::N0_114) * single::from_u64(b as u64) + single::of(decimal::N0_587)
        * single::from_u64(g as u64) + single::of(decimal::N0_299) * single::from_u64(r as u64)
}

/// A count kept in single precision: one is added `n` times.
pub open spec fn counted(n: int) -> Single
    decreases n,
{
    if n <= 0 {
        single::of(0)
    } else {
        counted(n - 1) + single::of(single::ONE)
    }
}

/// Whether a pixel is blown out.
pub open spec fn hot(b: u8, g: u8, r: u8) -> bool {
    luma(b, g, r).gt(single::of(decimal::N235))
}

fn is_hot(b: u8, g: u8, r: u8) -> (h: bool)
    ensures
        h == hot(b, g, r),
{
    luma(b, g, r).gt(single::of(decimal::N235))
}

/// How many of the first `n` pixels are blown out.
pub open spec fn hot_pixels(data: Seq<u8>, n: int) -> int
    decreases n,
{
    if n <= 0 {
        0
    } else {
        hot_pixels(data, n - 1) + if hot(
            data[3 * (n - 1)],
            data[3 * (n - 1) + 1],
            data[3 * (n - 1) + 2],
        ) {
            1int
        } else {
            0
        }
    }
}

/// One count as a share of another, zero of none.
pub open spec fn share_of(part: int, all: int) -> Single {
    if counted(all).le(single::of(0)) {
        single::of(0)
    } else {
        counted(part) / counted(all)
    }
}

/// The share of the pixels that is blown out.
pub fn glare_frac(im: &BgrImage) -> (r: Single)
    ensures
        r == (if im.data@.len() < 3 {
            single::of(0)
        } else {
            share_of(
                hot_pixels(im.data@, im.data@.len() as int / 3),
                im.data@.len() as int / 3,
            )
        }),
{
    if im.data.len() < 3 {
        return single::of(0);
    }
    let one: Single = single::of(single::ONE);
    let total: usize = im.data.len() / 3;
    let mut n: Single = single::of(0);
    let mut bright: Single = single::of(0);
    let mut i: usize = 0;
    while i < total
        invariant
            i <= total,
            total == im.data@.len() / 3,
            im.data@.len() <= usize::MAX,
            one == single::of(single::ONE),
            n == counted(i as int),
            0 <= hot_pixels(im.data@, i as int),
            bright == counted(hot_pixels(im.data@, i as int)),
        decreases total - i,
    {
        n = n + one;
        if is_hot(im.data[3 * i], im.data[3 * i + 1], im.data[3 * i + 2]) {
            bright = bright + one;
        }
        i = i + 1;
    }
    if n.le(single::of(0)) {
        single::of(0)
    } else {
        bright / n
    }
}

/// Whether the pixel at a coordinate is blown out; one outside of the picture is not.
pub open spec fn hot_at(im: BgrImage, x: int, y: int) -> bool {
    if im.holds(x, y) {
        hot(im.at(x, y, 0), im.at(x, y, 1), im.at(x, y, 2))
    } else {
        hot(0, 0, 0)
    }
}

/// How many pixels of a row are blown out, from column `xa` to before `xe`.
pub open spec fn hot_in_row(im: BgrImage, y: int, xa: int, xe: int) -> int
    decreases xe - xa,
{
    if xe <= xa {
        0
    } else {
        hot_in_row(im, y, xa, xe - 1) + if hot_at(im, xe - 1, y) {
            1int
        } else {
            0
        }
    }
}

/// How many pixels of a part are blown out, from row `ya` to before `ye`.
pub open spec fn hot_in_rows(im: BgrImage, xa: int, xe: int, ya: int, ye: int) -> int
    decreases ye - ya,
{
    if ye <= ya {
        0
    } else {
        hot_in_rows(im, xa, xe, ya, ye - 1) + hot_in_row(im, ye - 1, xa, xe)
    }
}

/// The first pixel at or before `v` on an axis.
pub open spec fn part_start(v: Single) -> int {
    v.max(single::of(0)).floor().to_int(i32::MIN as int, i32::MAX as int)
}

/// The last pixel at or behind `v` on an axis of `n`.
pub open spec fn part_end(v: Single, n: u32) -> int {
    v.min(Single::from_int(n as int) - single::of(single::ONE)).ceil().to_int(
        i32::MIN as int,
        i32::MAX as int,
    )
}

/// The share of the pixels of a part that is blown out, zero of a part that is empty.
pub open spec fn part_glare(im: BgrImage, xa: int, ya: int, xb: int, yb: int) -> Single {
    if xb <= xa || yb <= ya {
        single::of(0)
    } else {
        share_of(
            hot_in_rows(im, xa, xb + 1, ya, yb + 1),
            (xb + 1 - xa) * (yb + 1 - ya),
        )
    }
}

/// The share of the pixels between two corners that is blown out.
pub fn region_glare_frac(im: &BgrImage, x1: Single, y1: Single, x2: Single, y2: Single) -> (r: Single)
    requires
        im.wf(),
    ensures
        r == part_glare(
            *im,
            part_start(x1),
            part_start(y1),
            part_end(x2, im.width),
            part_end(y2, im.height),
        ),
{
    let zero: Single = single::of(0);
    let one: Single = single::of(single::ONE);
    let xa: i32 = x1.max(zero).floor().to_i32();
    let ya: i32 = y1.max(zero).floor().to_i32();
    let xb: i32 = x2.min(single::from_u64(im.width as u64) - one).ceil().to_i32();
    let yb: i32 = y2.min(single::from_u64(im.height as u64) - one).ceil().to_i32();
    if xb <= xa || yb <= ya {
        return zero;
    }
    let ghost (fx, fy) = (xa as int, ya as int);
    let ghost ex = xb + 1;
    let ghost w = ex - fx;
    let mut n: Single = zero;
    let mut bright: Single = zero;
    let mut y: i64 = ya as i64;
    assert(w * 0 == 0);
    while y <= yb as i64
        invariant
            im.wf(),
            one == single::of(single::ONE),
            fx == xa,
            fy == ya,
            ex == xb + 1,
            w == ex - fx,
            w > 0,
            ya <= y <= yb + 1,
            n == counted(w * (y - fy)),
            0 <= hot_in_rows(*im, fx, ex, fy, y as int),
            bright == counted(hot_in_rows(*im, fx, ex, fy, y as int)),
        decreases yb + 1 - y,
    {
        let ghost base = w * (y - fy);
        let ghost above = hot_in_rows(*im, fx, ex, fy, y as int);
        proof {
            assert(base >= 0) by (nonlinear_arith)
                requires
                    base == w * (y - fy),
                    w > 0,
                    y >= fy,
            ;
        }
        let mut x: i64 = xa as i64;
        while x <= xb as i64
            invariant
                im.wf(),
                one == single::of(single::ONE),
                fx == xa,
                ex == xb + 1,
                xa <= x <= xb + 1,
                ya <= y <= yb,
                base >= 0,
                above >= 0,
                n == counted(base + (x - fx)),
                0 <= hot_in_row(*im, y as int, fx, x as int),
                bright == counted(above + hot_in_row(*im, y as int, fx, x as int)),
            decreases xb + 1 - x,
        {
            n = n + one;
            let c: [u8; 3] = im.get(x as i32, y as i32);
            if is_hot(c[0], c[1], c[2]) {
                bright = bright + one;
            }
            proof {
                assert(c[0] == (if im.holds(x as int, y as int) {
                    im.at(x as int, y as int, 0)
                } else {
                    0
                }));
            }
            x = x + 1;
        }
        proof {
            assert(base + w == w * (y + 1 - fy)) by (nonlinear_arith)
                requires
                    base == w * (y - fy),
            ;
        }
        y = y + 1;
    }
    proof {
        assert(w * (y - fy) == (xb + 1 - xa) * (yb + 1 - ya));
    }
    if n.le(zero) {
        zero
    } else {
        bright / n
    }
}

/// How many of the first `n` values are below `v`.
pub open spec fn below(ys: Seq<u8>, v: int) -> int
    decreases ys.len(),
{
    if ys.len() == 0 {
        0
    } else {
        below(ys.drop_last(), v) + if ys.last() < v {
            1int
        } else {
            0
        }
    }
}

/// Whether `v` stands at place `k` once the values are sorted.
pub open spec fn stands_at(ys: Seq<u8>, k: int, v: u8) -> bool {
    below(ys, v as int) <= k < below(ys, v + 1)
}

/// The whole brightness of each pixel.
pub open spec fn lumas(data: Seq<u8>) -> Seq<u8> {
    Seq::new(
        data.len() / 3,
        |i: int| luma(data[3 * i], data[3 * i + 1], data[3 * i + 2]).to_int(0, 255) as u8,
    )
}

/// The brightness above which pixels are dimmed.
pub open spec fn cap_of(p70: u8) -> Single {
    (Single::from_int(p70 as int) + single::of(decimal::N18)).min(single::of(decimal::N220))
}

/// A sample of a pixel with brightness `l`, dimmed towards the cap.
pub open spec fn dimmed(v: u8, l: Single, cap: Single) -> u8 {
    if l.le(cap) {
        v
    } else {
        preprocess::to_byte(
            Single::from_int(v as int) * (cap / l.max(single::of(single::ONE))).clamp(
                single::of(decimal::N0_35),
                single::of(single::ONE),
            ),
        )
    }
}

/// A picture's bytes, with every whole pixel dimmed.
pub open spec fn deglared(data: Seq<u8>, cap: Single) -> Seq<u8> {
    Seq::new(
        data.len(),
        |i: int|
            if i < 3 * (data.len() / 3) {
                let p = 3 * (i / 3);
                dimmed(data[i], luma(data[p], data[p + 1], data[p + 2]), cap)
            } else {
                data[i]
            },
    )
}

proof fn lemma_below_bounds(ys: Seq<u8>, v: int)
    ensures
        0 <= below(ys, v) <= ys.len(),
        v <= 0 ==> below(ys, v) == 0,
        v >= 256 ==> below(ys, v) == ys.len(),
    decreases ys.len(),
{
    if ys.len() > 0 {
        lemma_below_bounds(ys.drop_last(), v);
    }
}

fn count_below(ys: &Vec<u8>, v: u16) -> (r: usize)
    ensures
        r == below(ys@, v as int),
{
    let mut r: usize = 0;
    let mut i: usize = 0;
    assert(ys@.take(0) =~= Seq::empty());
    while i < ys.len()
        invariant
            i <= ys@.len(),
            r == below(ys@.take(i as int), v as int),
            r <= i,
        decreases ys@.len() - i,
    {
        assert(ys@.take(i + 1).drop_last() =~= ys@.take(i as int));
        if (ys[i] as u16) < v {
            r = r + 1;
        }
        i = i + 1;
    }
    assert(ys@.take(i as int) =~= ys@);
    r
}

fn nth(ys: &Vec<u8>, k: usize) -> (v: u8)
    requires
        k < ys@.len(),
    ensures
        stands_at(ys@, k as int, v),
{
    let mut v: u16 = 0;
    proof {
        lemma_below_bounds(ys@, 0);
    }
    while v < 255 && count_below(ys, v + 1) <= k
        invariant
            v <= 255,
            k < ys@.len(),
            below(ys@, v as int) <= k,
        decreases 255 - v,
    {
        v = v + 1;
    }
    proof {
        lemma_below_bounds(ys@, 256);
    }
    v as u8
}

/// A sorted place holds one value only.
pub proof fn lemma_stands_once(ys: Seq<u8>, k: int, a: u8, b: u8)
    requires
        stands_at(ys, k, a),
        stands_at(ys, k, b),
    ensures
        a == b,
{
    if a < b {
        lemma_below_monotone(ys, a + 1, b as int);
    } else if b < a {
        lemma_below_monotone(ys, b + 1, a as int);
    }
}

proof fn lemma_below_monotone(ys: Seq<u8>, v: int, w: int)
    requires
        v <= w,
    ensures
        below(ys, v) <= below(ys, w),
    decreases ys.len(),
{
    if ys.len() > 0 {
        lemma_below_monotone(ys.drop_last(), v, w);
    }
}

/// Dims the brightest pixels of an eye towards what seven tenths of its pixels stay below.
pub fn suppress_glare(im: &mut BgrImage)
    ensures
        final(im).width == old(im).width,
        final(im).height == old(im).height,
        old(im).data@.len() < 12 ==> final(im).data@ == old(im).data@,
        old(im).data@.len() >= 12 ==> exists|p70: u8|
            #![trigger cap_of(p70)]
            stands_at(
                lumas(old(im).data@),
                (old(im).data@.len() as int / 3) * 7 / 10,
                p70,
            ) && final(im).data@ == deglared(old(im).data@, cap_of(p70)),
{
    if im.data.len() < 12 {
        return;
    }
    let ghost before = im.data@;
    let total: usize = im.data.len() / 3;
    let mut ys: Vec<u8> = Vec::new();
    let mut i: usize = 0;
    while i < total
        invariant
            i <= total,
            im.data@ == before,
            total == before.len() / 3,
            before.len() <= usize::MAX,
            ys@ == lumas(before).take(i as int),
        decreases total - i,
    {
        ys.push(luma(im.data[3 * i], im.data[3 * i + 1], im.data[3 * i + 2]).to_u8());
        i = i + 1;
        assert(ys@ =~= lumas(before).take(i as int));
    }
    assert(ys@ =~= lumas(before));
    let k: usize = total / 10 * 7 + total % 10 * 7 / 10;
    assert(k == total as int * 7 / 10 && k < total);
    let p70: u8 = nth(&ys, k);
    let cap: Single = (single::from_u64(p70 as u64) + single::of(decimal::N18)).min(
        single::of(decimal::N220),
    );
    assert(cap == cap_of(p70));
    let ghost want = deglared(before, cap);
    let mut p: usize = 0;
    while p < total
        invariant
            p <= total,
            total == before.len() / 3,
            before.len() <= usize::MAX,
            im.data@.len() == before.len(),
            im.width == old(im).width,
            im.height == old(im).height,
            want == deglared(before, cap),
            forall|j: int| 0 <= j < 3 * p ==> #[trigger] im.data@[j] == want[j],
            forall|j: int| 3 * p <= j < before.len() ==> #[trigger] im.data@[j] == before[j],
        decreases total - p,
    {
        let at: usize = 3 * p;
        let (b, g, r) = (im.data[at], im.data[at + 1], im.data[at + 2]);
        let l: Single = luma(b, g, r);
        proof {
            assert(at as int / 3 == p && (at + 1) / 3 == p && (at + 2) / 3 == p);
            assert(want[at as int] == dimmed(b, l, cap));
            assert(want[at + 1] == dimmed(g, l, cap));
            assert(want[at + 2] == dimmed(r, l, cap));
        }
        if !l.le(cap) {
            let s: Single = (cap / l.max(single::of(single::ONE))).clamp(
                single::of(decimal::N0_35),
                single::of(single::ONE),
            );
            im.data[at] = byte_of(single::from_u64(b as u64) * s);
            im.data[at + 1] = byte_of(single::from_u64(g as u64) * s);
            im.data[at + 2] = byte_of(single::from_u64(r as u64) * s);
        }
        p = p + 1;
    }
    assert(im.data@ =~= want);
    assert(im.data@ == deglared(before, cap_of(p70)));
}

/// Dimming makes no sample brighter.
pub proof fn lemma_dimming(v: u8, l: Single, p70: u8)
    ensures
        dimmed(v, l, cap_of(p70)) <= v,
{
    let cap = cap_of(p70);
    let s = (cap / l.max(single::of(single::ONE))).clamp(
        single::of(decimal::N0_35),
        single::of(single::ONE),
    );
    if !l.le(cap) {
        if s.is_nan() {
            facts::lemma_nan_product(Single::from_int(v as int), s);
        } else {
            facts::lemma_single_share(v as int, s);
        }
        let r = (Single::from_int(v as int) * s).round();
        let c = r.clamp(single::of(0), single::of(preprocess::FULL));
        facts::lemma_single_from_int(v as int);
        facts::lemma_single_int_bound(c, v as int, 0, 255);
    }
}

/// The middle of an eye and its reach from there.
#[derive(Clone, Copy, Debug, PartialEq, Eq, Structural)]
pub struct EyeGeom {
    pub cx: Single,
    pub cy: Single,
    pub rx: Single,
    pub ry: Single,
}

/// Whether a landmark of an eye counts.
pub open spec fn sure(p: [Single; 3]) -> bool {
    !p[2].lt(single::of(decimal::N0_15))
}

/// How many of the first `n` landmarks of an eye count.
pub open spec fn sure_count(lms: Seq<[Single; 3]>, idx: Seq<usize>, n: int) -> int
    decreases n,
{
    if n <= 0 {
        0
    } else {
        sure_count(lms, idx, n - 1) + if sure(lms[idx[n - 1] as int]) {
            1int
        } else {
            0
        }
    }
}

/// The sum of coordinate `c` of those of the first `n` landmarks that count.
pub open spec fn sure_sum(lms: Seq<[Single; 3]>, idx: Seq<usize>, c: int, n: int) -> Single
    decreases n,
{
    if n <= 0 {
        single::of(0)
    } else {
        let s = sure_sum(lms, idx, c, n - 1);
        let p = lms[idx[n - 1] as int];
        if sure(p) {
            s + p[c]
        } else {
            s
        }
    }
}

/// The largest distance from `m` in coordinate `c` of those of the first `n` landmarks that count.
pub open spec fn sure_reach(lms: Seq<[Single; 3]>, idx: Seq<usize>, c: int, m: Single, n: int) -> Single
    decreases n,
{
    if n <= 0 {
        single::of(0)
    } else {
        let s = sure_reach(lms, idx, c, m, n - 1);
        let p = lms[idx[n - 1] as int];
        if sure(p) {
            s.max((p[c] - m).abs())
        } else {
            s
        }
    }
}

/// The place of an eye, where it has all its landmarks and at least three of them count.
pub open spec fn geom_of(lms: Seq<[Single; 3]>, idx: Seq<usize>) -> Option<EyeGeom> {
    if exists|k: int| 0 <= k < 6 && #[trigger] idx[k] >= lms.len() {
        None
    } else {
        let n = counted(sure_count(lms, idx, 6));
        if n.lt(single::of(decimal::N3)) {
            None
        } else {
            let cx = sure_sum(lms, idx, 1, 6) / n;
            let cy = sure_sum(lms, idx, 0, 6) / n;
            Some(
                EyeGeom {
                    cx,
                    cy,
                    rx: sure_reach(lms, idx, 1, cx, 6).max(single::of(decimal::N3)),
                    ry: sure_reach(lms, idx, 0, cy, 6).max(single::of(decimal::N2)),
                },
            )
        }
    }
}

/// The place of an eye, where it has all its landmarks and at least three of them count.
pub fn eye_geom(lms: &[[Single; 3]], idx: &[usize; 6]) -> (r: Option<EyeGeom>)
    ensures
        r == geom_of(lms@, idx@),
{
    let floor: Single = single::of(decimal::N0_15);
    let one: Single = single::of(single::ONE);
    let mut cx: Single = single::of(0);
    let mut cy: Single = single::of(0);
    let mut n: Single = single::of(0);
    let mut k: usize = 0;
    while k < 6
        invariant
            k <= 6,
            floor == single::of(decimal::N0_15),
            one == single::of(single::ONE),
            forall|j: int| 0 <= j < k ==> #[trigger] idx[j] < lms@.len(),
            0 <= sure_count(lms@, idx@, k as int),
            n == counted(sure_count(lms@, idx@, k as int)),
            cx == sure_sum(lms@, idx@, 1, k as int),
            cy == sure_sum(lms@, idx@, 0, k as int),
        decreases 6 - k,
    {
        let i: usize = idx[k];
        if i >= lms.len() {
            return None;
        }
        let p: [Single; 3] = lms[i];
        if !p[2].lt(floor) {
            cx = cx + p[1];
            cy = cy + p[0];
            n = n + one;
        }
        k = k + 1;
    }
    if n.lt(single::of(decimal::N3)) {
        return None;
    }
    let cx: Single = cx / n;
    let cy: Single = cy / n;
    let mut rx: Single = single::of(0);
    let mut ry: Single = single::of(0);
    let mut k: usize = 0;
    while k < 6
        invariant
            k <= 6,
            floor == single::of(decimal::N0_15),
            forall|j: int| 0 <= j < 6 ==> #[trigger] idx[j] < lms@.len(),
            rx == sure_reach(lms@, idx@, 1, cx, k as int),
            ry == sure_reach(lms@, idx@, 0, cy, k as int),
        decreases 6 - k,
    {
        let p: [Single; 3] = lms[idx[k]];
        if !p[2].lt(floor) {
            rx = rx.max((p[1] - cx).abs());
            ry = ry.max((p[0] - cy).abs());
        }
        k = k + 1;
    }
    Some(
        EyeGeom { cx, cy, rx: rx.max(single::of(decimal::N3)), ry: ry.max(single::of(decimal::N2)) },
    )
}

/// The colour of a painted rim.
pub const RIM: [u8; 3] = [28, 24, 22];

/// The colour of a painted highlight.
pub const SPOT: [u8; 3] = [255, 252, 248];

/// Whether the pixel lies on the rim around an eye: an oval ring, held to the picture.
pub open spec fn on_rim(e: EyeGeom, width: u32, height: u32, x: int, y: int) -> bool {
    let one = single::of(single::ONE);
    let z = single::of(0);
    let three = single::of(decimal::N3);
    let (lo, hi) = (i32::MIN as int, i32::MAX as int);
    let rx = e.rx * single::of(decimal::N1_25);
    let ry = e.ry * single::of(decimal::N1_45);
    let x1 = (e.cx - rx - three).floor().max(z).to_int(lo, hi);
    let y1 = (e.cy - ry - three).floor().max(z).to_int(lo, hi);
    let x2 = (e.cx + rx + three).ceil().min(Single::from_int(width as int) - one).to_int(lo, hi);
    let y2 = (e.cy + ry + three).ceil().min(Single::from_int(height as int) - one).to_int(lo, hi);
    let dx = (Single::from_int(x) - e.cx) / rx.max(one);
    let dy = (Single::from_int(y) - e.cy) / ry.max(one);
    let r2 = dx * dx + dy * dy;
    &&& x1 <= x <= x2
    &&& y1 <= y <= y2
    &&& !r2.gt(single::of(decimal::N1_05))
    &&& !r2.lt(single::of(decimal::N0_62))
}

/// Whether the pixel lies in the highlight on an eye.
pub open spec fn on_spot(e: EyeGeom, x: int, y: int) -> bool {
    let (lo, hi) = (i32::MIN as int, i32::MAX as int);
    let bx = e.cx + e.rx * single::of(decimal::N0_18);
    let by = e.cy - e.ry * single::of(decimal::N0_12);
    let dx = Single::from_int(x) - bx;
    let dy = Single::from_int(y) - by;
    &&& (bx - single::of(decimal::N3_5)).to_int(lo, hi) <= x <= (bx + single::of(decimal::N3_5)).to_int(
        lo,
        hi,
    )
    &&& (by - single::of(decimal::N2_5)).to_int(lo, hi) <= y <= (by + single::of(decimal::N2_5)).to_int(
        lo,
        hi,
    )
    &&& (dx * dx / single::of(decimal::N12) + dy * dy / single::of(decimal::N6)).le(
        single::of(single::ONE),
    )
}

fn dab(frame: &mut BgrImage, x: i32, y: i32, colour: [u8; 3])
    requires
        old(frame).wf(),
    ensures
        final(frame).wf(),
        final(frame).width == old(frame).width,
        final(frame).height == old(frame).height,
        forall|px: int, py: int, c: int|
            old(frame).holds(px, py) && 0 <= c < 3 ==> #[trigger] final(frame).at(px, py, c) == (if px
                == x && py == y {
                colour[c]
            } else {
                old(frame).at(px, py, c)
            }),
{
    let ghost before = *frame;
    frame.set(x, y, colour);
    proof {
        let w = before.width as int;
        let h = before.height as int;
        assert forall|px: int, py: int, c: int| before.holds(px, py) && 0 <= c < 3 implies #[trigger] frame.at(
            px,
            py,
            c,
        ) == (if px == x && py == y {
            colour[c]
        } else {
            before.at(px, py, c)
        }) by {
            preprocess::lemma_place(w, h, px, py, c);
            if before.holds(x as int, y as int) {
                preprocess::lemma_place(w, h, x as int, y as int, 0);
                preprocess::lemma_place(w, h, x as int, y as int, 1);
                preprocess::lemma_place(w, h, x as int, y as int, 2);
            }
        }
    }
}

/// Whether a pixel comes before `(x, y)` when rows are gone through one after the other.
spec fn passed(px: int, py: int, x: int, y: int) -> bool {
    py < y || (py == y && px < x)
}

/// Whether `now` is `before` with the rim painted on the pixels that come before `(x, y)`.
spec fn rimmed(before: BgrImage, now: BgrImage, e: EyeGeom, x: int, y: int) -> bool {
    &&& now.wf()
    &&& now.width == before.width
    &&& now.height == before.height
    &&& forall|px: int, py: int, c: int|
        before.holds(px, py) && 0 <= c < 3 ==> #[trigger] now.at(px, py, c) == (if passed(px, py, x, y)
            && on_rim(e, before.width, before.height, px, py) {
            RIM[c]
        } else {
            before.at(px, py, c)
        })
}

fn paint_rim(frame: &mut BgrImage, e: EyeGeom)
    requires
        old(frame).wf(),
    ensures
        rimmed(*old(frame), *final(frame), e, 0, i32::MAX + 1),
{
    let one: Single = single::of(single::ONE);
    let z: Single = single::of(0);
    let three: Single = single::of(decimal::N3);
    let rx: Single = e.rx * single::of(decimal::N1_25);
    let ry: Single = e.ry * single::of(decimal::N1_45);
    let x1: i32 = (e.cx - rx - three).floor().max(z).to_i32();
    let y1: i32 = (e.cy - ry - three).floor().max(z).to_i32();
    let x2: i32 = (e.cx + rx + three).ceil().min(single::from_u64(frame.width as u64) - one).to_i32();
    let y2: i32 = (e.cy + ry + three).ceil().min(single::from_u64(frame.height as u64) - one).to_i32();
    let rim: [u8; 3] = RIM;
    let ghost before = *frame;
    let mut y: i64 = y1 as i64;
    while y <= y2 as i64
        invariant
            before == *old(frame),
            x1 == (e.cx - rx - three).floor().max(z).to_int(i32::MIN as int, i32::MAX as int),
            y1 == (e.cy - ry - three).floor().max(z).to_int(i32::MIN as int, i32::MAX as int),
            x2 == (e.cx + rx + three).ceil().min(Single::from_int(before.width as int) - one).to_int(
                i32::MIN as int,
                i32::MAX as int,
            ),
            y2 == (e.cy + ry + three).ceil().min(Single::from_int(before.height as int) - one).to_int(
                i32::MIN as int,
                i32::MAX as int,
            ),
            one == single::of(single::ONE),
            z == single::of(0),
            three == single::of(decimal::N3),
            rx == e.rx * single::of(decimal::N1_25),
            ry == e.ry * single::of(decimal::N1_45),
            rim == RIM,
            y1 <= y,
            rimmed(before, *frame, e, 0, y as int),
        decreases y2 + 1 - y,
    {
        let mut x: i64 = x1 as i64;
        proof {
            assert forall|px: int, py: int, c: int| before.holds(px, py) && 0 <= c < 3 implies #[trigger] frame.at(
                px,
                py,
                c,
            ) == (if passed(px, py, x as int, y as int) && on_rim(
                e,
                before.width,
                before.height,
                px,
                py,
            ) {
                RIM[c]
            } else {
                before.at(px, py, c)
            }) by {}
        }
        while x <= x2 as i64
            invariant
                x1 <= x,
                y1 <= y <= y2,
                x1 == (e.cx - rx - three).floor().max(z).to_int(i32::MIN as int, i32::MAX as int),
                y1 == (e.cy - ry - three).floor().max(z).to_int(i32::MIN as int, i32::MAX as int),
                x2 == (e.cx + rx + three).ceil().min(Single::from_int(before.width as int) - one).to_int(
                    i32::MIN as int,
                    i32::MAX as int,
                ),
                y2 == (e.cy + ry + three).ceil().min(
                    Single::from_int(before.height as int) - one,
                ).to_int(i32::MIN as int, i32::MAX as int),
                one == single::of(single::ONE),
                z == single::of(0),
                three == single::of(decimal::N3),
                rx == e.rx * single::of(decimal::N1_25),
                ry == e.ry * single::of(decimal::N1_45),
                rim == RIM,
                rimmed(before, *frame, e, x as int, y as int),
            decreases x2 + 1 - x,
        {
            let dx: Single = (single::from_i64(x) - e.cx) / rx.max(one);
            let dy: Single = (single::from_i64(y) - e.cy) / ry.max(one);
            let r2: Single = dx * dx + dy * dy;
            let ghost at = *frame;
            if !(r2.gt(single::of(decimal::N1_05)) || r2.lt(single::of(decimal::N0_62))) {
                assert(on_rim(e, before.width, before.height, x as int, y as int));
                dab(frame, x as i32, y as i32, rim);
            } else {
                assert(!on_rim(e, before.width, before.height, x as int, y as int));
            }
            proof {
                assert forall|px: int, py: int, c: int| before.holds(px, py) && 0 <= c < 3 implies #[trigger] frame.at(
                    px,
                    py,
                    c,
                ) == (if passed(px, py, x + 1, y as int) && on_rim(
                    e,
                    before.width,
                    before.height,
                    px,
                    py,
                ) {
                    RIM[c]
                } else {
                    before.at(px, py, c)
                }) by {
                    assert(at.holds(px, py));
                    assert(at.at(px, py, c) == (if passed(px, py, x as int, y as int) && on_rim(
                        e,
                        before.width,
                        before.height,
                        px,
                        py,
                    ) {
                        RIM[c]
                    } else {
                        before.at(px, py, c)
                    }));
                }
            }
            x = x + 1;
        }
        proof {
            assert forall|px: int, py: int, c: int| before.holds(px, py) && 0 <= c < 3 implies #[trigger] frame.at(
                px,
                py,
                c,
            ) == (if passed(px, py, 0, y + 1) && on_rim(e, before.width, before.height, px, py) {
                RIM[c]
            } else {
                before.at(px, py, c)
            }) by {}
        }
        y = y + 1;
    }
    proof {
        assert forall|px: int, py: int, c: int| before.holds(px, py) && 0 <= c < 3 implies #[trigger] frame.at(
            px,
            py,
            c,
        ) == (if passed(px, py, 0, i32::MAX + 1) && on_rim(e, before.width, before.height, px, py) {
            RIM[c]
        } else {
            before.at(px, py, c)
        }) by {}
    }
}

/// Whether `now` is `before` with the highlight painted on the pixels that come before `(x, y)`.
spec fn spotted(before: BgrImage, now: BgrImage, e: EyeGeom, x: int, y: int) -> bool {
    &&& now.wf()
    &&& now.width == before.width
    &&& now.height == before.height
    &&& forall|px: int, py: int, c: int|
        before.holds(px, py) && 0 <= c < 3 ==> #[trigger] now.at(px, py, c) == (if passed(px, py, x, y)
            && on_spot(e, px, py) {
            SPOT[c]
        } else {
            before.at(px, py, c)
        })
}

fn paint_spot(frame: &mut BgrImage, e: EyeGeom)
    requires
        old(frame).wf(),
    ensures
        spotted(*old(frame), *final(frame), e, 0, i32::MAX + 1),
{
    let bx: Single = e.cx + e.rx * single::of(decimal::N0_18);
    let by: Single = e.cy - e.ry * single::of(decimal::N0_12);
    let x1: i32 = (bx - single::of(decimal::N3_5)).to_i32();
    let x2: i32 = (bx + single::of(decimal::N3_5)).to_i32();
    let y1: i32 = (by - single::of(decimal::N2_5)).to_i32();
    let y2: i32 = (by + single::of(decimal::N2_5)).to_i32();
    let spot: [u8; 3] = SPOT;
    let ghost before = *frame;
    let mut y: i64 = y1 as i64;
    while y <= y2 as i64
        invariant
            before == *old(frame),
            bx == e.cx + e.rx * single::of(decimal::N0_18),
            by == e.cy - e.ry * single::of(decimal::N0_12),
            x1 == (bx - single::of(decimal::N3_5)).to_int(i32::MIN as int, i32::MAX as int),
            x2 == (bx + single::of(decimal::N3_5)).to_int(i32::MIN as int, i32::MAX as int),
            y1 == (by - single::of(decimal::N2_5)).to_int(i32::MIN as int, i32::MAX as int),
            y2 == (by + single::of(decimal::N2_5)).to_int(i32::MIN as int, i32::MAX as int),
            spot == SPOT,
            y1 <= y,
            spotted(before, *frame, e, 0, y as int),
        decreases y2 + 1 - y,
    {
        let mut x: i64 = x1 as i64;
        proof {
            assert forall|px: int, py: int, c: int| before.holds(px, py) && 0 <= c < 3 implies #[trigger] frame.at(
                px,
                py,
                c,
            ) == (if passed(px, py, x as int, y as int) && on_spot(e, px, py) {
                SPOT[c]
            } else {
                before.at(px, py, c)
            }) by {}
        }
        while x <= x2 as i64
            invariant
                x1 <= x,
                y1 <= y <= y2,
                bx == e.cx + e.rx * single::of(decimal::N0_18),
                by == e.cy - e.ry * single::of(decimal::N0_12),
                x1 == (bx - single::of(decimal::N3_5)).to_int(i32::MIN as int, i32::MAX as int),
                x2 == (bx + single::of(decimal::N3_5)).to_int(i32::MIN as int, i32::MAX as int),
                y1 == (by - single::of(decimal::N2_5)).to_int(i32::MIN as int, i32::MAX as int),
                y2 == (by + single::of(decimal::N2_5)).to_int(i32::MIN as int, i32::MAX as int),
                spot == SPOT,
                spotted(before, *frame, e, x as int, y as int),
            decreases x2 + 1 - x,
        {
            let dx: Single = single::from_i64(x) - bx;
            let dy: Single = single::from_i64(y) - by;
            let ghost at = *frame;
            if (dx * dx / single::of(decimal::N12) + dy * dy / single::of(decimal::N6)).le(
                single::of(single::ONE),
            ) {
                assert(on_spot(e, x as int, y as int));
                dab(frame, x as i32, y as i32, spot);
            } else {
                assert(!on_spot(e, x as int, y as int));
            }
            proof {
                assert forall|px: int, py: int, c: int| before.holds(px, py) && 0 <= c < 3 implies #[trigger] frame.at(
                    px,
                    py,
                    c,
                ) == (if passed(px, py, x + 1, y as int) && on_spot(e, px, py) {
                    SPOT[c]
                } else {
                    before.at(px, py, c)
                }) by {
                    assert(at.holds(px, py));
                    assert(at.at(px, py, c) == (if passed(px, py, x as int, y as int) && on_spot(
                        e,
                        px,
                        py,
                    ) {
                        SPOT[c]
                    } else {
                        before.at(px, py, c)
                    }));
                }
            }
            x = x + 1;
        }
        proof {
            assert forall|px: int, py: int, c: int| before.holds(px, py) && 0 <= c < 3 implies #[trigger] frame.at(
                px,
                py,
                c,
            ) == (if passed(px, py, 0, y + 1) && on_spot(e, px, py) {
                SPOT[c]
            } else {
                before.at(px, py, c)
            }) by {}
        }
        y = y + 1;
    }
    proof {
        assert forall|px: int, py: int, c: int| before.holds(px, py) && 0 <= c < 3 implies #[trigger] frame.at(
            px,
            py,
            c,
        ) == (if passed(px, py, 0, i32::MAX + 1) && on_spot(e, px, py) {
            SPOT[c]
        } else {
            before.at(px, py, c)
        }) by {}
    }
}

/// The colour of a pixel once an eye's glass has been painted over `under`: the highlight, the
/// rim, or what was there.
pub open spec fn glass_over(e: Option<EyeGeom>, width: u32, height: u32, x: int, y: int, c: int, under: u8) -> u8 {
    match e {
        Some(e) => if on_spot(e, x, y) {
            SPOT[c]
        } else if on_rim(e, width, height, x, y) {
            RIM[c]
        } else {
            under
        },
        None => under,
    }
}

fn paint_glass(frame: &mut BgrImage, lms: &[[Single; 3]], idx: &[usize; 6])
    requires
        old(frame).wf(),
    ensures
        final(frame).wf(),
        final(frame).width == old(frame).width,
        final(frame).height == old(frame).height,
        forall|x: int, y: int, c: int|
            old(frame).holds(x, y) && 0 <= c < 3 ==> #[trigger] final(frame).at(x, y, c) == glass_over(
                geom_of(lms@, idx@),
                old(frame).width,
                old(frame).height,
                x,
                y,
                c,
                old(frame).at(x, y, c),
            ),
{
    if let Some(e) = eye_geom(lms, idx) {
        let ghost before = *frame;
        paint_rim(frame, e);
        let ghost mid = *frame;
        paint_spot(frame, e);
        proof {
            assert forall|x: int, y: int, c: int| before.holds(x, y) && 0 <= c < 3 implies #[trigger] frame.at(
                x,
                y,
                c,
            ) == glass_over(
                Some(e),
                before.width,
                before.height,
                x,
                y,
                c,
                before.at(x, y, c),
            ) by {
                assert(before.height * 3 <= u32::MAX) by (nonlinear_arith)
                    requires
                        before.width * before.height * 3 <= u32::MAX,
                        before.width >= 1,
                        before.height >= 0,
                ;
                assert(mid.holds(x, y));
                assert(mid.at(x, y, c) == (if on_rim(e, before.width, before.height, x, y) {
                    RIM[c]
                } else {
                    before.at(x, y, c)
                }));
            }
        }
    }
}

/// Paints glasses on a face: a dark oval rim and a highlight on each eye whose landmarks are
/// sure enough, the right eye first.
pub fn paint_synthetic_glasses(frame: &mut BgrImage, lms: &[[Single; 3]])
    requires
        old(frame).wf(),
    ensures
        final(frame).wf(),
        final(frame).width == old(frame).width,
        final(frame).height == old(frame).height,
        forall|x: int, y: int, c: int|
            old(frame).holds(x, y) && 0 <= c < 3 ==> #[trigger] final(frame).at(x, y, c) == glass_over(
                geom_of(lms@, LEFT_EYE@),
                old(frame).width,
                old(frame).height,
                x,
                y,
                c,
                glass_over(
                    geom_of(lms@, RIGHT_EYE@),
                    old(frame).width,
                    old(frame).height,
                    x,
                    y,
                    c,
                    old(frame).at(x, y, c),
                ),
            ),
{
    let right: [usize; 6] = RIGHT_EYE;
    let left: [usize; 6] = LEFT_EYE;
    let ghost before = *frame;
    paint_glass(frame, lms, &right);
    let ghost mid = *frame;
    paint_glass(frame, lms, &left);
    proof {
        assert forall|x: int, y: int, c: int| before.holds(x, y) && 0 <= c < 3 implies #[trigger] frame.at(x, y, c)
            == glass_over(
            geom_of(lms@, LEFT_EYE@),
            before.width,
            before.height,
            x,
            y,
            c,
            glass_over(
                geom_of(lms@, RIGHT_EYE@),
                before.width,
                before.height,
                x,
                y,
                c,
                before.at(x, y, c),
            ),
        ) by {
            assert(mid.holds(x, y));
            assert(mid.at(x, y, c) == glass_over(
                geom_of(lms@, RIGHT_EYE@),
                before.width,
                before.height,
                x,
                y,
                c,
                before.at(x, y, c),
            ));
        }
    }
}

/// The gap between the lids as a part of the width of the eye.
pub open spec fn gap_of(lms: Seq<[Single; 3]>, outer: int, inner: int, lids: Seq<usize>) -> Single {
    let half = single::of(decimal::N0_5);
    let o = lms[outer];
    let i = lms[inner];
    let w = hypot(i[1] - o[1], i[0] - o[0]).max(single::of(decimal::N0_000001));
    let p = |k: int| lms[lids[k] as int][0];
    ((p(0) + p(1)) * half - (p(2) + p(3)) * half).abs() / w
}

/// The gap between the lids as a part of the width of the eye.
pub fn lid_gap(lms: &[[Single; 3]], outer: usize, inner: usize, lids: [usize; 4]) -> (r: Option<Single>)
    ensures
        r is Some <==> outer < lms@.len() && inner < lms@.len() && lids[0] < lms@.len() && lids[1]
            < lms@.len() && lids[2] < lms@.len() && lids[3] < lms@.len(),
        r is Some ==> r->0 == gap_of(lms@, outer as int, inner as int, lids@),
{
    let n: usize = lms.len();
    if outer >= n || inner >= n || lids[0] >= n || lids[1] >= n || lids[2] >= n || lids[3] >= n {
        return None;
    }
    let half: Single = single::of(decimal::N0_5);
    let o: [Single; 3] = lms[outer];
    let i: [Single; 3] = lms[inner];
    let w: Single = hypot(i[1] - o[1], i[0] - o[0]).max(single::of(decimal::N0_000001));
    let gap: Single = ((lms[lids[0]][0] + lms[lids[1]][0]) * half - (lms[lids[2]][0]
        + lms[lids[3]][0]) * half).abs();
    Some(gap / w)
}

/// How far the eyes are open in the picture: the mean of both gaps.
pub fn ear_2d(lms: &[[Single; 3]]) -> (r: Option<Single>)
    ensures
        r == (if lms@.len() < 48 {
            None
        } else {
            Some(
                single::of(decimal::N0_5) * (gap_of(lms@, 36, 39, seq![37usize, 38, 41, 40]) + gap_of(
                    lms@,
                    42,
                    45,
                    seq![43usize, 44, 47, 46],
                )),
            )
        }),
{
    if lms.len() < 48 {
        return None;
    }
    let a: [usize; 4] = [37, 38, 41, 40];
    let b: [usize; 4] = [43, 44, 47, 46];
    proof {
        assert(a@ =~= seq![37usize, 38, 41, 40]);
        assert(b@ =~= seq![43usize, 44, 47, 46]);
    }
    let right = lid_gap(lms, 36, 39, a);
    let left = lid_gap(lms, 42, 45, b);
    match (right, left) {
        (Some(x), Some(y)) => Some(single::of(decimal::N0_5) * (x + y)),
        (Some(x), None) => Some(x),
        (None, Some(y)) => Some(y),
        (None, None) => None,
    }
}

} // verus!
