//! Tensors and what the networks' outputs mean.

use crate::geom;
use crate::ieee::convert;
use crate::ieee::facts;
use crate::ieee::maths;
use crate::ieee::near;
use crate::ieee::near::{real_of, size};
use crate::ieee::rises;
use crate::ieee::single;
use crate::ieee::single::Single;
use crate::ieee::words;
use vstd::arithmetic::div_mod::*;
use vstd::prelude::*;

verus! {

/// A landmark network: its file, input edge, heat map and how its offsets are
/// scaled.
#[derive(Clone, Copy, Debug)]
pub struct LmSpec {
    pub model_type: i32,
    pub file: &'static str,
    pub size: u32,
    pub out_res: i32,
    pub points: usize,
    pub logit: Single,
}

/// No landmark network has this number.
#[derive(Clone, Copy, Debug, PartialEq, Eq, Structural)]
pub struct InvalidModel {
    pub model_type: i32,
}

/// The words of the two offset scales.
pub const LOGIT_WIDE: u32 = 0x4180_0000;
pub const LOGIT_SMALL: u32 = 0x4100_0000;

/// The file of a landmark network.
pub open spec fn model_file(t: int) -> Seq<char> {
    if t == -3 {
        "lm_modelU_opt.onnx"@
    } else if t == -2 {
        "lm_modelV_opt.onnx"@
    } else if t == -1 {
        "lm_modelT_opt.onnx"@
    } else if t == 0 {
        "lm_model0_opt.onnx"@
    } else if t == 1 {
        "lm_model1_opt.onnx"@
    } else if t == 2 {
        "lm_model2_opt.onnx"@
    } else if t == 3 {
        "lm_model3_opt.onnx"@
    } else {
        "lm_model4_opt.onnx"@
    }
}

impl LmSpec {
    /// Whether this describes network `t`.
    pub open spec fn describes(self, t: int) -> bool {
        &&& self.model_type == t
        &&& self.file@ == model_file(t)
        &&& self.size == (if t == -1 {
            56
        } else if t < 0 {
            112
        } else {
            224u32
        })
        &&& self.out_res == (if t == -1 {
            6
        } else if t < 0 {
            13
        } else {
            27i32
        })
        &&& self.points == (if t == -1 {
            30
        } else {
            66usize
        })
        &&& self.logit == (if t == -1 {
            single::of(LOGIT_SMALL)
        } else {
            single::of(LOGIT_WIDE)
        })
    }

    /// The heat maps are not empty and can be counted.
    pub open spec fn wf(self) -> bool {
        &&& 0 <= self.out_res <= 0xff
        &&& self.points <= 0xffff
    }

    fn wide(t: i32, file: &'static str) -> (r: Self)
        ensures
            r == (LmSpec {
                model_type: t,
                file,
                size: 224,
                out_res: 27,
                points: 66,
                logit: single::of(LOGIT_WIDE),
            }),
    {
        LmSpec {
            model_type: t,
            file,
            size: 224,
            out_res: 27,
            points: 66,
            logit: single::of(LOGIT_WIDE),
        }
    }

    /// The landmark network with number `t`, from -3 to 4.
    pub fn from_type(t: i32) -> (r: Result<Self, InvalidModel>)
        ensures
            -3 <= t <= 4 ==> r is Ok && r->Ok_0.describes(t as int) && r->Ok_0.wf(),
            !(-3 <= t <= 4) ==> r == Err::<Self, InvalidModel>(InvalidModel { model_type: t }),
    {
        let small: Single = single::of(LOGIT_SMALL);
        let big: Single = single::of(LOGIT_WIDE);
        match t {
            -3 => Ok(
                LmSpec {
                    model_type: t,
                    file: "lm_modelU_opt.onnx",
                    size: 112,
                    out_res: 13,
                    points: 66,
                    logit: big,
                },
            ),
            -2 => Ok(
                LmSpec {
                    model_type: t,
                    file: "lm_modelV_opt.onnx",
                    size: 112,
                    out_res: 13,
                    points: 66,
                    logit: big,
                },
            ),
            -1 => Ok(
                LmSpec {
                    model_type: t,
                    file: "lm_modelT_opt.onnx",
                    size: 56,
                    out_res: 6,
                    points: 30,
                    logit: small,
                },
            ),
            0 => Ok(Self::wide(t, "lm_model0_opt.onnx")),
            1 => Ok(Self::wide(t, "lm_model1_opt.onnx")),
            2 => Ok(Self::wide(t, "lm_model2_opt.onnx")),
            3 => Ok(Self::wide(t, "lm_model3_opt.onnx")),
            4 => Ok(Self::wide(t, "lm_model4_opt.onnx")),
            _ => Err(InvalidModel { model_type: t }),
        }
    }

    /// The edge of a heat map.
    pub fn grid(self) -> (r: i32)
        requires
            self.out_res < i32::MAX,
        ensures
            r == self.out_res + 1,
    {
        self.out_res + 1
    }
}

/// A tensor of half-precision words.
#[derive(Debug)]
pub struct TensorF16 {
    pub shape: Vec<i64>,
    pub data: Vec<u16>,
}

/// The product of the first `k` entries of a shape.
pub open spec fn volume(shape: Seq<i64>, k: int) -> int
    decreases k,
{
    if k <= 0 {
        1
    } else {
        volume(shape, k - 1) * shape[k - 1]
    }
}

impl TensorF16 {
    /// A tensor of zeros. The entries of the shape are not negative, and no part
    /// of their product is too large to count.
    pub fn zeros(shape: Vec<i64>) -> (r: Self)
        requires
            forall|k: int| 0 <= k < shape@.len() ==> 0 <= #[trigger] shape@[k] <= usize::MAX,
            forall|k: int|
                0 <= k <= shape@.len() ==> 0 <= #[trigger] volume(shape@, k) <= usize::MAX,
        ensures
            r.shape == shape,
            r.data@ == Seq::new(volume(shape@, shape@.len() as int) as nat, |i: int| 0u16),
    {
        let mut n: usize = 1;
        let mut k: usize = 0;
        while k < shape.len()
            invariant
                k <= shape@.len(),
                n == volume(shape@, k as int),
                forall|k: int| 0 <= k < shape@.len() ==> 0 <= #[trigger] shape@[k] <= usize::MAX,
                forall|k: int|
                    0 <= k <= shape@.len() ==> 0 <= #[trigger] volume(shape@, k) <= usize::MAX,
            decreases shape@.len() - k,
        {
            assert(0 <= volume(shape@, k + 1) <= usize::MAX);
            assert(0 <= shape@[k as int] <= usize::MAX);
            n = n * (shape[k] as usize);
            k = k + 1;
        }
        let data: Vec<u16> = vec![0u16; n];
        TensorF16 { shape, data }
    }

    /// A tensor of the nearest half-precision words.
    pub fn from_f32(shape: Vec<i64>, data: &[Single]) -> (r: Self)
        ensures
            r.shape == shape,
            r.data@ == Seq::new(data@.len(), |i: int| convert::half_word(data@[i])),
    {
        let mut out: Vec<u16> = Vec::new();
        let mut i: usize = 0;
        while i < data.len()
            invariant
                i <= data@.len(),
                out@ == Seq::new(i as nat, |j: int| convert::half_word(data@[j])),
            decreases data@.len() - i,
        {
            out.push(convert::half_word(data[i]));
            i = i + 1;
            assert(out@ =~= Seq::new(i as nat, |j: int| convert::half_word(data@[j])));
        }
        TensorF16 { shape, data: out }
    }

    /// The values of the words.
    pub fn to_f32(&self) -> (r: Vec<Single>)
        ensures
            r@ == Seq::new(self.data@.len(), |i: int| convert::from_half(self.data@[i])),
    {
        let mut out: Vec<Single> = Vec::new();
        let mut i: usize = 0;
        while i < self.data.len()
            invariant
                i <= self.data@.len(),
                out@ == Seq::new(i as nat, |j: int| convert::from_half(self.data@[j])),
            decreases self.data@.len() - i,
        {
            out.push(convert::from_half(self.data[i]));
            i = i + 1;
            assert(out@ =~= Seq::new(i as nat, |j: int| convert::from_half(self.data@[j])));
        }
        out
    }
}

/// The number of cells of the detector's map.
pub const PLANE: usize = 3136;

/// The words of the numbers of the detector.
pub const PEAK_SLACK: u32 = 0x3586_37bd;
pub const RADIUS: u32 = 0x42e0_0000;
pub const INPUT: u32 = 0x4360_0000;
pub const CELL: u32 = 0x4080_0000;
pub const TWO: u32 = 0x4000_0000;

/// The heat of a cell; zero where it is not the largest about it.
pub open spec fn heat_at(outputs: Seq<u16>, maxpool: Seq<u16>, i: int) -> Single {
    let v = convert::from_half(outputs[i]);
    if (v - convert::from_half(maxpool[i])).abs().gt(single::of(PEAK_SLACK)) {
        single::of(0)
    } else {
        v
    }
}

/// The first of the hottest of the first `k` values that are not taken, or none.
pub open spec fn hottest(heat: Seq<Single>, taken: Seq<bool>, k: int) -> Option<int>
    decreases k,
{
    if k <= 0 {
        None
    } else {
        match hottest(heat, taken, k - 1) {
            None => if taken[k - 1] {
                None
            } else {
                Some(k - 1)
            },
            Some(b) => if !taken[k - 1] && heat[k - 1].gt(heat[b]) {
                Some(k - 1)
            } else {
                Some(b)
            },
        }
    }
}

/// The box of a cell `[x, y, w, h, heat]` in a frame of `fw x fh`.
pub open spec fn cell_box(i: int, r: Single, heat: Single, fw: int, fh: int) -> Seq<Single> {
    let x = Single::from_int(i % 56);
    let y = Single::from_int(i / 56);
    let sx = Single::from_int(fw) / single::of(INPUT);
    let sy = Single::from_int(fh) / single::of(INPUT);
    seq![
        (x * single::of(CELL) - r) * sx,
        (y * single::of(CELL) - r) * sy,
        single::of(TWO) * r * sx,
        single::of(TWO) * r * sy,
        heat,
    ]
}

/// The boxes of the hottest cells that are not taken, down to `thresh`, at most
/// `n`.
pub open spec fn faces_of(
    heat: Seq<Single>,
    radius: Seq<Single>,
    taken: Seq<bool>,
    fw: int,
    fh: int,
    thresh: Single,
    n: int,
) -> Seq<Seq<Single>>
    decreases n,
{
    if n <= 0 {
        Seq::empty()
    } else {
        match hottest(heat, taken, heat.len() as int) {
            None => Seq::empty(),
            Some(b) => if heat[b].ge(thresh) {
                seq![cell_box(b, radius[b], heat[b], fw, fh)] + faces_of(
                    heat,
                    radius,
                    taken.update(b, true),
                    fw,
                    fh,
                    thresh,
                    n - 1,
                )
            } else {
                Seq::empty()
            },
        }
    }
}

fn find_hottest(heat: &Vec<Single>, taken: &Vec<bool>) -> (r: Option<usize>)
    requires
        heat@.len() == taken@.len(),
    ensures
        r is None <==> hottest(heat@, taken@, heat@.len() as int) is None,
        r is Some ==> r->0 < heat@.len() && hottest(heat@, taken@, heat@.len() as int) == Some(
            r->0 as int,
        ),
{
    let mut best: Option<usize> = None;
    let mut k: usize = 0;
    while k < heat.len()
        invariant
            k <= heat@.len() == taken@.len(),
            best is None <==> hottest(heat@, taken@, k as int) is None,
            best is Some ==> best->0 < k && hottest(heat@, taken@, k as int) == Some(
                best->0 as int,
            ),
        decreases heat@.len() - k,
    {
        match best {
            None => {
                if !taken[k] {
                    best = Some(k);
                }
            },
            Some(b) => {
                if !taken[k] && heat[k].gt(heat[b]) {
                    best = Some(k);
                }
            },
        }
        k = k + 1;
    }
    best
}

/// The boxes as sequences.
pub open spec fn boxes(v: Seq<[Single; 5]>) -> Seq<Seq<Single>> {
    Seq::new(v.len(), |i: int| v[i]@)
}

/// The heats of all cells of the detector's output.
pub open spec fn heats(outputs: Seq<u16>, maxpool: Seq<u16>) -> Seq<Single> {
    Seq::new(PLANE as nat, |i: int| heat_at(outputs, maxpool, i))
}

/// The radii of all cells of the detector's output.
pub open spec fn radii(outputs: Seq<u16>) -> Seq<Single> {
    Seq::new(
        PLANE as nat,
        |i: int| convert::from_half(outputs[PLANE + i]) * single::of(RADIUS),
    )
}

/// The faces that the detector sees, at most `n`, hottest first: boxes
/// `[x, y, w, h, heat]` in a frame of `fw x fh`.
pub fn detect_faces_n(
    outputs: &TensorF16,
    maxpool: &TensorF16,
    fw: u32,
    fh: u32,
    thresh: Single,
    n: usize,
) -> (dets: Vec<[Single; 5]>)
    requires
        outputs.data@.len() >= 2 * PLANE,
        maxpool.data@.len() >= PLANE,
    ensures
        boxes(dets@) == faces_of(
            heats(outputs.data@, maxpool.data@),
            radii(outputs.data@),
            Seq::new(PLANE as nat, |i: int| false),
            fw as int,
            fh as int,
            thresh,
            n as int,
        ),
{
    let ghost hs = heats(outputs.data@, maxpool.data@);
    let ghost rs = radii(outputs.data@);
    let ghost none = Seq::new(PLANE as nat, |i: int| false);
    let mut heat: Vec<Single> = Vec::new();
    let mut taken: Vec<bool> = Vec::new();
    let mut i: usize = 0;
    while i < PLANE
        invariant
            i <= PLANE,
            outputs.data@.len() >= 2 * PLANE,
            maxpool.data@.len() >= PLANE,
            heat@.len() == i,
            taken@.len() == i,
            forall|k: int| 0 <= k < i ==> heat@[k] == heat_at(outputs.data@, maxpool.data@, k),
            forall|k: int| 0 <= k < i ==> !taken@[k],
        decreases PLANE - i,
    {
        let v: Single = convert::from_half(outputs.data[i]);
        let apart: bool = (v - convert::from_half(maxpool.data[i])).abs().gt(
            single::of(PEAK_SLACK),
        );
        heat.push(if apart { single::of(0) } else { v });
        taken.push(false);
        i = i + 1;
    }
    assert(heat@ =~= hs);
    assert(taken@ =~= none);
    let sx: Single = single::from_u64(fw as u64) / single::of(INPUT);
    let sy: Single = single::from_u64(fh as u64) / single::of(INPUT);
    let two: Single = single::of(TWO);
    let cell: Single = single::of(CELL);
    let mut dets: Vec<[Single; 5]> = Vec::new();
    let mut left: usize = n;
    let ghost all = faces_of(hs, rs, none, fw as int, fh as int, thresh, n as int);
    assert(boxes(dets@) + all =~= all);
    while left > 0
        invariant
            outputs.data@.len() >= 2 * PLANE,
            heat@ == hs,
            hs == heats(outputs.data@, maxpool.data@),
            none == Seq::new(PLANE as nat, |i: int| false),
            rs == radii(outputs.data@),
            hs.len() == PLANE,
            taken@.len() == PLANE,
            sx == Single::from_int(fw as int) / single::of(INPUT),
            sy == Single::from_int(fh as int) / single::of(INPUT),
            two == single::of(TWO),
            cell == single::of(CELL),
            all == faces_of(hs, rs, none, fw as int, fh as int, thresh, n as int),
            all == boxes(dets@) + faces_of(
                hs,
                rs,
                taken@,
                fw as int,
                fh as int,
                thresh,
                left as int,
            ),
        decreases left,
    {
        let ghost rest = faces_of(hs, rs, taken@, fw as int, fh as int, thresh, left as int);
        match find_hottest(&heat, &taken) {
            None => {
                assert(boxes(dets@) + rest =~= boxes(dets@));
                return dets;
            },
            Some(b) => {
                if !heat[b].ge(thresh) {
                    assert(boxes(dets@) + rest =~= boxes(dets@));
                    return dets;
                }
                let y: Single = single::from_u64((b / 56) as u64);
                let x: Single = single::from_u64((b % 56) as u64);
                let r: Single = convert::from_half(outputs.data[PLANE + b]) * single::of(RADIUS);
                let ghost before = boxes(dets@);
                let one: [Single; 5] = [
                    (x * cell - r) * sx,
                    (y * cell - r) * sy,
                    two * r * sx,
                    two * r * sy,
                    heat[b],
                ];
                dets.push(one);
                taken[b] = true;
                left = left - 1;
                proof {
                    let here = cell_box(b as int, rs[b as int], hs[b as int], fw as int, fh as int);
                    assert(one@ =~= here);
                    assert(boxes(dets@) =~= before + seq![here]);
                    let after = faces_of(hs, rs, taken@, fw as int, fh as int, thresh, left as int);
                    assert(before + (seq![here] + after) =~= (before + seq![here]) + after);
                }
            },
        }
    }
    assert(boxes(dets@) + Seq::empty() =~= boxes(dets@));
    dets
}

/// The hottest face that the detector sees, if it is at least `thresh`.
pub fn detect_faces(
    outputs: &TensorF16,
    maxpool: &TensorF16,
    fw: u32,
    fh: u32,
    thresh: Single,
) -> (dets: Vec<[Single; 5]>)
    requires
        outputs.data@.len() >= 2 * PLANE,
        maxpool.data@.len() >= PLANE,
    ensures
        boxes(dets@) == faces_of(
            heats(outputs.data@, maxpool.data@),
            radii(outputs.data@),
            Seq::new(PLANE as nat, |i: int| false),
            fw as int,
            fh as int,
            thresh,
            1,
        ),
{
    detect_faces_n(outputs, maxpool, fw, fh, thresh, 1)
}

/// The last of the largest of the first `k` values from `base` on: a later value
/// takes over unless it is smaller.
pub open spec fn peak(data: Seq<u16>, base: int, k: int) -> int
    decreases k,
{
    if k <= 1 {
        0
    } else {
        let b = peak(data, base, k - 1);
        if convert::from_half(data[base + b]).gt(convert::from_half(data[base + k - 1])) {
            b
        } else {
            k - 1
        }
    }
}

/// Finds the last of the largest of `n` words from `base` on.
pub fn find_peak(data: &[u16], base: usize, n: usize) -> (b: usize)
    requires
        1 <= n,
        base + n <= data@.len(),
    ensures
        b == peak(data@, base as int, n as int),
        b < n,
{
    let len: usize = data.len();
    let mut b: usize = 0;
    let mut k: usize = 1;
    while k < n
        invariant
            1 <= k <= n,
            len == data@.len(),
            base + n <= len,
            b == peak(data@, base as int, k as int),
            b < k,
        decreases n - k,
    {
        if !convert::from_half(data[base + b]).gt(convert::from_half(data[base + k])) {
            b = k;
        }
        k = k + 1;
    }
    b
}

/// The place of a landmark on the network's heat map, how sure it is, and the odds
/// whose logarithms move it.
#[derive(Clone, Copy, Debug)]
pub struct Peak {
    pub cell: usize,
    pub conf: Single,
    pub odds_x: Single,
    pub odds_y: Single,
}

/// The peak of landmark `p` of a network with `points` landmarks and `cells` cells.
pub open spec fn peak_of(data: Seq<u16>, points: int, cells: int, p: int) -> Peak {
    let b = peak(data, p * cells, cells);
    Peak {
        cell: b as usize,
        conf: convert::from_half(data[p * cells + b]),
        odds_x: geom::odds(convert::from_half(data[(points + p) * cells + b])),
        odds_y: geom::odds(convert::from_half(data[(2 * points + p) * cells + b])),
    }
}

/// Reads the peaks of all landmarks off a network's output.
pub fn landmark_peaks(data: &[u16], spec: LmSpec) -> (r: Vec<Peak>)
    requires
        spec.wf(),
        data@.len() >= 3 * spec.points * ((spec.out_res + 1) * (spec.out_res + 1)),
    ensures
        r@ == Seq::new(
            spec.points as nat,
            |p: int|
                peak_of(
                    data@,
                    spec.points as int,
                    (spec.out_res + 1) * (spec.out_res + 1),
                    p,
                ),
        ),
{
    let c0: usize = spec.points;
    let g: usize = spec.grid() as usize;
    proof {
        assert(1 <= g * g <= 0x1_0000) by (nonlinear_arith)
            requires
                1 <= g <= 0x100,
        ;
    }
    let cells: usize = g * g;
    let mut out: Vec<Peak> = Vec::new();
    let mut p: usize = 0;
    while p < c0
        invariant
            p <= c0 == spec.points <= 0xffff,
            1 <= cells <= 0x1_0000,
            cells == (spec.out_res + 1) * (spec.out_res + 1),
            data@.len() >= 3 * c0 * cells,
            out@ == Seq::new(p as nat, |k: int| peak_of(data@, c0 as int, cells as int, k)),
        decreases c0 - p,
    {
        proof {
            assert(0 <= p * cells && (p + 1) * cells <= c0 * cells && (p + 1) * cells == p * cells
                + cells) by (nonlinear_arith)
                requires
                    0 <= p < c0,
                    cells >= 1,
            ;
            assert((c0 + p) * cells == c0 * cells + p * cells && (2 * c0 + p) * cells == 2 * (c0
                * cells) + p * cells && 3 * c0 * cells == 3 * (c0 * cells)) by (nonlinear_arith);
            assert(c0 * cells <= 0xffff * 0x1_0000) by (nonlinear_arith)
                requires
                    0 <= c0 <= 0xffff,
                    0 <= cells <= 0x1_0000,
            ;
        }
        let base: usize = p * cells;
        let b: usize = find_peak(data, base, cells);
        let conf: Single = convert::from_half(data[base + b]);
        let odds_x: Single = geom::logit_odds(convert::from_half(data[(c0 + p) * cells + b]));
        let odds_y: Single = geom::logit_odds(convert::from_half(data[(2 * c0 + p) * cells + b]));
        out.push(Peak { cell: b, conf, odds_x, odds_y });
        p = p + 1;
        assert(out@ =~= Seq::new(p as nat, |k: int| peak_of(data@, c0 as int, cells as int, k)));
    }
    out
}

/// A landmark `[row, col, conf]` in the picture: its cell and its offset, the
/// logarithms of its odds, on a crop `[col, row, scale, scale]`.
pub open spec fn landmark(peak: Peak, ln_x: Single, ln_y: Single, crop: Seq<Single>, spec: LmSpec)
    -> Seq<Single> {
    let g = spec.out_res + 1;
    let res = Single::from_int(spec.size as int) - single::of(single::ONE);
    let last = Single::from_int(spec.out_res as int);
    let ox = ln_x / spec.logit * res;
    let oy = ln_y / spec.logit * res;
    let down = (Single::from_int(peak.cell as int) / Single::from_int(g)).floor();
    let across = Single::from_int(peak.cell as int % g).floor();
    seq![
        crop[1] + crop[3] * (res * down / last + ox),
        crop[0] + crop[2] * (res * across / last + oy),
        peak.conf,
    ]
}

/// A place on an axis: `o + k (r d / n + r l / f)`, where `d` of `n` cells lie before it and `l / f` is
/// its offset.
proof fn lemma_axis_place(
    o: Single,
    k: Single,
    res: Single,
    d: Single,
    n: Single,
    l: Single,
    f: Single,
    a: real,
    c: real,
    m: real,
)
    requires
        o.is_finite() && k.is_finite() && res.is_finite() && d.is_finite() && n.is_finite() && l.is_finite()
            && f.is_finite(),
        1real <= real_of(res) <= 16777216real,
        0real <= real_of(d) <= real_of(n),
        1real <= real_of(n) <= 16777216real,
        words::least() <= real_of(f) <= words::most(),
        size(real_of(l)) <= a * real_of(f),
        1real <= a <= words::most(),
        size(real_of(k)) <= c,
        words::least() <= c,
        size(real_of(o)) <= m,
        1real <= m <= words::most(),
        2real * a * c * real_of(res) <= m,
        a * real_of(f) <= words::most(),
        a * real_of(res) <= words::most(),
    ensures
        ({
            let e = l / f * res;
            let p = res * d / n;
            &&& (l / f).is_finite() && e.is_finite() && p.is_finite() && (p + e).is_finite() && (k * (p
                + e)).is_finite()
            &&& (o + k * (p + e)).is_finite()
            &&& size(
                real_of(o + k * (p + e)) - (real_of(o) + real_of(k) * (real_of(res) * real_of(d) / real_of(n)
                    + real_of(res) * real_of(l) / real_of(f))),
            ) <= 32real * near::eps() * m
        }),
{
    let (ro, rk, rr, rd, rn, rl, rf) = (
        real_of(o),
        real_of(k),
        real_of(res),
        real_of(d),
        real_of(n),
        real_of(l),
        real_of(f),
    );
    let af = a * rf;
    assert(af / rf == a && af > 0real) by (nonlinear_arith)
        requires
            af == a * rf,
            rf > 0real,
            a > 0real,
    ;
    near::lemma_itself(o, m);
    near::lemma_itself(k, c);
    near::lemma_itself(res, rr);
    near::lemma_itself(d, rn);
    near::lemma_itself(n, rn);
    near::lemma_itself(l, af);
    near::lemma_itself(f, rf);
    near::lemma_over(l, rl, af, 0real, f, rf, 0real);
    let q = rl / rf;
    let ar = a * rr;
    assert(ar >= 1real) by (nonlinear_arith)
        requires
            ar == a * rr,
            a >= 1real,
            rr >= 1real,
    ;
    near::lemma_times(l / f, q, a, 3real, res, rr, rr, 0real);
    let e = l / f * res;
    let rn2 = rr * rn;
    assert(1real <= rn2 <= 300000000000000real && rn2 / rn == rr) by (nonlinear_arith)
        requires
            rn2 == rr * rn,
            1real <= rr <= 16777216real,
            1real <= rn <= 16777216real,
    ;
    near::lemma_times(res, rr, rr, 0real, d, rd, rn, 0real);
    near::lemma_over(res * d, rr * rd, rn2, 2real, n, rn, 0real);
    let p = res * d / n;
    assert(rr <= ar) by (nonlinear_arith)
        requires
            ar == a * rr,
            a >= 1real,
            rr >= 1real,
    ;
    near::lemma_looser(p, rr * rd / rn, rr, 5real, ar, 5real);
    near::lemma_add(p, rr * rd / rn, ar, e, q * rr, ar, 5real);
    let v = rr * rd / rn + q * rr;
    let ca = c * (ar + ar);
    assert(ca <= m && ca >= 1real / 1000000000000real) by (nonlinear_arith)
        requires
            ca == c * (ar + ar),
            ar == a * rr,
            2real * a * c * rr <= m,
            ar >= 1real,
            c >= 1real / 1000000000000real,
    ;
    near::lemma_times(k, rk, c, 0real, p + e, v, ar + ar, 7real);
    near::lemma_looser(k * (p + e), rk * v, ca, 9real, m, 9real);
    near::lemma_looser(o, ro, m, 0real, m, 9real);
    near::lemma_add(o, ro, m, k * (p + e), rk * v, m, 9real);
    let w = rr * rl / rf;
    assert(w == q * rr) by (nonlinear_arith)
        requires
            w == rr * rl / rf,
            q == rl / rf,
            rf > 0real,
    ;
    let eps = near::eps();
    assert(11real * eps * (m + m) <= 32real * eps * m) by (nonlinear_arith)
        requires
            eps > 0real,
            m >= 1real,
    ;
}

/// What a landmark has to be on: a network with at least two pixels and cells, a peak on its heat map,
/// and numbers of some size: offsets of at most `a`, scales of at most `c`, places of at most `m`.
pub open spec fn can_be_placed(
    peak: Peak,
    ln_x: Single,
    ln_y: Single,
    crop: Seq<Single>,
    spec: LmSpec,
    a: real,
    c: real,
    m: real,
) -> bool {
    let f = real_of(spec.logit);
    let res = (spec.size - 1) as real;
    &&& spec.wf()
    &&& 2 <= spec.size <= 0x100_0000
    &&& 1 <= spec.out_res
    &&& peak.cell < (spec.out_res + 1) * (spec.out_res + 1)
    &&& spec.logit.is_finite() && words::least() <= f <= words::most()
    &&& ln_x.is_finite() && ln_y.is_finite()
    &&& size(real_of(ln_x)) <= a * f && size(real_of(ln_y)) <= a * f
    &&& crop[0].is_finite() && crop[1].is_finite() && crop[2].is_finite() && crop[3].is_finite()
    &&& size(real_of(crop[0])) <= m && size(real_of(crop[1])) <= m
    &&& size(real_of(crop[2])) <= c && size(real_of(crop[3])) <= c
    &&& 1real <= a <= words::most()
    &&& words::least() <= c
    &&& 1real <= m <= words::most()
    &&& 2real * a * c * res <= m
    &&& a * f <= words::most()
    &&& a * res <= words::most()
}

/// The numbers that a landmark is placed with.
proof fn lemma_grid(peak: Peak, spec: LmSpec)
    requires
        spec.wf(),
        2 <= spec.size <= 0x100_0000,
        1 <= spec.out_res,
        peak.cell < (spec.out_res + 1) * (spec.out_res + 1),
    ensures
        ({
            let g = spec.out_res + 1;
            let res = Single::from_int(spec.size as int) - single::of(single::ONE);
            let last = Single::from_int(spec.out_res as int);
            let down = (Single::from_int(peak.cell as int) / Single::from_int(g)).floor();
            let across = Single::from_int(peak.cell as int % g).floor();
            let (y, x) = (peak.cell as int / g, peak.cell as int % g);
            &&& res.is_finite() && real_of(res) == (spec.size - 1) as real
            &&& last.is_finite() && real_of(last) == spec.out_res as real
            &&& down.is_finite() && real_of(down) == y as real && 0 <= y <= spec.out_res
            &&& across.is_finite() && real_of(across) == x as real && 0 <= x <= spec.out_res
        }),
{
    let g = spec.out_res + 1;
    let cell = peak.cell as int;
    facts::lemma_single_minus_one(spec.size as int);
    near::lemma_count(spec.size - 1);
    near::lemma_count(spec.out_res as int);
    assert(g * g <= 0x1_0000) by (nonlinear_arith)
        requires
            2 <= g <= 0x100,
    ;
    words::lemma_floor_ratio(cell, g);
    lemma_fundamental_div_mod(cell, g);
    lemma_mod_bound(cell, g);
    let q = cell / g;
    assert(q < g) by (nonlinear_arith)
        requires
            cell == g * q + cell % g,
            0 <= cell % g,
            cell < g * g,
            g >= 1,
    ;
    near::lemma_count(cell % g);
    facts::lemma_single_from_int(cell % g);
    words::lemma_floor_value(Single::from_int(cell % g), cell % g);
}

/// A landmark stands at its cell, and its offsets move it: on a crop of `size` pixels, a cell row down
/// of `out_res` and its row's offset, both times the crop's scale, from the crop's corner; so for its
/// column; but for rounding.
pub proof fn lemma_landmark_place(
    peak: Peak,
    ln_x: Single,
    ln_y: Single,
    crop: Seq<Single>,
    spec: LmSpec,
    a: real,
    c: real,
    m: real,
)
    requires
        can_be_placed(peak, ln_x, ln_y, crop, spec, a, c, m),
    ensures
        ({
            let r = landmark(peak, ln_x, ln_y, crop, spec);
            let g = spec.out_res + 1;
            let (res, last) = ((spec.size - 1) as real, spec.out_res as real);
            let (down, across) = ((peak.cell as int / g) as real, (peak.cell as int % g) as real);
            let row = real_of(crop[1]) + real_of(crop[3]) * (res * down / last + res * real_of(ln_x)
                / real_of(spec.logit));
            let col = real_of(crop[0]) + real_of(crop[2]) * (res * across / last + res * real_of(ln_y)
                / real_of(spec.logit));
            &&& r.len() == 3
            &&& r[0].is_finite() && r[1].is_finite()
            &&& size(real_of(r[0]) - row) <= 32real * near::eps() * m
            &&& size(real_of(r[1]) - col) <= 32real * near::eps() * m
            &&& r[2] == peak.conf
        }),
{
    let g = spec.out_res + 1;
    let res = Single::from_int(spec.size as int) - single::of(single::ONE);
    let last = Single::from_int(spec.out_res as int);
    let down = (Single::from_int(peak.cell as int) / Single::from_int(g)).floor();
    let across = Single::from_int(peak.cell as int % g).floor();
    lemma_grid(peak, spec);
    lemma_axis_place(crop[1], crop[3], res, down, last, ln_x, spec.logit, a, c, m);
    lemma_axis_place(crop[0], crop[2], res, across, last, ln_y, spec.logit, a, c, m);
}

/// A landmark moves with its offsets: on a crop with scales that are not below zero, a larger logarithm
/// of a row's odds never gives a smaller row and leaves the column, and so for the column's.
pub proof fn lemma_landmark_moves(
    peak: Peak,
    ln_x: Single,
    ln_y: Single,
    to_x: Single,
    to_y: Single,
    crop: Seq<Single>,
    spec: LmSpec,
    a: real,
    c: real,
    m: real,
)
    requires
        can_be_placed(peak, ln_x, ln_y, crop, spec, a, c, m),
        can_be_placed(peak, to_x, to_y, crop, spec, a, c, m),
        single::of(0).le(crop[2]),
        single::of(0).le(crop[3]),
    ensures
        ln_x.le(to_x) ==> landmark(peak, ln_x, ln_y, crop, spec)[0].le(
            landmark(peak, to_x, ln_y, crop, spec)[0],
        ),
        ln_y.le(to_y) ==> landmark(peak, ln_x, ln_y, crop, spec)[1].le(
            landmark(peak, ln_x, to_y, crop, spec)[1],
        ),
        landmark(peak, ln_x, ln_y, crop, spec)[1] == landmark(peak, to_x, ln_y, crop, spec)[1],
        landmark(peak, ln_x, ln_y, crop, spec)[0] == landmark(peak, ln_x, to_y, crop, spec)[0],
{
    let g = spec.out_res + 1;
    let res = Single::from_int(spec.size as int) - single::of(single::ONE);
    let last = Single::from_int(spec.out_res as int);
    let down = (Single::from_int(peak.cell as int) / Single::from_int(g)).floor();
    let across = Single::from_int(peak.cell as int % g).floor();
    lemma_grid(peak, spec);
    lemma_axis_place(crop[1], crop[3], res, down, last, ln_x, spec.logit, a, c, m);
    lemma_axis_place(crop[0], crop[2], res, across, last, ln_y, spec.logit, a, c, m);
    lemma_axis_place(crop[1], crop[3], res, down, last, to_x, spec.logit, a, c, m);
    lemma_axis_place(crop[0], crop[2], res, across, last, to_y, spec.logit, a, c, m);
    words::lemma_nothing();
    near::lemma_real_order(single::of(0), res);
    near::lemma_real_order(single::of(0), spec.logit);
    if ln_x.le(to_x) {
        lemma_axis_moves(crop[1], crop[3], res, res * down / last, ln_x, to_x, spec.logit);
    }
    if ln_y.le(to_y) {
        lemma_axis_moves(crop[0], crop[2], res, res * across / last, ln_y, to_y, spec.logit);
    }
}

proof fn lemma_axis_moves(o: Single, k: Single, res: Single, p: Single, l: Single, t: Single, f: Single)
    requires
        l.le(t),
        o.is_finite() && k.is_finite() && res.is_finite() && p.is_finite() && l.is_finite() && t.is_finite()
            && f.is_finite(),
        single::of(0).le(k),
        single::of(0).le(res),
        single::of(0).lt(f),
        (l / f).is_finite() && (t / f).is_finite(),
        (l / f * res).is_finite() && (t / f * res).is_finite(),
        (p + l / f * res).is_finite() && (p + t / f * res).is_finite(),
        (k * (p + l / f * res)).is_finite() && (k * (p + t / f * res)).is_finite(),
    ensures
        (o + k * (p + l / f * res)).le(o + k * (p + t / f * res)),
{
    rises::lemma_ratio_rises(l, t, f);
    rises::lemma_product_rises(l / f, t / f, res);
    rises::lemma_sum_rises(l / f * res, t / f * res, p);
    rises::lemma_product_rises(p + l / f * res, p + t / f * res, k);
    rises::lemma_sum_rises(k * (p + l / f * res), k * (p + t / f * res), o);
}

/// The confidences of peaks.
pub open spec fn confs(peaks: Seq<Peak>) -> Seq<Single> {
    Seq::new(peaks.len(), |i: int| peaks[i].conf)
}

/// Points as sequences.
pub open spec fn points(v: Seq<[Single; 3]>) -> Seq<Seq<Single>> {
    Seq::new(v.len(), |i: int| v[i]@)
}

/// Places the landmarks of a crop in the picture, given the logarithms of the odds
/// of their peaks, and gives the mean confidence.
pub fn decode_landmarks(
    peaks: &[Peak],
    logs: &[(Single, Single)],
    crop: [Single; 4],
    spec: LmSpec,
) -> (r: (Single, Vec<[Single; 3]>))
    requires
        spec.wf(),
        peaks@.len() == spec.points,
        logs@.len() == spec.points,
    ensures
        r.0 == maths::sum_of(confs(peaks@)) / Single::from_int(spec.points as int),
        points(r.1@) == Seq::new(
            spec.points as nat,
            |p: int| landmark(peaks@[p], logs@[p].0, logs@[p].1, crop@, spec),
        ),
{
    let c0: usize = spec.points;
    let g: i32 = spec.grid();
    let res: Single = single::from_u64(spec.size as u64) - single::of(single::ONE);
    let last: Single = single::from_i64(spec.out_res as i64);
    let mut pts: Vec<[Single; 3]> = Vec::new();
    let mut sum: Single = single::of(0);
    let mut p: usize = 0;
    assert(confs(peaks@).take(0) =~= Seq::empty());
    while p < c0
        invariant
            p <= c0 == spec.points,
            peaks@.len() == c0,
            logs@.len() == c0,
            spec.wf(),
            g == spec.out_res + 1,
            res == Single::from_int(spec.size as int) - single::of(single::ONE),
            last == Single::from_int(spec.out_res as int),
            sum == maths::sum_of(confs(peaks@).take(p as int)),
            points(pts@) == Seq::new(
                p as nat,
                |k: int| landmark(peaks@[k], logs@[k].0, logs@[k].1, crop@, spec),
            ),
        decreases c0 - p,
    {
        let peak: Peak = peaks[p];
        let (ln_x, ln_y) = logs[p];
        let ox: Single = geom::logit(ln_x, spec.logit) * res;
        let oy: Single = geom::logit(ln_y, spec.logit) * res;
        let down: Single = (single::from_u64(peak.cell as u64) / single::from_i64(g as i64)).floor();
        let across: Single = single::from_u64((peak.cell % g as usize) as u64).floor();
        let x: Single = crop[1] + crop[3] * (res * down / last + ox);
        let y: Single = crop[0] + crop[2] * (res * across / last + oy);
        assert(confs(peaks@).take(p + 1).drop_last() =~= confs(peaks@).take(p as int));
        sum = sum + peak.conf;
        let one: [Single; 3] = [x, y, peak.conf];
        let ghost before = points(pts@);
        pts.push(one);
        proof {
            assert(one@ =~= landmark(peak, ln_x, ln_y, crop@, spec));
            assert(points(pts@) =~= before.push(one@));
            assert(points(pts@) =~= Seq::new(
                (p + 1) as nat,
                |k: int| landmark(peaks@[k], logs@[k].0, logs@[k].1, crop@, spec),
            ));
        }
        p = p + 1;
    }
    assert(confs(peaks@).take(p as int) =~= confs(peaks@));
    (sum / single::from_u64(c0 as u64), pts)
}

/// The smallest and largest row and column of points, as `[row, row, col, col]`.
pub open spec fn hull(pts: Seq<Seq<Single>>) -> Seq<Single>
    decreases pts.len(),
{
    if pts.len() == 0 {
        seq![
            single::of(single::MAX),
            single::of(single::MIN),
            single::of(single::MAX),
            single::of(single::MIN),
        ]
    } else {
        let h = hull(pts.drop_last());
        let p = pts.last();
        seq![h[0].min(p[0]), h[1].max(p[0]), h[2].min(p[1]), h[3].max(p[1])]
    }
}

/// The smallest and largest row and column of points.
pub fn hull_of(pts: &[[Single; 3]]) -> (r: [Single; 4])
    ensures
        r@ == hull(points(pts@)),
{
    let mut h: [Single; 4] = [
        single::of(single::MAX),
        single::of(single::MIN),
        single::of(single::MAX),
        single::of(single::MIN),
    ];
    let mut i: usize = 0;
    assert(points(pts@).take(0) =~= Seq::empty());
    assert(h@ =~= hull(points(pts@).take(0)));
    while i < pts.len()
        invariant
            i <= pts@.len(),
            h@ == hull(points(pts@).take(i as int)),
        decreases pts@.len() - i,
    {
        let p: [Single; 3] = pts[i];
        assert(points(pts@).take(i + 1).drop_last() =~= points(pts@).take(i as int));
        h = [h[0].min(p[0]), h[1].max(p[0]), h[2].min(p[1]), h[3].max(p[1])];
        i = i + 1;
        assert(h@ =~= hull(points(pts@).take(i as int)));
    }
    assert(points(pts@).take(i as int) =~= points(pts@));
    h
}

/// The box `[x, y, w, h, 1]` about landmarks `[row, col, conf]`, at least a pixel
/// wide and high; none about nothing.
pub fn landmark_bbox(pts: &[[Single; 3]]) -> (r: Option<[Single; 5]>)
    ensures
        r is None <==> pts@.len() == 0,
        r is Some ==> ({
            let h = hull(points(pts@));
            let one = single::of(single::ONE);
            r->0@ == seq![h[2], h[0], (h[3] - h[2]).max(one), (h[1] - h[0]).max(one), one]
        }),
{
    if pts.len() == 0 {
        return None;
    }
    let h: [Single; 4] = hull_of(pts);
    let one: Single = single::of(single::ONE);
    Some([h[2], h[0], (h[3] - h[2]).max(one), (h[1] - h[0]).max(one), one])
}

/// The landmarks of the eyes.
pub const EYE_IDX: [usize; 12] = [36, 37, 38, 39, 40, 41, 42, 43, 44, 45, 46, 47];

/// The confidences of the points that `idx` names and that are there.
pub open spec fn named_confs(pts: Seq<[Single; 3]>, idx: Seq<usize>) -> Seq<Single>
    decreases idx.len(),
{
    if idx.len() == 0 {
        Seq::empty()
    } else {
        let before = named_confs(pts, idx.drop_last());
        if idx.last() < pts.len() {
            before.push(pts[idx.last() as int][2])
        } else {
            before
        }
    }
}

/// The mean confidence of the points that `idx` names; none where none is there.
pub fn mean_conf(pts: &[[Single; 3]], idx: &[usize]) -> (r: Option<Single>)
    ensures
        ({
            let v = named_confs(pts@, idx@);
            &&& r is None <==> v.len() == 0
            &&& r is Some ==> r->0 == maths::sum_of(v) / Single::from_int(v.len() as int)
        }),
{
    let mut v: Vec<Single> = Vec::new();
    let mut k: usize = 0;
    assert(idx@.take(0) =~= Seq::empty());
    while k < idx.len()
        invariant
            k <= idx@.len(),
            v@ == named_confs(pts@, idx@.take(k as int)),
        decreases idx@.len() - k,
    {
        assert(idx@.take(k + 1).drop_last() =~= idx@.take(k as int));
        let i: usize = idx[k];
        if i < pts.len() {
            v.push(pts[i][2]);
        }
        k = k + 1;
    }
    assert(idx@.take(k as int) =~= idx@);
    if v.len() == 0 {
        None
    } else {
        Some(maths::sum(v.as_slice()) / single::from_u64(v.len() as u64))
    }
}

} // verus!
