//! Illumination: white balance, denoising and histogram equalisation of the
//! brightness, chosen by what the scene looks like.

use crate::ieee::convert;
use crate::ieee::double;
use crate::ieee::double::Double;
use crate::ieee::facts;
use crate::ieee::order;
use crate::ieee::single;
use crate::ieee::single::Single;
use crate::preprocess;
use crate::preprocess::BgrImage;
use crate::simd;
use crate::simd::scalar;
use vstd::arithmetic::div_mod::*;
use vstd::arithmetic::power2::*;
use vstd::prelude::*;

verus! {

/// What is done to the histogram of the brightness.
#[derive(Clone, Copy, Debug, PartialEq, Eq, Structural)]
pub enum HeMode {
    Off,
    Ahe,
    Clahe,
}

impl Default for HeMode {
    fn default() -> (r: Self)
        ensures
            r == HeMode::Clahe,
    {
        HeMode::Clahe
    }
}

impl HeMode {
    /// The name of the mode.
    pub open spec fn name(self) -> Seq<char> {
        match self {
            HeMode::Off => "off"@,
            HeMode::Ahe => "ahe"@,
            HeMode::Clahe => "clahe"@,
        }
    }

    /// The name of the mode.
    pub fn as_str(self) -> (r: &'static str)
        ensures
            r@ == self.name(),
    {
        match self {
            HeMode::Off => "off",
            HeMode::Ahe => "ahe",
            HeMode::Clahe => "clahe",
        }
    }
}

/// What a scene looks like.
#[derive(Clone, Copy, Debug, PartialEq, Eq, Structural)]
pub enum SceneKind {
    WellLit,
    Dark,
    Overexp,
    Backlight,
    Noisy,
    Cast,
}

/// What is done to a picture.
#[derive(Clone, Copy, Debug)]
pub struct EnhanceCfg {
    pub wb: bool,
    pub he: HeMode,
    pub clip_limit: Single,
    pub tiles: u32,
    pub blend: Single,
    pub auto: bool,
    pub denoise: bool,
}

/// The words of the settings.
pub const TWO: u32 = 0x4000_0000;
pub const FOUR: u32 = 0x4080_0000;
pub const CLAHE_BLEND: u32 = 0x3f33_3333;
pub const NOISY_BLEND: u32 = 0x3f0c_cccd;

impl Default for EnhanceCfg {
    fn default() -> (r: Self)
        ensures
            r == EnhanceCfg::clahe_cfg(),
    {
        Self::clahe()
    }
}

impl EnhanceCfg {
    pub open spec fn off_cfg() -> Self {
        EnhanceCfg {
            wb: false,
            he: HeMode::Off,
            clip_limit: single::of(TWO),
            tiles: 8,
            blend: single::of(single::ONE),
            auto: false,
            denoise: false,
        }
    }

    pub open spec fn clahe_cfg() -> Self {
        EnhanceCfg {
            he: HeMode::Clahe,
            clip_limit: single::of(FOUR),
            blend: single::of(CLAHE_BLEND),
            ..Self::off_cfg()
        }
    }

    /// Nothing.
    pub fn off() -> (r: Self)
        ensures
            r == Self::off_cfg(),
    {
        EnhanceCfg {
            wb: false,
            he: HeMode::Off,
            clip_limit: single::of(TWO),
            tiles: 8,
            blend: single::of(single::ONE),
            auto: false,
            denoise: false,
        }
    }

    /// Clipped local equalisation, blended with the picture.
    pub fn clahe() -> (r: Self)
        ensures
            r == Self::clahe_cfg(),
    {
        EnhanceCfg {
            he: HeMode::Clahe,
            clip_limit: single::of(FOUR),
            blend: single::of(CLAHE_BLEND),
            ..Self::off()
        }
    }

    /// What the scene calls for.
    pub fn auto() -> (r: Self)
        ensures
            r == (EnhanceCfg { auto: true, ..Self::clahe_cfg() }),
    {
        EnhanceCfg { auto: true, ..Self::clahe() }
    }

    pub open spec fn is_off_spec(self) -> bool {
        !self.auto && !self.wb && self.he == HeMode::Off && !self.denoise
    }

    /// Whether nothing is done.
    #[verifier::when_used_as_spec(is_off_spec)]
    pub fn is_off(self) -> (r: bool)
        ensures
            r == self.is_off_spec(),
    {
        !self.auto && !self.wb && self.he == HeMode::Off && !self.denoise
    }

    /// Whether the histogram is equalised without clipping.
    pub open spec fn unclipped(self) -> bool {
        self.he == HeMode::Ahe || (self.he == HeMode::Clahe && self.clip_limit.le(single::of(0)))
    }

    fn ahe(self) -> (r: bool)
        ensures
            r == self.unclipped(),
    {
        self.he == HeMode::Ahe || (self.he == HeMode::Clahe && self.clip_limit.le(single::of(0)))
    }
}

/// The brightness of a pixel.
pub open spec fn luma_of(b: u8, g: u8, r: u8) -> Single {
    scalar::luma(
        Single::from_int(b as int),
        Single::from_int(g as int),
        Single::from_int(r as int),
    )
}

/// BT.601 brightness.
pub fn luma_bt601(b: u8, g: u8, r: u8) -> (y: Single)
    ensures
        y == luma_of(b, g, r),
{
    single::of(scalar::LUMA_B) * single::from_u64(b as u64) + single::of(scalar::LUMA_G)
        * single::from_u64(g as u64) + single::of(scalar::LUMA_R) * single::from_u64(r as u64)
}

/// What was measured of a scene.
#[derive(Clone, Copy, Debug)]
pub struct SceneStats {
    /// Mean brightness of the middle.
    pub center_y: Single,
    /// Mean brightness of the rim.
    pub surround_y: Single,
    /// Share of dark samples in the middle.
    pub shadow_frac: Single,
    /// Share of bright samples in the middle.
    pub highlight_frac: Single,
    /// Mean step between neighbouring samples of the middle.
    pub noise: Single,
    /// How far the mean channels of the middle are apart.
    pub chroma: Single,
}

/// The words of the limits between the kinds of scene.
pub const BACK_STEP: u32 = 0x4190_0000;
pub const BACK_SURROUND: u32 = 0x42c8_0000;
pub const BACK_CENTER: u32 = 0x4302_0000;
pub const OVER_FRAC: u32 = 0x3e23_d70a;
pub const OVER_CENTER: u32 = 0x4339_0000;
pub const NOISE_STEP: u32 = 0x4190_0000;
pub const LIT_CENTER: u32 = 0x4296_0000;
pub const DARK_CENTER: u32 = 0x4290_0000;
pub const CAST_CHROMA: u32 = 0x3eb3_3333;

/// The kind of a scene: the first of these that holds.
pub open spec fn kind_of(s: SceneStats) -> SceneKind {
    if s.surround_y.gt(s.center_y + single::of(BACK_STEP)) && s.surround_y.gt(
        single::of(BACK_SURROUND),
    ) && s.center_y.lt(single::of(BACK_CENTER)) {
        SceneKind::Backlight
    } else if s.highlight_frac.gt(single::of(OVER_FRAC)) || s.center_y.gt(single::of(OVER_CENTER)) {
        SceneKind::Overexp
    } else if s.noise.gt(single::of(NOISE_STEP)) && s.center_y.gt(single::of(LIT_CENTER)) {
        SceneKind::Noisy
    } else if s.center_y.lt(single::of(DARK_CENTER)) || s.shadow_frac.gt(
        single::of(preprocess::HALF),
    ) {
        SceneKind::Dark
    } else if s.chroma.gt(single::of(CAST_CHROMA)) && s.center_y.gt(single::of(LIT_CENTER)) {
        SceneKind::Cast
    } else {
        SceneKind::WellLit
    }
}

/// The kind of a scene.
pub fn classify(s: &SceneStats) -> (r: SceneKind)
    ensures
        r == kind_of(*s),
{
    if s.surround_y.gt(s.center_y + single::of(BACK_STEP)) && s.surround_y.gt(
        single::of(BACK_SURROUND),
    ) && s.center_y.lt(single::of(BACK_CENTER)) {
        SceneKind::Backlight
    } else if s.highlight_frac.gt(single::of(OVER_FRAC)) || s.center_y.gt(single::of(OVER_CENTER)) {
        SceneKind::Overexp
    } else if s.noise.gt(single::of(NOISE_STEP)) && s.center_y.gt(single::of(LIT_CENTER)) {
        SceneKind::Noisy
    } else if s.center_y.lt(single::of(DARK_CENTER)) || s.shadow_frac.gt(
        single::of(preprocess::HALF),
    ) {
        SceneKind::Dark
    } else if s.chroma.gt(single::of(CAST_CHROMA)) && s.center_y.gt(single::of(LIT_CENTER)) {
        SceneKind::Cast
    } else {
        SceneKind::WellLit
    }
}

/// What each kind of scene calls for.
pub open spec fn policy_of(kind: SceneKind) -> EnhanceCfg {
    match kind {
        SceneKind::WellLit => EnhanceCfg::off_cfg(),
        SceneKind::Dark => EnhanceCfg::clahe_cfg(),
        SceneKind::Backlight => EnhanceCfg { he: HeMode::Ahe, ..EnhanceCfg::off_cfg() },
        SceneKind::Overexp => EnhanceCfg { he: HeMode::Ahe, ..EnhanceCfg::off_cfg() },
        SceneKind::Noisy => EnhanceCfg {
            denoise: true,
            he: HeMode::Clahe,
            blend: single::of(NOISY_BLEND),
            ..EnhanceCfg::off_cfg()
        },
        SceneKind::Cast => EnhanceCfg { wb: true, ..EnhanceCfg::off_cfg() },
    }
}

/// What a kind of scene calls for: clipped equalisation in the dark, unclipped
/// equalisation against the light, denoising of noise, white balance of a cast,
/// and nothing in good light.
pub fn policy(kind: SceneKind) -> (r: EnhanceCfg)
    ensures
        r == policy_of(kind),
{
    match kind {
        SceneKind::WellLit => EnhanceCfg::off(),
        SceneKind::Dark => EnhanceCfg::clahe(),
        SceneKind::Backlight | SceneKind::Overexp => EnhanceCfg {
            he: HeMode::Ahe,
            blend: single::of(single::ONE),
            ..EnhanceCfg::off()
        },
        SceneKind::Noisy => EnhanceCfg {
            denoise: true,
            he: HeMode::Clahe,
            clip_limit: single::of(TWO),
            blend: single::of(NOISY_BLEND),
            ..EnhanceCfg::off()
        },
        SceneKind::Cast => EnhanceCfg { wb: true, ..EnhanceCfg::off() },
    }
}

/// The words of the limits and sizes of the measurement.
pub const SHADOW: u32 = 0x4234_0000;
pub const HIGHLIGHT: u32 = 0x4361_0000;
pub const CHROMA_MIN: u32 = 0x41e0_0000;
pub const SIDE_FRAC: u32 = 0x3e61_47ae;

/// Every how many pixels a picture is sampled.
pub open spec fn sample_step(w: int, h: int) -> int {
    let short = if w < h {
        w
    } else {
        h
    };
    if short / 160 > 1 {
        short / 160
    } else {
        1
    }
}

/// The edge of the square in the middle.
pub open spec fn middle_side(w: int, h: int) -> int {
    let short = if h < w {
        h
    } else {
        w
    };
    (Single::from_int(short) * single::of(SIDE_FRAC)).max(single::of(preprocess::EIGHT)).to_int(
        0,
        u32::MAX as int,
    )
}

/// Where the middle begins on an axis of `n` pixels.
pub open spec fn middle_from(n: int, side: int) -> int {
    if n > side {
        (n - side) / 2
    } else {
        0
    }
}

/// Where the middle ends on an axis of `n` pixels.
pub open spec fn middle_to(n: int, side: int) -> int {
    if middle_from(n, side) + side < n {
        middle_from(n, side) + side
    } else {
        n
    }
}

/// How wide the rim is on an axis of `n` pixels.
pub open spec fn rim(n: int) -> int {
    if n / 7 > 1 {
        n / 7
    } else {
        1
    }
}

/// Whether a coordinate lies in the middle of an axis.
pub open spec fn in_middle(x: int, n: int, side: int) -> bool {
    middle_from(n, side) <= x < middle_to(n, side)
}

/// Whether a coordinate lies on the rim of an axis.
pub open spec fn on_rim(x: int, n: int) -> bool {
    x < rim(n) || x >= n - rim(n)
}

/// What is added up over the samples of a picture.
#[derive(Clone, Copy, Debug)]
pub struct SceneSums {
    pub c_sum: Double,
    pub c_n: u32,
    pub s_sum: Double,
    pub s_n: u32,
    pub shadows: u32,
    pub highs: u32,
    pub noise: Double,
    pub noise_n: u32,
    pub sb: Double,
    pub sg: Double,
    pub sr: Double,
    pub chroma_n: u32,
}

pub open spec fn no_sums() -> SceneSums {
    let zero = double::of(0);
    SceneSums {
        c_sum: zero,
        c_n: 0,
        s_sum: zero,
        s_n: 0,
        shadows: 0,
        highs: 0,
        noise: zero,
        noise_n: 0,
        sb: zero,
        sg: zero,
        sr: zero,
        chroma_n: 0,
    }
}

/// The brightness of a pixel of a picture.
pub open spec fn luma_at(img: BgrImage, x: int, y: int) -> Single {
    luma_of(img.at(x, y, 0), img.at(x, y, 1), img.at(x, y, 2))
}

/// The sums after one more sample.
pub open spec fn with_sample(s: SceneSums, img: BgrImage, x: int, y: int) -> SceneSums {
    let w = img.width as int;
    let h = img.height as int;
    let step = sample_step(w, h);
    let side = middle_side(w, h);
    let yv = luma_at(img, x, y);
    let mid = in_middle(x, w, side) && in_middle(y, h, side);
    let s1 = if mid {
        let tinted = yv.gt(single::of(CHROMA_MIN));
        SceneSums {
            c_sum: s.c_sum + convert::to_double(yv),
            c_n: (s.c_n + 1) as u32,
            shadows: if yv.lt(single::of(SHADOW)) {
                (s.shadows + 1) as u32
            } else {
                s.shadows
            },
            highs: if yv.gt(single::of(HIGHLIGHT)) {
                (s.highs + 1) as u32
            } else {
                s.highs
            },
            sb: if tinted {
                s.sb + Double::from_int(img.at(x, y, 0) as int)
            } else {
                s.sb
            },
            sg: if tinted {
                s.sg + Double::from_int(img.at(x, y, 1) as int)
            } else {
                s.sg
            },
            sr: if tinted {
                s.sr + Double::from_int(img.at(x, y, 2) as int)
            } else {
                s.sr
            },
            chroma_n: if tinted {
                (s.chroma_n + 1) as u32
            } else {
                s.chroma_n
            },
            ..s
        }
    } else {
        s
    };
    let s2 = if on_rim(x, w) || on_rim(y, h) {
        SceneSums {
            s_sum: s1.s_sum + convert::to_double(yv),
            s_n: (s1.s_n + 1) as u32,
            ..s1
        }
    } else {
        s1
    };
    if mid && x + step < w && y + step < h {
        SceneSums {
            noise: s2.noise + (convert::to_double((yv - luma_at(img, x + step, y)).abs())
                + convert::to_double((yv - luma_at(img, x, y + step)).abs())),
            noise_n: (s2.noise_n + 2) as u32,
            ..s2
        }
    } else {
        s2
    }
}

/// How many samples a row has.
pub open spec fn samples_per_row(w: int, step: int) -> int {
    (w + step - 1) / step
}

/// The sums over the first `k` samples, row by row.
pub open spec fn sums_of(img: BgrImage, k: int) -> SceneSums
    decreases k,
{
    if k <= 0 {
        no_sums()
    } else {
        let step = sample_step(img.width as int, img.height as int);
        let nx = samples_per_row(img.width as int, step);
        with_sample(
            sums_of(img, k - 1),
            img,
            (k - 1) % nx * step,
            (k - 1) / nx * step,
        )
    }
}

/// The sums over all samples.
pub open spec fn all_sums(img: BgrImage) -> SceneSums {
    let step = sample_step(img.width as int, img.height as int);
    sums_of(
        img,
        samples_per_row(img.width as int, step) * samples_per_row(img.height as int, step),
    )
}

/// A mean in double precision, rounded to a single; zero of nothing.
pub open spec fn mean_of(sum: Double, n: u32) -> Single {
    if n > 0 {
        convert::to_single(sum / Double::from_int(n as int))
    } else {
        single::of(0)
    }
}

/// One part of `n`; zero of nothing.
pub open spec fn part_of(n: u32) -> Single {
    if n > 0 {
        single::of(single::ONE) / Single::from_int(n as int)
    } else {
        single::of(0)
    }
}

/// What the sums say of a scene.
pub open spec fn stats_of(s: SceneSums) -> SceneStats {
    let mb = convert::to_single(s.sb) * part_of(s.chroma_n);
    let mg = convert::to_single(s.sg) * part_of(s.chroma_n);
    let mr = convert::to_single(s.sr) * part_of(s.chroma_n);
    let gray = (mb + mg + mr) / single::of(scalar::THREE) + single::of(scalar::MILLI);
    SceneStats {
        center_y: mean_of(s.c_sum, s.c_n),
        surround_y: mean_of(s.s_sum, s.s_n),
        shadow_frac: Single::from_int(s.shadows as int) * part_of(s.c_n),
        highlight_frac: Single::from_int(s.highs as int) * part_of(s.c_n),
        noise: mean_of(s.noise, s.noise_n),
        chroma: (mb - mg).abs().max((mg - mr).abs()).max((mb - mr).abs()) / gray,
    }
}

fn mean(sum: Double, n: u32) -> (r: Single)
    ensures
        r == mean_of(sum, n),
{
    if n > 0 {
        convert::to_single(sum / double::from_u64(n as u64))
    } else {
        single::of(0)
    }
}

fn part(n: u32) -> (r: Single)
    ensures
        r == part_of(n),
{
    if n > 0 {
        single::of(single::ONE) / single::from_u64(n as u64)
    } else {
        single::of(0)
    }
}

fn pixel_luma(img: &BgrImage, x: u32, y: u32) -> (r: Single)
    requires
        img.wf(),
        img.holds(x as int, y as int),
    ensures
        r == luma_at(*img, x as int, y as int),
{
    let i: usize = preprocess::pixel_place(img.width, img.height, x, y);
    luma_bt601(img.data[i], img.data[i + 1], img.data[i + 2])
}

/// Where the middle and the rim of a picture lie, and how it is sampled.
struct Regions {
    step: u32,
    x0: u32,
    x1: u32,
    y0: u32,
    y1: u32,
    bx: u32,
    by: u32,
}

impl Regions {
    spec fn fits(self, w: int, h: int) -> bool {
        let side = middle_side(w, h);
        &&& self.step == sample_step(w, h)
        &&& self.x0 == middle_from(w, side)
        &&& self.x1 == middle_to(w, side)
        &&& self.y0 == middle_from(h, side)
        &&& self.y1 == middle_to(h, side)
        &&& self.bx == rim(w)
        &&& self.by == rim(h)
    }
}

fn middle_span(n: u32, side: u32) -> (r: (u32, u32))
    ensures
        r.0 == middle_from(n as int, side as int),
        r.1 == middle_to(n as int, side as int),
{
    let a: u32 = if n > side { (n - side) / 2 } else { 0 };
    (a, if a + side < n { a + side } else { n })
}

fn regions(w: u32, h: u32) -> (r: Regions)
    ensures
        r.fits(w as int, h as int),
{
    let short: u32 = if w < h { w } else { h };
    let step: u32 = if short / 160 > 1 { short / 160 } else { 1 };
    let side: u32 = (single::from_u64(short as u64) * single::of(SIDE_FRAC)).max(
        single::of(preprocess::EIGHT),
    ).to_u32();
    let (x0, x1) = middle_span(w, side);
    let (y0, y1) = middle_span(h, side);
    let bx: u32 = if w / 7 > 1 { w / 7 } else { 1 };
    let by: u32 = if h / 7 > 1 { h / 7 } else { 1 };
    Regions { step, x0, x1, y0, y1, bx, by }
}

spec fn counts_below(s: SceneSums, k: int) -> bool {
    &&& s.c_n <= k
    &&& s.s_n <= k
    &&& s.shadows <= k
    &&& s.highs <= k
    &&& s.noise_n <= 2 * k
    &&& s.chroma_n <= k
}

fn take_sample(s: SceneSums, img: &BgrImage, r: &Regions, x: u32, y: u32, Ghost(k): Ghost<int>) -> (o: SceneSums)
    requires
        img.wf(),
        img.holds(x as int, y as int),
        r.fits(img.width as int, img.height as int),
        counts_below(s, k),
        0 <= k < 0x5555_5555,
    ensures
        o == with_sample(s, *img, x as int, y as int),
        counts_below(o, k + 1),
{
    let (w, h) = (img.width, img.height);
    let mut s: SceneSums = s;
    let i: usize = preprocess::pixel_place(w, h, x, y);
    let (b, g, red) = (img.data[i], img.data[i + 1], img.data[i + 2]);
    let yv: Single = luma_bt601(b, g, red);
    let mid: bool = x >= r.x0 && x < r.x1 && y >= r.y0 && y < r.y1;
    let outer: bool = x < r.bx || (w < r.bx || x >= w - r.bx) || y < r.by || (h < r.by || y >= h
        - r.by);
    if mid {
        s.c_sum = s.c_sum + convert::to_double(yv);
        s.c_n = s.c_n + 1;
        if yv.lt(single::of(SHADOW)) {
            s.shadows = s.shadows + 1;
        }
        if yv.gt(single::of(HIGHLIGHT)) {
            s.highs = s.highs + 1;
        }
        if yv.gt(single::of(CHROMA_MIN)) {
            s.sb = s.sb + double::from_u64(b as u64);
            s.sg = s.sg + double::from_u64(g as u64);
            s.sr = s.sr + double::from_u64(red as u64);
            s.chroma_n = s.chroma_n + 1;
        }
    }
    if outer {
        s.s_sum = s.s_sum + convert::to_double(yv);
        s.s_n = s.s_n + 1;
    }
    if mid && r.step < w - x && r.step < h - y {
        let yx: Single = pixel_luma(img, x + r.step, y);
        let yy: Single = pixel_luma(img, x, y + r.step);
        s.noise = s.noise + (convert::to_double((yv - yx).abs()) + convert::to_double(
            (yv - yy).abs(),
        ));
        s.noise_n = s.noise_n + 2;
    }
    s
}

proof fn lemma_samples(w: int, step: int, ix: int)
    requires
        w >= 1,
        step >= 1,
        0 <= ix,
    ensures
        ix * step < w <==> ix < samples_per_row(w, step),
        1 <= samples_per_row(w, step) <= w,
        0 <= ix * step,
{
    let n = samples_per_row(w, step);
    lemma_fundamental_div_mod(w + step - 1, step);
    lemma_mod_bound(w + step - 1, step);
    let r = (w + step - 1) % step;
    assert(ix * step < w <==> ix < n) by (nonlinear_arith)
        requires
            w + step - 1 == step * n + r,
            0 <= r < step,
            step >= 1,
    {
        if ix < n {
            assert(ix * step <= (n - 1) * step);
            assert((n - 1) * step == step * n - step);
        } else {
            assert(ix * step >= n * step);
        }
    }
    assert(1 <= n <= w) by (nonlinear_arith)
        requires
            w + step - 1 == step * n + r,
            0 <= r < step,
            step >= 1,
            w >= 1,
    ;
    assert(0 <= ix * step) by (nonlinear_arith)
        requires
            0 <= ix,
            step >= 1,
    ;
}

/// Measures a scene.
pub fn analyze(img: &BgrImage) -> (r: SceneStats)
    requires
        img.wf(),
        img.width > 0,
        img.height > 0,
    ensures
        r == stats_of(all_sums(*img)),
{
    let (w, h) = (img.width, img.height);
    let reg: Regions = regions(w, h);
    let step: u32 = reg.step;
    let ghost nx = samples_per_row(w as int, step as int);
    let ghost ny = samples_per_row(h as int, step as int);
    proof {
        lemma_samples(w as int, step as int, 0);
        lemma_samples(h as int, step as int, 0);
        assert(3 * w <= w * h * 3 && 3 * h <= w * h * 3) by (nonlinear_arith)
            requires
                w >= 1,
                h >= 1,
        ;
    }
    let mut s: SceneSums = SceneSums {
        c_sum: double::of(0),
        c_n: 0,
        s_sum: double::of(0),
        s_n: 0,
        shadows: 0,
        highs: 0,
        noise: double::of(0),
        noise_n: 0,
        sb: double::of(0),
        sg: double::of(0),
        sr: double::of(0),
        chroma_n: 0,
    };
    let mut y: u32 = 0;
    let ghost mut iy: int = 0;
    assert(0 * nx == 0 && 0 * step == 0);
    while y < h
        invariant
            img.wf(),
            w == img.width,
            h == img.height,
            1 <= w <= u32::MAX / 2,
            1 <= h <= u32::MAX / 2,
            1 <= step <= w,
            1 <= step <= h,
            reg.fits(w as int, h as int),
            step == reg.step,
            nx == samples_per_row(w as int, step as int),
            ny == samples_per_row(h as int, step as int),
            1 <= nx <= w,
            1 <= ny <= h,
            0 <= iy <= ny,
            y == iy * step,
            y < h <==> iy < ny,
            s == sums_of(*img, iy * nx),
            counts_below(s, iy * nx),
        decreases h + step - y,
    {
        let mut x: u32 = 0;
        let ghost mut ix: int = 0;
        proof {
            lemma_samples(w as int, step as int, 0);
        }
        while x < w
            invariant
                img.wf(),
                w == img.width,
                h == img.height,
                1 <= w <= u32::MAX / 2,
                1 <= h <= u32::MAX / 2,
                1 <= step <= w,
                reg.fits(w as int, h as int),
                step == reg.step,
                nx == samples_per_row(w as int, step as int),
                ny == samples_per_row(h as int, step as int),
                1 <= nx <= w,
                1 <= ny <= h,
                0 <= iy < ny,
                y == iy * step,
                y < h,
                0 <= ix <= nx,
                x == ix * step,
                x < w <==> ix < nx,
                s == sums_of(*img, iy * nx + ix),
                counts_below(s, iy * nx + ix),
            decreases w + step - x,
        {
            let ghost k = iy * nx + ix;
            proof {
                assert(0 <= k < nx * ny && nx * ny <= w * h) by (nonlinear_arith)
                    requires
                        k == iy * nx + ix,
                        0 <= iy < ny,
                        0 <= ix < nx,
                        nx <= w,
                        ny <= h,
                ;
                lemma_fundamental_div_mod_converse(k, nx, iy, ix);
                lemma_samples(w as int, step as int, ix + 1);
                assert((ix + 1) * step == ix * step + step) by (nonlinear_arith);
            }
            s = take_sample(s, img, &reg, x, y, Ghost(k));
            x = x + step;
            proof {
                ix = ix + 1;
            }
        }
        proof {
            lemma_samples(h as int, step as int, iy + 1);
            assert((iy + 1) * step == iy * step + step) by (nonlinear_arith);
            assert((iy + 1) * nx == iy * nx + nx) by (nonlinear_arith);
            iy = iy + 1;
        }
        y = y + step;
    }
    assert(ny * nx == nx * ny) by (nonlinear_arith);
    let cin: Single = part(s.chroma_n);
    let mb: Single = convert::to_single(s.sb) * cin;
    let mg: Single = convert::to_single(s.sg) * cin;
    let mr: Single = convert::to_single(s.sr) * cin;
    let gray: Single = (mb + mg + mr) / single::of(scalar::THREE) + single::of(scalar::MILLI);
    let inv: Single = part(s.c_n);
    SceneStats {
        center_y: mean(s.c_sum, s.c_n),
        surround_y: mean(s.s_sum, s.s_n),
        shadow_frac: single::from_u64(s.shadows as u64) * inv,
        highlight_frac: single::from_u64(s.highs as u64) * inv,
        noise: mean(s.noise, s.noise_n),
        chroma: (mb - mg).abs().max((mg - mr).abs()).max((mb - mr).abs()) / gray,
    }
}

impl EnhanceCfg {
    /// The settings for a picture.
    pub open spec fn resolved(self, img: BgrImage) -> Self {
        if self.auto {
            policy_of(kind_of(stats_of(all_sums(img))))
        } else {
            self
        }
    }

    /// The settings for a picture: those that its scene calls for, where that is
    /// asked.
    pub fn resolve(self, img: &BgrImage) -> (r: Self)
        requires
            self.auto ==> img.wf() && img.width > 0 && img.height > 0,
        ensures
            r == self.resolved(*img),
    {
        if self.auto {
            policy(classify(&analyze(img)))
        } else {
            self
        }
    }
}

/// How many tiles an axis of `n` pixels has.
pub open spec fn tile_count(n: int, tiles: int) -> int {
    let t = if tiles < n {
        tiles
    } else {
        n
    };
    if t < 1 {
        1
    } else {
        t
    }
}

/// How many pixels a tile of an axis of `n` pixels has.
pub open spec fn tile_size(n: int, tiles: int) -> int {
    if n / tile_count(n, tiles) < 1 {
        1
    } else {
        n / tile_count(n, tiles)
    }
}

fn tile_axis(n: u32, tiles: u32) -> (r: (u32, u32))
    ensures
        r.0 == tile_count(n as int, tiles as int),
        r.1 == tile_size(n as int, tiles as int),
        1 <= r.0,
        1 <= r.1,
        n > 0 ==> r.0 * r.1 <= n,
{
    let t: u32 = if tiles < n { tiles } else { n };
    let t: u32 = if t < 1 { 1 } else { t };
    let size: u32 = if n / t < 1 { 1 } else { n / t };
    proof {
        lemma_fundamental_div_mod(n as int, t as int);
        lemma_mod_bound(n as int, t as int);
        if n > 0 {
            let q = n as int / t as int;
            let r = n as int % t as int;
            assert(q >= 1) by (nonlinear_arith)
                requires
                    n == t * q + r,
                    r < t,
                    t <= n,
            ;
        }
    }
    (t, size)
}

/// The grid of tiles over a picture: how many across and down, and their size.
pub fn tile_grid(width: u32, height: u32, tiles: u32) -> (r: (u32, u32, u32, u32))
    ensures
        r.0 == tile_count(width as int, tiles as int),
        r.1 == tile_count(height as int, tiles as int),
        r.2 == tile_size(width as int, tiles as int),
        r.3 == tile_size(height as int, tiles as int),
        1 <= r.0,
        1 <= r.1,
        1 <= r.2,
        1 <= r.3,
        width > 0 ==> r.0 * r.2 <= width,
        height > 0 ==> r.1 * r.3 <= height,
{
    let (tx, tw) = tile_axis(width, tiles);
    let (ty, th) = tile_axis(height, tiles);
    (tx, ty, tw, th)
}

/// The tile of a coordinate; what is left over belongs to the last.
pub open spec fn tile_index(x: int, size: int, n: int) -> int {
    if x / size < n - 1 {
        x / size
    } else {
        n - 1
    }
}

/// The tile that a pixel lies in.
pub fn tile_of(x: u32, y: u32, tw: u32, th: u32, tx: u32, ty: u32) -> (r: (u32, u32))
    requires
        1 <= tw,
        1 <= th,
        1 <= tx,
        1 <= ty,
    ensures
        r.0 == tile_index(x as int, tw as int, tx as int),
        r.1 == tile_index(y as int, th as int, ty as int),
        r.0 < tx,
        r.1 < ty,
{
    (
        if x / tw < tx - 1 { x / tw } else { tx - 1 },
        if y / th < ty - 1 { y / th } else { ty - 1 },
    )
}

/// Where a tile ends; the last ends with the axis.
pub open spec fn tile_end(i: int, size: int, n: int, len: int) -> int {
    if i + 1 == n {
        len
    } else {
        (i + 1) * size
    }
}

/// The corners of a tile.
pub fn tile_rect(
    txi: u32,
    tyi: u32,
    tw: u32,
    th: u32,
    tx: u32,
    ty: u32,
    width: u32,
    height: u32,
) -> (r: (u32, u32, u32, u32))
    requires
        txi < tx,
        tyi < ty,
        tx * tw <= width,
        ty * th <= height,
    ensures
        r.0 == txi * tw,
        r.1 == tyi * th,
        r.2 == tile_end(txi as int, tw as int, tx as int, width as int),
        r.3 == tile_end(tyi as int, th as int, ty as int, height as int),
        r.0 <= r.2 <= width,
        r.1 <= r.3 <= height,
{
    proof {
        lemma_tile_end(txi as int, tw as int, tx as int, width as int);
        lemma_tile_end(tyi as int, th as int, ty as int, height as int);
    }
    let x1: u32 = txi * tw;
    let y1: u32 = tyi * th;
    let x2: u32 = if txi + 1 == tx { width } else { (txi + 1) * tw };
    let y2: u32 = if tyi + 1 == ty { height } else { (tyi + 1) * th };
    (x1, y1, x2, y2)
}

proof fn lemma_tile_end(i: int, size: int, n: int, len: int)
    requires
        0 <= i < n,
        0 <= size,
        n * size <= len,
    ensures
        0 <= i * size <= (i + 1) * size <= len,
{
    assert(0 <= i * size && i * size <= (i + 1) * size && (i + 1) * size <= n * size)
        by (nonlinear_arith)
        requires
            0 <= i < n,
            0 <= size,
    ;
}

/// The tiles of an axis part it: a pixel lies in a tile if and only if it lies between the tile's
/// start and end, the first tile starts at the axis' start, and each ends where the next one starts
/// or with the axis.
pub proof fn lemma_tiles_part_axis(len: int, tiles: int, x: int, i: int)
    requires
        0 < len,
        0 <= x < len,
        0 <= i < tile_count(len, tiles),
    ensures
        ({
            let (n, size) = (tile_count(len, tiles), tile_size(len, tiles));
            &&& 1 <= n <= len
            &&& 1 <= size
            &&& 0 <= tile_index(x, size, n) < n
            &&& tile_index(x, size, n) == i <==> i * size <= x < tile_end(i, size, n, len)
            &&& i * size < tile_end(i, size, n, len) <= len
            &&& i + 1 < n ==> tile_end(i, size, n, len) == (i + 1) * size
            &&& i + 1 == n ==> tile_end(i, size, n, len) == len
        }),
{
    let (n, size) = (tile_count(len, tiles), tile_size(len, tiles));
    lemma_fundamental_div_mod(len, n);
    lemma_mod_bound(len, n);
    let w = len / n;
    assert(w >= 1) by (nonlinear_arith)
        requires
            len == n * w + len % n,
            len % n < n,
            n <= len,
            n >= 1,
    ;
    assert(n * size <= len) by (nonlinear_arith)
        requires
            len == n * w + len % n,
            0 <= len % n,
            size == w,
    ;
    lemma_tile_end(i, size, n, len);
    lemma_fundamental_div_mod(x, size);
    lemma_mod_bound(x, size);
    let q = x / size;
    assert(q >= 0) by (nonlinear_arith)
        requires
            x == size * q + x % size,
            x % size < size,
            x >= 0,
            size >= 1,
    ;
    assert(q >= i <==> x >= i * size) by (nonlinear_arith)
        requires
            x == size * q + x % size,
            0 <= x % size < size,
    ;
    assert(q >= i + 1 <==> x >= (i + 1) * size) by (nonlinear_arith)
        requires
            x == size * q + x % size,
            0 <= x % size < size,
    ;
    assert(i * size < (i + 1) * size) by (nonlinear_arith)
        requires
            size >= 1,
    ;
}

/// The sum of the first `k` entries.
pub open spec fn total(h: Seq<u32>, k: int) -> int
    decreases k,
{
    if k <= 0 {
        0
    } else {
        total(h, k - 1) + h[k - 1]
    }
}

/// What the first `k` entries have above `limit`.
pub open spec fn excess(h: Seq<u32>, limit: int, k: int) -> int
    decreases k,
{
    if k <= 0 {
        0
    } else {
        excess(h, limit, k - 1) + preprocess::at_least_zero(h[k - 1] - limit)
    }
}

proof fn lemma_excess(h: Seq<u32>, limit: int, k: int, i: int)
    requires
        0 <= limit,
        0 <= i < k <= h.len(),
    ensures
        0 <= excess(h, limit, k) <= total(h, k),
        h[i] - preprocess::at_least_zero(h[i] - limit) + excess(h, limit, k) <= total(h, k),
    decreases k,
{
    lemma_excess_bound(h, limit, k - 1);
    if i < k - 1 {
        lemma_excess(h, limit, k - 1, i);
    }
}

proof fn lemma_excess_bound(h: Seq<u32>, limit: int, k: int)
    requires
        0 <= limit,
        0 <= k <= h.len(),
    ensures
        0 <= excess(h, limit, k) <= total(h, k),
    decreases k,
{
    if k > 0 {
        lemma_excess_bound(h, limit, k - 1);
    }
}

/// One entry of a clipped histogram: what was cut off at `limit` is spread evenly,
/// and what cannot be is given to the first entries, one each.
pub open spec fn clipped_at(h: Seq<u32>, limit: int, i: int) -> int {
    let cut = excess(h, limit, 256);
    preprocess::cut(h[i] as int, limit) + cut / 256 + (if i < cut % 256 {
        1int
    } else {
        0int
    })
}

/// Clips a histogram and spreads what was cut off.
pub fn clip_hist(hist: &mut [u32; 256], clip_limit: u32)
    requires
        total(old(hist)@, 256) <= u32::MAX,
    ensures
        forall|i: int|
            0 <= i < 256 ==> #[trigger] final(hist)[i] == clipped_at(
                old(hist)@,
                clip_limit as int,
                i,
            ),
{
    let ghost h0 = hist@;
    let limit: u32 = clip_limit;
    let mut clipped: u32 = 0;
    let mut k: usize = 0;
    while k < 256
        invariant
            k <= 256,
            h0.len() == 256,
            limit == clip_limit,
            total(h0, 256) <= u32::MAX,
            clipped == excess(h0, limit as int, k as int),
            forall|i: int|
                0 <= i < k ==> #[trigger] hist[i] == preprocess::cut(h0[i] as int, limit as int),
            forall|i: int| k <= i < 256 ==> #[trigger] hist[i] == h0[i],
        decreases 256 - k,
    {
        proof {
            lemma_excess_bound(h0, limit as int, k as int + 1);
            lemma_total_grows(h0, k as int + 1, 256);
        }
        let v: u32 = hist[k];
        if v > limit {
            clipped = clipped + (v - limit);
            hist[k] = limit;
        }
        k = k + 1;
    }
    let batch: u32 = clipped / 256;
    let residual: u32 = clipped - batch * 256;
    let mut k: usize = 0;
    while k < 256
        invariant
            k <= 256,
            h0.len() == 256,
            limit == clip_limit,
            total(h0, 256) <= u32::MAX,
            clipped == excess(h0, limit as int, 256),
            batch == clipped / 256,
            residual == clipped % 256,
            forall|i: int|
                0 <= i < k ==> #[trigger] hist[i] == clipped_at(h0, limit as int, i),
            forall|i: int|
                k <= i < 256 ==> #[trigger] hist[i] == preprocess::cut(
                    h0[i] as int,
                    limit as int,
                ),
        decreases 256 - k,
    {
        proof {
            lemma_excess(h0, limit as int, 256, k as int);
        }
        let one: u32 = if (k as u32) < residual { 1 } else { 0 };
        hist[k] = hist[k] + batch + one;
        k = k + 1;
    }
}

proof fn lemma_total_grows(h: Seq<u32>, a: int, b: int)
    requires
        0 <= a <= b <= h.len(),
    ensures
        0 <= total(h, a) <= total(h, b),
    decreases b,
{
    if a < b {
        lemma_total_grows(h, a, b - 1);
    } else if a > 0 {
        lemma_total_grows(h, a - 1, a - 1);
    }
}

/// Clipping keeps the number of samples in a histogram.
pub proof fn lemma_clip_keeps_total(before: Seq<u32>, after: Seq<u32>, limit: int)
    requires
        before.len() == 256,
        after.len() == 256,
        0 <= limit,
        forall|i: int|
            0 <= i < 256 ==> #[trigger] after[i] == clipped_at(before, limit, i),
    ensures
        total(after, 256) == total(before, 256),
{
    lemma_clip_partial(before, after, limit, 256);
    let cut = excess(before, limit, 256);
    lemma_excess_bound(before, limit, 256);
    assert(cut == 256 * (cut / 256) + cut % 256);
}

proof fn lemma_clip_partial(before: Seq<u32>, after: Seq<u32>, limit: int, k: int)
    requires
        before.len() == 256,
        after.len() == 256,
        0 <= limit,
        0 <= k <= 256,
        forall|i: int|
            0 <= i < 256 ==> #[trigger] after[i] == clipped_at(before, limit, i),
    ensures
        total(after, k) == total(before, k) - excess(before, limit, k) + k * (excess(
            before,
            limit,
            256,
        ) / 256) + (if k < excess(before, limit, 256) % 256 {
            k
        } else {
            excess(before, limit, 256) % 256
        }),
    decreases k,
{
    let cut = excess(before, limit, 256);
    if k > 0 {
        lemma_clip_partial(before, after, limit, k - 1);
        assert(after[k - 1] == clipped_at(before, limit, k - 1));
        assert((k - 1) * (cut / 256) + cut / 256 == k * (cut / 256)) by (nonlinear_arith);
    } else {
        lemma_excess_bound(before, limit, 256);
        assert(0 * (cut / 256) == 0);
    }
}

/// The table of a histogram of `n` samples: each brightness goes to the share of
/// samples that are not brighter, of 255.
pub open spec fn lut_at(hist: Seq<u32>, n: int, i: int) -> u8 {
    let samples = if n < 1 {
        1
    } else {
        n
    };
    preprocess::to_byte(
        Single::from_int(total(hist, i + 1)) * (single::of(preprocess::FULL) / Single::from_int(
            samples,
        )),
    )
}

/// The table of a histogram never falls: a brighter sample goes to no darker one.
pub proof fn lemma_table_rises(hist: Seq<u32>, n: int, i: int, j: int)
    requires
        hist.len() == 256,
        total(hist, 256) <= u32::MAX,
        0 <= n <= u32::MAX,
        0 <= i <= j < 256,
    ensures
        lut_at(hist, n, i) <= lut_at(hist, n, j),
{
    let samples = if n < 1 {
        1
    } else {
        n
    };
    let full = single::of(preprocess::FULL);
    let scale = full / Single::from_int(samples);
    lemma_total_grows(hist, i + 1, j + 1);
    lemma_total_grows(hist, j + 1, 256);
    let (p, q) = (total(hist, i + 1), total(hist, j + 1));
    let (a, b) = (Single::from_int(p), Single::from_int(q));
    order::lemma_count_order(p, q);
    order::lemma_count_value(p);
    order::lemma_count_value(q);
    order::lemma_count_value(255);
    facts::lemma_single_from_int(255);
    let u = pow2(149);
    lemma2_to64();
    lemma_pow2_pos(149);
    order::lemma_units_at(133, 0xff_0000);
    assert(133 * pow2(23) + 0xff_0000 == preprocess::FULL);
    lemma_pow2_adds(16, 133);
    assert(order::val(full) == 255 * u);
    order::lemma_ratio_value(full, samples);
    order::lemma_mul_order(a, b, scale);
    lemma_count_product(a, scale);
    lemma_count_product(b, scale);
    preprocess::lemma_to_byte_rises(a * scale, b * scale);
}

/// The product of a count and a scale is a number.
proof fn lemma_count_product(a: Single, scale: Single)
    requires
        a.is_finite(),
        !a.minus(),
        0 <= order::val(a) < pow2(182),
        scale.is_finite(),
        !scale.minus(),
        0 <= order::val(scale) < pow2(183),
    ensures
        (a * scale).is_finite(),
        !(a * scale).minus(),
{
    let (x, y) = (order::val(a), order::val(scale));
    lemma_pow2_adds(182, 183);
    lemma_pow2_adds(216, 149);
    lemma_pow2_pos(216);
    lemma_pow2_pos(149);
    lemma_pow2_unfold(217);
    assert(-(pow2(217) * pow2(149)) < x * y < pow2(217) * pow2(149)) by (nonlinear_arith)
        requires
            0 <= x < pow2(182),
            0 <= y < pow2(183),
            pow2(182) * pow2(183) == pow2(216) * pow2(149),
            pow2(217) == 2 * pow2(216),
            pow2(216) > 0,
            pow2(149) > 0,
    ;
    order::lemma_product_close(a, scale, 217);
}

/// The equalising table of a histogram.
pub fn lut_from_hist(hist: &[u32; 256], tile_n: u32) -> (lut: [u8; 256])
    requires
        total(hist@, 256) <= u32::MAX,
    ensures
        forall|i: int| 0 <= i < 256 ==> #[trigger] lut[i] == lut_at(hist@, tile_n as int, i),
{
    let n: u32 = if tile_n < 1 { 1 } else { tile_n };
    let scale: Single = single::of(preprocess::FULL) / single::from_u64(n as u64);
    let mut sum: u32 = 0;
    let mut lut: [u8; 256] = [0u8; 256];
    let mut k: usize = 0;
    while k < 256
        invariant
            k <= 256,
            sum == total(hist@, k as int),
            total(hist@, 256) <= u32::MAX,
            n == (if tile_n < 1 {
                1
            } else {
                tile_n
            }),
            scale == single::of(preprocess::FULL) / Single::from_int(n as int),
            forall|i: int| 0 <= i < k ==> #[trigger] lut[i] == lut_at(hist@, tile_n as int, i),
        decreases 256 - k,
    {
        proof {
            lemma_total_grows(hist@, k as int + 1, 256);
        }
        sum = sum + hist[k];
        lut[k] = preprocess::byte_of(single::from_u64(sum as u64) * scale);
        k = k + 1;
    }
    lut
}

/// The grid of tiles over a picture of `w x h`.
pub struct Grid {
    pub tx: u32,
    pub ty: u32,
    pub tw: u32,
    pub th: u32,
}

/// The grid that the settings put over a picture.
pub open spec fn grid_of(w: int, h: int, tiles: int) -> Grid {
    Grid {
        tx: tile_count(w, tiles) as u32,
        ty: tile_count(h, tiles) as u32,
        tw: tile_size(w, tiles) as u32,
        th: tile_size(h, tiles) as u32,
    }
}

/// The rounded brightness of the `k`-th pixel.
pub open spec fn bin_at(bgr: Seq<u8>, k: int) -> int {
    preprocess::to_byte(luma_of(bgr[3 * k], bgr[3 * k + 1], bgr[3 * k + 2])) as int
}

/// The tile of the `k`-th pixel.
pub open spec fn tile_at(w: int, g: Grid, k: int) -> int {
    tile_index(k / w, g.th as int, g.ty as int) * g.tx + tile_index(k % w, g.tw as int, g.tx as int)
}

/// How often each brightness occurs in tile `t` among the first `k` pixels.
pub open spec fn hist_of(bgr: Seq<u8>, w: int, g: Grid, t: int, k: int) -> Seq<u32>
    decreases k,
{
    if k <= 0 {
        Seq::new(256, |v: int| 0u32)
    } else {
        let h = hist_of(bgr, w, g, t, k - 1);
        if tile_at(w, g, k - 1) == t {
            let b = bin_at(bgr, k - 1);
            h.update(b, (h[b] + 1) as u32)
        } else {
            h
        }
    }
}

proof fn lemma_total_update(h: Seq<u32>, i: int, v: u32, k: int)
    requires
        0 <= i < h.len(),
        0 <= k <= h.len(),
    ensures
        total(h.update(i, v), k) == total(h, k) + (if i < k {
            v - h[i]
        } else {
            0
        }),
    decreases k,
{
    if k > 0 {
        lemma_total_update(h, i, v, k - 1);
    }
}

proof fn lemma_entry_below_total(h: Seq<u32>, i: int, k: int)
    requires
        0 <= i < k <= h.len(),
    ensures
        h[i] <= total(h, k),
    decreases k,
{
    lemma_total_grows(h, 0, k - 1);
    if i < k - 1 {
        lemma_entry_below_total(h, i, k - 1);
    }
}

proof fn lemma_hist_total(bgr: Seq<u8>, w: int, g: Grid, t: int, k: int)
    requires
        0 <= k <= u32::MAX,
    ensures
        hist_of(bgr, w, g, t, k).len() == 256,
        0 <= total(hist_of(bgr, w, g, t, k), 256) <= k,
    decreases k,
{
    if k == 0 {
        lemma_zero_total(hist_of(bgr, w, g, t, 0), 256);
    } else {
        lemma_hist_total(bgr, w, g, t, k - 1);
        let h = hist_of(bgr, w, g, t, k - 1);
        let b = bin_at(bgr, k - 1);
        assert(0 <= b < 256);
        lemma_entry_below_total(h, b, 256);
        lemma_total_update(h, b, (h[b] + 1) as u32, 256);
    }
}

proof fn lemma_zero_total(h: Seq<u32>, k: int)
    requires
        0 <= k <= h.len(),
        forall|i: int| 0 <= i < h.len() ==> h[i] == 0,
    ensures
        total(h, k) == 0,
    decreases k,
{
    if k > 0 {
        lemma_zero_total(h, k - 1);
    }
}

/// The word of 256.
pub const BINS: u32 = 0x4380_0000;

/// At what count a tile of `n` pixels is clipped.
pub open spec fn clip_count(clip_limit: Single, n: int) -> int {
    (clip_limit * Single::from_int(n) / single::of(BINS)).floor().max(
        single::of(single::ONE),
    ).to_int(0, u32::MAX as int)
}

/// How many pixels the `t`-th tile has.
pub open spec fn tile_area(w: int, h: int, g: Grid, t: int) -> int {
    let x = t % (g.tx as int);
    let y = t / (g.tx as int);
    (tile_end(x, g.tw as int, g.tx as int, w) - x * g.tw) * (tile_end(
        y,
        g.th as int,
        g.ty as int,
        h,
    ) - y * g.th)
}

/// The histogram of the `t`-th tile as it is equalised.
pub open spec fn tile_hist(bgr: Seq<u8>, w: int, h: int, cfg: EnhanceCfg, g: Grid, t: int) -> Seq<
    u32,
> {
    let all = hist_of(bgr, w, g, t, w * h);
    if cfg.unclipped() {
        all
    } else {
        Seq::new(
            256,
            |i: int|
                clipped_at(all, clip_count(cfg.clip_limit, tile_area(w, h, g, t)), i) as u32,
        )
    }
}

/// The equalising tables of all tiles.
pub open spec fn tile_luts(bgr: Seq<u8>, w: int, h: int, cfg: EnhanceCfg, g: Grid) -> Seq<Seq<u8>> {
    Seq::new(
        (g.tx * g.ty) as nat,
        |t: int| tile_lut(bgr, w, h, cfg, g, t),
    )
}

/// The equalising table of the `t`-th tile.
pub open spec fn tile_lut(bgr: Seq<u8>, w: int, h: int, cfg: EnhanceCfg, g: Grid, t: int) -> Seq<
    u8,
> {
    Seq::new(256, |i: int| lut_at(tile_hist(bgr, w, h, cfg, g, t), tile_area(w, h, g, t), i))
}

/// The histograms of all tiles.
fn tile_hists(bgr: &[u8], width: u32, height: u32, g: &Grid) -> (hists: Vec<[u32; 256]>)
    requires
        width * height * 3 <= bgr@.len(),
        width * height * 3 <= u32::MAX,
        1 <= g.tx,
        1 <= g.ty,
        1 <= g.tw,
        1 <= g.th,
        g.tx * g.ty <= u32::MAX,
    ensures
        hists@.len() == g.tx * g.ty,
        forall|t: int|
            0 <= t < hists@.len() ==> #[trigger] hists@[t]@ == hist_of(
                bgr@,
                width as int,
                *g,
                t,
                width * height,
            ),
{
    let n: usize = (g.tx * g.ty) as usize;
    let mut hists: Vec<[u32; 256]> = Vec::new();
    let ghost w = width as int;
    while hists.len() < n
        invariant
            n == g.tx * g.ty,
            hists@.len() <= n,
            forall|t: int|
                0 <= t < hists@.len() ==> #[trigger] hists@[t]@ == hist_of(bgr@, w, *g, t, 0),
        decreases n - hists@.len(),
    {
        let zeros: [u32; 256] = [0u32; 256];
        assert(zeros@ =~= hist_of(bgr@, w, *g, hists@.len() as int, 0));
        hists.push(zeros);
    }
    let mut y: u32 = 0;
    let ghost mut k: int = 0;
    assert(0 * w == 0);
    while y < height
        invariant
            y <= height,
            w == width,
            n == g.tx * g.ty,
            n <= u32::MAX,
            width * height * 3 <= bgr@.len(),
            width * height * 3 <= u32::MAX,
            1 <= g.tx,
            1 <= g.ty,
            1 <= g.tw,
            1 <= g.th,
            k == y * w,
            hists@.len() == n,
            forall|t: int|
                0 <= t < n ==> #[trigger] hists@[t]@ == hist_of(bgr@, w, *g, t, k),
        decreases height - y,
    {
        let mut x: u32 = 0;
        while x < width
            invariant
                x <= width,
                y < height,
                w == width,
                n == g.tx * g.ty,
                n <= u32::MAX,
                width * height * 3 <= bgr@.len(),
                width * height * 3 <= u32::MAX,
                1 <= g.tx,
                1 <= g.ty,
                1 <= g.tw,
                1 <= g.th,
                k == y * w + x,
                hists@.len() == n,
                forall|t: int|
                    0 <= t < n ==> #[trigger] hists@[t]@ == hist_of(bgr@, w, *g, t, k),
            decreases width - x,
        {
            let i: usize = preprocess::pixel_place(width, height, x, y);
            let bin: u8 = preprocess::byte_of(luma_bt601(bgr[i], bgr[i + 1], bgr[i + 2]));
            let (txi, tyi) = tile_of(x, y, g.tw, g.th, g.tx, g.ty);
            proof {
                lemma_fundamental_div_mod_converse(k, w, y as int, x as int);
                assert(0 <= tyi * g.tx + txi < g.tx * g.ty) by (nonlinear_arith)
                    requires
                        0 <= txi < g.tx,
                        0 <= tyi < g.ty,
                ;
                assert(0 <= tyi * g.tx) by (nonlinear_arith)
                    requires
                        0 <= tyi,
                        0 <= g.tx,
                ;
            }
            let t: usize = (tyi * g.tx + txi) as usize;
            proof {
                lemma_hist_total(bgr@, w, *g, t as int, k);
                lemma_entry_below_total(hists@[t as int]@, bin as int, 256);
                assert(k < u32::MAX);
            }
            let ghost old_hists = hists@;
            let v: u32 = hists[t][bin as usize];
            hists[t][bin as usize] = v + 1;
            proof {
                k = k + 1;
                assert forall|u: int| 0 <= u < n implies #[trigger] hists@[u]@ == hist_of(
                    bgr@,
                    w,
                    *g,
                    u,
                    k,
                ) by {
                    assert(old_hists[u]@ == hist_of(bgr@, w, *g, u, k - 1));
                    if u == t {
                        assert(hists@[u]@ =~= hist_of(bgr@, w, *g, u, k));
                    } else {
                        assert(hists@[u] == old_hists[u]);
                    }
                }
            }
            x = x + 1;
        }
        proof {
            assert((y + 1) * w == y * w + w) by (nonlinear_arith);
        }
        y = y + 1;
    }
    assert(height * w == w * height) by (nonlinear_arith);
    hists
}

/// The grid of tiles, and the equalising table of each.
pub fn clahe_luts(bgr: &[u8], width: u32, height: u32, cfg: &EnhanceCfg) -> (r: (
    u32,
    u32,
    u32,
    u32,
    Vec<[u8; 256]>,
))
    requires
        width * height * 3 <= bgr@.len(),
        width * height * 3 <= u32::MAX,
        width > 0,
        height > 0,
    ensures
        ({
            let g = Grid { tx: r.0, ty: r.1, tw: r.2, th: r.3 };
            &&& g == grid_of(width as int, height as int, cfg.tiles as int)
            &&& scalar::views(r.4@) == tile_luts(bgr@, width as int, height as int, *cfg, g)
        }),
        r.4@.len() == r.0 * r.1,
        1 <= r.0,
        1 <= r.1,
        r.0 * r.1 <= u32::MAX,
{
    let (tx, ty, tw, th) = tile_grid(width, height, cfg.tiles);
    let g: Grid = Grid { tx, ty, tw, th };
    let ghost w = width as int;
    let ghost h = height as int;
    proof {
        assert(tx <= tx * tw) by (nonlinear_arith)
            requires
                tw >= 1,
        ;
        assert(ty <= ty * th) by (nonlinear_arith)
            requires
                th >= 1,
        ;
        assert(tx * ty <= width * height) by (nonlinear_arith)
            requires
                tx <= width,
                ty <= height,
        ;
        assert(0 <= width * height) by (nonlinear_arith);
    }
    let hists: Vec<[u32; 256]> = tile_hists(bgr, width, height, &g);
    let ahe: bool = cfg.ahe();
    let mut luts: Vec<[u8; 256]> = Vec::new();
    let mut tyi: u32 = 0;
    assert(0 * tx == 0);
    while tyi < ty
        invariant
            tyi <= ty,
            w == width,
            h == height,
            g == (Grid { tx, ty, tw, th }),
            1 <= tx,
            1 <= ty,
            tx * tw <= width,
            ty * th <= height,
            tx * ty <= u32::MAX,
            width * height * 3 <= u32::MAX,
            ahe == cfg.unclipped(),
            hists@.len() == tx * ty,
            forall|t: int|
                0 <= t < hists@.len() ==> #[trigger] hists@[t]@ == hist_of(bgr@, w, g, t, w * h),
            luts@.len() == tyi * tx,
            forall|t: int|
                0 <= t < luts@.len() ==> #[trigger] luts@[t]@ == tile_lut(bgr@, w, h, *cfg, g, t),
        decreases ty - tyi,
    {
        let mut txi: u32 = 0;
        while txi < tx
            invariant
                txi <= tx,
                tyi < ty,
                w == width,
                h == height,
                g == (Grid { tx, ty, tw, th }),
                1 <= tx,
                1 <= ty,
                tx * tw <= width,
                ty * th <= height,
                tx * ty <= u32::MAX,
                width * height * 3 <= u32::MAX,
                ahe == cfg.unclipped(),
                hists@.len() == tx * ty,
                forall|t: int|
                    0 <= t < hists@.len() ==> #[trigger] hists@[t]@ == hist_of(
                        bgr@,
                        w,
                        g,
                        t,
                        w * h,
                    ),
                luts@.len() == tyi * tx + txi,
                forall|t: int|
                    0 <= t < luts@.len() ==> #[trigger] luts@[t]@ == tile_lut(
                        bgr@,
                        w,
                        h,
                        *cfg,
                        g,
                        t,
                    ),
            decreases tx - txi,
        {
            let (x1, y1, x2, y2) = tile_rect(txi, tyi, tw, th, tx, ty, width, height);
            proof {
                assert(0 <= (x2 - x1) * (y2 - y1) <= width * height) by (nonlinear_arith)
                    requires
                        0 <= x2 - x1 <= width,
                        0 <= y2 - y1 <= height,
                ;
                assert(0 <= tyi * tx + txi < tx * ty) by (nonlinear_arith)
                    requires
                        0 <= txi < tx,
                        0 <= tyi < ty,
                ;
            }
            let tile_n: u32 = (x2 - x1) * (y2 - y1);
            let t: usize = luts.len();
            let mut hist: [u32; 256] = hists[t];
            proof {
                lemma_fundamental_div_mod_converse(t as int, tx as int, tyi as int, txi as int);
                assert(tile_n == tile_area(w, h, g, t as int));
                assert(0 <= w * h <= u32::MAX) by (nonlinear_arith)
                    requires
                        w * h * 3 <= u32::MAX,
                        w >= 0,
                        h >= 0,
                ;
                lemma_hist_total(bgr@, w, g, t as int, w * h);
            }
            if !ahe {
                let clip: u32 = (cfg.clip_limit * single::from_u64(tile_n as u64) / single::of(
                    BINS,
                )).floor().max(single::of(single::ONE)).to_u32();
                let ghost before = hist@;
                clip_hist(&mut hist, clip);
                proof {
                    lemma_clip_keeps_total(before, hist@, clip as int);
                    assert(hist@ =~= tile_hist(bgr@, w, h, *cfg, g, t as int));
                }
            }
            let lut: [u8; 256] = lut_from_hist(&hist, tile_n);
            assert(lut@ =~= tile_lut(bgr@, w, h, *cfg, g, t as int));
            luts.push(lut);
            txi = txi + 1;
        }
        assert((tyi + 1) * tx == tyi * tx + tx) by (nonlinear_arith);
        tyi = tyi + 1;
    }
    assert(ty * tx == tx * ty) by (nonlinear_arith);
    assert(scalar::views(luts@) =~= tile_luts(bgr@, w, h, *cfg, g));
    (tx, ty, tw, th, luts)
}

/// A picture with its brightness equalised tile by tile.
pub open spec fn equalised(bgr: Seq<u8>, w: int, h: int, cfg: EnhanceCfg) -> Seq<u8> {
    let g = grid_of(w, h, cfg.tiles as int);
    Seq::new(
        bgr.len(),
        |i: int|
            if i < w * h * 3 {
                scalar::remapped_at(
                    bgr,
                    w,
                    g.tx as int,
                    g.ty as int,
                    g.tw as int,
                    g.th as int,
                    tile_luts(bgr, w, h, cfg, g),
                    i,
                )
            } else {
                bgr[i]
            },
    )
}

fn clahe_y(bgr: &mut [u8], width: u32, height: u32, cfg: &EnhanceCfg)
    requires
        width * height * 3 <= old(bgr)@.len(),
        width * height * 3 <= u32::MAX,
        width > 0,
        height > 0,
    ensures
        final(bgr)@ == equalised(old(bgr)@, width as int, height as int, *cfg),
{
    let (tx, ty, tw, th, luts) = clahe_luts(bgr, width, height, cfg);
    simd::clahe_remap(bgr, width, height, tx, ty, tw, th, luts.as_slice());
    assert(bgr@ =~= equalised(old(bgr)@, width as int, height as int, *cfg));
}

/// The bytes of an enhanced picture.
pub open spec fn enhanced(img: BgrImage, cfg: EnhanceCfg) -> Seq<u8> {
    let c = cfg.resolved(img);
    let (w, h) = (img.width as int, img.height as int);
    let data = img.data@;
    if c.is_off() || w == 0 || h == 0 {
        data
    } else {
        let d1 = if c.denoise {
            scalar::boxed(data, w, h)
        } else {
            data
        };
        let d2 = if c.wb {
            scalar::balanced(d1)
        } else {
            d1
        };
        let d3 = if c.he != HeMode::Off {
            equalised(d2, w, h, c)
        } else {
            d2
        };
        if c.blend.le(single::of(0)) {
            data
        } else if c.blend.lt(single::of(single::ONE)) {
            scalar::blended(d3, data, c.blend.clamp(single::of(0), single::of(single::ONE)))
        } else {
            d3
        }
    }
}

/// A copy of a picture, enhanced.
pub fn enhance_bgr(src: &BgrImage, cfg: &EnhanceCfg) -> (r: BgrImage)
    requires
        src.wf(),
        cfg.auto ==> src.width > 0 && src.height > 0,
    ensures
        r.wf(),
        r.width == src.width,
        r.height == src.height,
        r.data@ == enhanced(*src, *cfg),
{
    let mut out: BgrImage = src.clone();
    proof {
        lemma_enhanced_ext(*src, out, *cfg);
    }
    enhance_bgr_in_place(&mut out, cfg);
    out
}

proof fn lemma_enhanced_ext(a: BgrImage, b: BgrImage, cfg: EnhanceCfg)
    requires
        a.width == b.width,
        a.height == b.height,
        a.data@ == b.data@,
    ensures
        enhanced(a, cfg) == enhanced(b, cfg),
{
    let step = sample_step(a.width as int, a.height as int);
    lemma_sums_ext(
        a,
        b,
        samples_per_row(a.width as int, step) * samples_per_row(a.height as int, step),
    );
}

proof fn lemma_sums_ext(a: BgrImage, b: BgrImage, k: int)
    requires
        a.width == b.width,
        a.height == b.height,
        a.data@ == b.data@,
    ensures
        sums_of(a, k) == sums_of(b, k),
    decreases k,
{
    if k > 0 {
        lemma_sums_ext(a, b, k - 1);
    }
}

/// Enhances a picture.
pub fn enhance_bgr_in_place(img: &mut BgrImage, cfg: &EnhanceCfg)
    requires
        old(img).wf(),
        cfg.auto ==> old(img).width > 0 && old(img).height > 0,
    ensures
        final(img).wf(),
        final(img).width == old(img).width,
        final(img).height == old(img).height,
        final(img).data@ == enhanced(*old(img), *cfg),
{
    let cfg: EnhanceCfg = cfg.resolve(img);
    if cfg.is_off() || img.width == 0 || img.height == 0 {
        return;
    }
    let (w, h) = (img.width, img.height);
    let orig: Vec<u8> = img.data.clone();
    assert(orig@ =~= img.data@);
    if cfg.denoise {
        simd::box3_bgr(img.data.as_mut_slice(), w, h);
    }
    if cfg.wb {
        simd::gray_world(img.data.as_mut_slice());
    }
    if cfg.he != HeMode::Off {
        clahe_y(img.data.as_mut_slice(), w, h, &cfg);
    }
    if cfg.blend.le(single::of(0)) {
        img.data = orig;
        return;
    }
    if cfg.blend.lt(single::of(single::ONE)) {
        simd::blend_u8(
            img.data.as_mut_slice(),
            orig.as_slice(),
            cfg.blend.clamp(single::of(0), single::of(single::ONE)),
        );
    }
}

/// Settings that are off leave a picture as it is.
pub proof fn lemma_off_is_identity(img: BgrImage, cfg: EnhanceCfg)
    requires
        cfg.is_off(),
    ensures
        enhanced(img, cfg) == img.data@,
{
}

/// A well-lit scene is left as it is.
pub proof fn lemma_auto_skips_well_lit(img: BgrImage, cfg: EnhanceCfg)
    requires
        cfg.auto,
        kind_of(stats_of(all_sums(img))) == SceneKind::WellLit,
    ensures
        enhanced(img, cfg) == img.data@,
{
}

/// A clip limit of zero or less equalises as no clipping does.
pub proof fn lemma_zero_clip_is_ahe(img: BgrImage, clahe: EnhanceCfg, ahe: EnhanceCfg)
    requires
        !clahe.auto,
        clahe.he == HeMode::Clahe,
        clahe.clip_limit.le(single::of(0)),
        ahe == (EnhanceCfg { he: HeMode::Ahe, clip_limit: ahe.clip_limit, ..clahe }),
    ensures
        enhanced(img, clahe) == enhanced(img, ahe),
{
    let (w, h) = (img.width as int, img.height as int);
    let g = grid_of(w, h, clahe.tiles as int);
    assert forall|bgr: Seq<u8>| #[trigger] equalised(bgr, w, h, clahe) == equalised(
        bgr,
        w,
        h,
        ahe,
    ) by {
        assert forall|t: int| #[trigger] tile_lut(bgr, w, h, clahe, g, t) == tile_lut(
            bgr,
            w,
            h,
            ahe,
            g,
            t,
        ) by {
            assert(tile_hist(bgr, w, h, clahe, g, t) == tile_hist(bgr, w, h, ahe, g, t));
        }
        assert(tile_luts(bgr, w, h, clahe, g) =~= tile_luts(bgr, w, h, ahe, g));
        assert(equalised(bgr, w, h, clahe) =~= equalised(bgr, w, h, ahe));
    }
}

} // verus!
