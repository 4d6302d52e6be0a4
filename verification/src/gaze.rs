//! Pupils: the pictures of both eyes that a network sees, and what its answer says.

use crate::ext;
use crate::geom;
use crate::geom::{clamp_to_im, logit, logit_odds, rotate};
use crate::glasses;
use crate::glasses::{glare_frac, region_glare_frac, suppress_glare};
use crate::ieee::convert;
use crate::ieee::decimal;
use crate::ieee::maths::hypot;
use crate::ieee::near;
use crate::ieee::near::{real_of, roughly, size};
use crate::ieee::single;
use crate::ieee::single::Single;
use crate::ieee::words;
use crate::preprocess;
use crate::preprocess::{crop_img, imagenet_nchw_into, BgrImage};
use vstd::prelude::*;

verus! {

/// Pixels along each side of the picture of an eye.
pub const EYE_SIDE: u32 = 32;

/// Numbers in the picture of an eye.
pub const EYE_PLANE: usize = 3072;

/// What stands for a pupil that was not looked for.
pub open spec fn no_pupil() -> Seq<Single> {
    seq![single::of(single::ONE), single::of(0), single::of(0), single::of(0)]
}

/// What stands for pupils that were not looked for.
pub fn dummy() -> (r: [[Single; 4]; 2])
    ensures
        r[0]@ == no_pupil(),
        r[1]@ == no_pupil(),
{
    let z: Single = single::of(0);
    let one: Single = single::of(single::ONE);
    let e: [Single; 4] = [one, z, z, z];
    proof {
        assert(e@ =~= no_pupil());
    }
    [e, e]
}

/// The smallest coordinate `c` of the first `n` landmarks.
pub open spec fn least(lms: Seq<[Single; 3]>, c: int, n: int) -> Single
    decreases n,
{
    if n <= 0 {
        single::of(single::MAX)
    } else {
        least(lms, c, n - 1).min(lms[n - 1][c])
    }
}

/// The largest coordinate `c` of the first `n` landmarks.
pub open spec fn most(lms: Seq<[Single; 3]>, c: int, n: int) -> Single
    decreases n,
{
    if n <= 0 {
        single::of(single::MIN)
    } else {
        most(lms, c, n - 1).max(lms[n - 1][c])
    }
}

/// The middle between two coordinates.
pub open spec fn middle(a: Single, b: Single) -> Single {
    (a + b) / single::of(decimal::N2)
}

/// Three fifths of the distance between two coordinates.
pub open spec fn reach(a: Single, b: Single) -> Single {
    single::of(decimal::N1_2) * (b - a) / single::of(decimal::N2)
}

/// The pixel of a coordinate on an axis of `n`.
pub open spec fn pixel(v: Single, n: int) -> int {
    geom::on_image(v, Single::from_int(n)).to_int(i32::MIN as int, i32::MAX as int)
}

/// The first and last column and row of the face in a frame: columns are held to the height of
/// the frame and rows to its width, and rows move one further.
pub open spec fn face_box(frame: BgrImage, lms: Seq<[Single; 3]>) -> (int, int, int, int) {
    let n = lms.len() as int;
    let (x1, y1) = (least(lms, 1, n), least(lms, 0, n));
    let (x2, y2) = (most(lms, 1, n), most(lms, 0, n));
    let one = single::of(single::ONE);
    let (cx, cy) = (middle(x1, x2), middle(y1, y2));
    let (rx, ry) = (reach(x1, x2), reach(y1, y2));
    (
        pixel(cx - rx, frame.height as int),
        pixel(cy - ry, frame.width as int) + 1,
        pixel(cx + rx + one, frame.height as int),
        pixel(cy + ry + one, frame.width as int) + 1,
    )
}

/// Cuts the face out of a frame, and gives the landmarks in it as `[column, row]`, and where it
/// was cut out.
pub fn extract_face(frame: &BgrImage, lms: &[[Single; 3]]) -> (r: (BgrImage, Vec<[Single; 2]>, (i32, i32)))
    requires
        frame.wf(),
        frame.width <= geom::SIDE_MAX,
        frame.height <= geom::SIDE_MAX,
    ensures
        ({
            let (x1, y1, x2, y2) = face_box(*frame, lms@);
            &&& (r.2).0 == x1
            &&& (r.2).1 == y1
            &&& r.0.wf()
            &&& r.0.width == preprocess::extent(x1, x2, frame.width as int)
            &&& r.0.height == preprocess::extent(y1, y2, frame.height as int)
            &&& r.0.data@ == preprocess::rows_of(
                frame.data@,
                frame.width as int,
                x1,
                r.0.width as int,
                y1,
                y1 + r.0.height,
            )
            &&& r.1@.len() == lms@.len()
            &&& forall|i: int|
                0 <= i < lms@.len() ==> #[trigger] r.1@[i][0] == lms@[i][1] - Single::from_int(x1)
                    && r.1@[i][1] == lms@[i][0] - Single::from_int(y1)
        }),
        r.0.width <= frame.width,
        r.0.height <= frame.height,
{
    let mut x1: Single = single::of(single::MAX);
    let mut y1: Single = single::of(single::MAX);
    let mut x2: Single = single::of(single::MIN);
    let mut y2: Single = single::of(single::MIN);
    let mut i: usize = 0;
    while i < lms.len()
        invariant
            i <= lms@.len(),
            x1 == least(lms@, 1, i as int),
            y1 == least(lms@, 0, i as int),
            x2 == most(lms@, 1, i as int),
            y2 == most(lms@, 0, i as int),
        decreases lms@.len() - i,
    {
        let p: [Single; 3] = lms[i];
        x1 = x1.min(p[1]);
        y1 = y1.min(p[0]);
        x2 = x2.max(p[1]);
        y2 = y2.max(p[0]);
        i = i + 1;
    }
    let one: Single = single::of(single::ONE);
    let two: Single = single::of(decimal::N2);
    let k: Single = single::of(decimal::N1_2);
    let rx: Single = k * (x2 - x1) / two;
    let ry: Single = k * (y2 - y1) / two;
    let cx: Single = (x1 + x2) / two;
    let cy: Single = (y1 + y2) / two;
    let w: Single = single::from_u64(frame.width as u64);
    let h: Single = single::from_u64(frame.height as u64);
    proof {
        geom::lemma_on_image(cx - rx, frame.height as int);
        geom::lemma_on_image(cx + rx + one, frame.height as int);
        geom::lemma_on_image(cy - ry, frame.width as int);
        geom::lemma_on_image(cy + ry + one, frame.width as int);
    }
    let (px1, py1) = clamp_to_im(cx - rx, cy - ry, h, w);
    let (px2, py2) = clamp_to_im(cx + rx + one, cy + ry + one, h, w);
    let ox: Single = single::from_i64(px1 as i64);
    let oy: Single = single::from_i64(py1 as i64);
    let mut xy: Vec<[Single; 2]> = Vec::new();
    let mut j: usize = 0;
    while j < lms.len()
        invariant
            j <= lms@.len(),
            xy@.len() == j,
            forall|m: int|
                0 <= m < j ==> #[trigger] xy@[m][0] == lms@[m][1] - ox && xy@[m][1] == lms@[m][0] - oy,
        decreases lms@.len() - j,
    {
        let p: [Single; 3] = lms[j];
        xy.push([p[1] - ox, p[0] - oy]);
        j = j + 1;
    }
    let crop = crop_img(frame, px1, py1, px2, py2);
    (crop, xy, (px1, py1))
}

/// The turn that levels an eye: the cosine and sine of its angle, and of its opposite.
#[derive(Clone, Copy, Debug, PartialEq, Eq, Structural)]
pub struct EyeTurn {
    pub cos: Single,
    pub sin: Single,
    pub back_cos: Single,
    pub back_sin: Single,
}

/// An eye that is ready to be looked at: its box, what its pixels stand for, how it is levelled.
#[derive(Clone, Copy, Debug, PartialEq, Eq, Structural)]
pub struct EyePrep {
    pub x1: i32,
    pub y1: i32,
    pub w: u32,
    pub h: u32,
    pub scale_x: Single,
    pub scale_y: Single,
    pub ref_x: Single,
    pub ref_y: Single,
    pub turn: EyeTurn,
    pub flip: bool,
    pub glare: bool,
}

/// The middle of an eye and half its width: from its first corner to the second one, levelled.
pub open spec fn eye_circle(c1: Seq<Single>, c2: Seq<Single>, turn: EyeTurn) -> (Single, Single, Single) {
    let two = single::of(decimal::N2);
    let p = geom::rotated((c1[0], c1[1]), (c2[0], c2[1]), turn.back_cos, turn.back_sin);
    (
        (c1[0] + p.0) / two,
        (c1[1] + p.1) / two,
        (hypot(c1[0] - p.0, c1[1] - p.1) / two).max(single::of(single::ONE)),
    )
}

/// Whether there is glare around an eye.
pub open spec fn glares(face: BgrImage, x: Single, y: Single, radius: Single) -> bool {
    let rx = radius * single::of(decimal::N1_4);
    let ry = radius * single::of(decimal::N1_2);
    glasses::part_glare(
        face,
        glasses::part_start(x - rx),
        glasses::part_start(y - ry),
        glasses::part_end(x + rx, face.width),
        glasses::part_end(y + ry, face.height),
    ).gt(single::of(glasses::GLARE_FRAC_THRESH))
}

/// An eye made ready: its box is wider where there is glare. None where the box is empty.
pub open spec fn prepared(
    face: BgrImage,
    c1: Seq<Single>,
    c2: Seq<Single>,
    turn: EyeTurn,
    flip: bool,
) -> Option<EyePrep> {
    let (x, y, radius) = eye_circle(c1, c2, turn);
    let glare = glares(face, x, y, radius);
    let rx = radius * single::of(
        if glare {
            decimal::N1_65
        } else {
            decimal::N1_4
        },
    );
    let ry = radius * single::of(
        if glare {
            decimal::N1_45
        } else {
            decimal::N1_2
        },
    );
    let x1 = pixel(x - rx, face.width as int);
    let y1 = pixel(y - ry, face.height as int) + 1;
    let x2 = pixel(x + rx, face.width as int);
    let y2 = pixel(y + ry, face.height as int) + 1;
    let side = single::of(decimal::N32);
    if x2 <= x1 || y2 <= y1 {
        None
    } else {
        Some(
            EyePrep {
                x1: x1 as i32,
                y1: y1 as i32,
                w: (x2 - x1) as u32,
                h: (y2 - y1) as u32,
                scale_x: Single::from_int(x2 - x1) / side,
                scale_y: Single::from_int(y2 - y1) / side,
                ref_x: c1[0],
                ref_y: c1[1],
                turn,
                flip,
                glare,
            },
        )
    }
}

impl EyePrep {
    /// Whether the box of the eye fits a face.
    pub open spec fn fits(self, face: BgrImage) -> bool {
        &&& 0 <= self.x1 <= face.width
        &&& 0 <= self.y1 <= face.height + 1
        &&& self.w <= face.width
        &&& self.h <= face.height
    }
}

/// Makes an eye ready, from its two corners in the face and the turn from the first corner to the
/// second.
pub fn prepare_eye(
    face: &BgrImage,
    c1: [Single; 2],
    c2: [Single; 2],
    turn: EyeTurn,
    flip: bool,
) -> (r: Option<EyePrep>)
    requires
        face.wf(),
        face.width <= preprocess::AXIS_MAX,
        face.height <= preprocess::AXIS_MAX,
    ensures
        r == prepared(*face, c1@, c2@, turn, flip),
        r is Some ==> r->0.fits(*face),
{
    let two: Single = single::of(decimal::N2);
    let (px, py) = rotate((c1[0], c1[1]), (c2[0], c2[1]), turn.back_cos, turn.back_sin);
    let x: Single = (c1[0] + px) / two;
    let y: Single = (c1[1] + py) / two;
    let radius: Single = (hypot(c1[0] - px, c1[1] - py) / two).max(single::of(single::ONE));
    let probe_rx: Single = radius * single::of(decimal::N1_4);
    let probe_ry: Single = radius * single::of(decimal::N1_2);
    let glare: bool = region_glare_frac(
        face,
        x - probe_rx,
        y - probe_ry,
        x + probe_rx,
        y + probe_ry,
    ).gt(single::of(glasses::GLARE_FRAC_THRESH));
    let rx: Single = radius * single::of(
        if glare {
            decimal::N1_65
        } else {
            decimal::N1_4
        },
    );
    let ry: Single = radius * single::of(
        if glare {
            decimal::N1_45
        } else {
            decimal::N1_2
        },
    );
    let w: Single = single::from_u64(face.width as u64);
    let h: Single = single::from_u64(face.height as u64);
    proof {
        geom::lemma_on_image(x - rx, face.width as int);
        geom::lemma_on_image(x + rx, face.width as int);
        geom::lemma_on_image(y - ry, face.height as int);
        geom::lemma_on_image(y + ry, face.height as int);
    }
    let (x1, y1) = clamp_to_im(x - rx, y - ry, w, h);
    let (x2, y2) = clamp_to_im(x + rx, y + ry, w, h);
    if x2 <= x1 || y2 <= y1 {
        return None;
    }
    let side: Single = single::of(decimal::N32);
    Some(
        EyePrep {
            x1,
            y1,
            w: (x2 - x1) as u32,
            h: (y2 - y1) as u32,
            scale_x: single::from_i64((x2 - x1) as i64) / side,
            scale_y: single::from_i64((y2 - y1) as i64) / side,
            ref_x: c1[0],
            ref_y: c1[1],
            turn,
            flip,
            glare,
        },
    )
}

/// The bytes of an eye's box, levelled about the eye's first corner.
pub open spec fn levelled(face: BgrImage, p: EyePrep) -> Seq<u8> {
    let w = p.w as int;
    Seq::new(
        (p.w * p.h * 3) as nat,
        |i: int|
            {
                let at = BgrImage::turned(
                    p.turn.cos,
                    p.turn.sin,
                    p.ref_x,
                    p.ref_y,
                    p.x1 + preprocess::col(i, w),
                    p.y1 + preprocess::row(i, w),
                );
                face.sampled(at.0, at.1, preprocess::chan(i))
            },
    )
}

fn level_eye(face: &BgrImage, p: &EyePrep) -> (crop: BgrImage)
    requires
        face.wf(),
        face.width <= preprocess::AXIS_MAX,
        face.height <= preprocess::AXIS_MAX,
        p.fits(*face),
        p.w > 0,
    ensures
        crop.wf(),
        crop.width == p.w,
        crop.height == p.h,
        crop.data@ == levelled(*face, *p),
{
    let (cos, sin) = (p.turn.cos, p.turn.sin);
    let ghost w = p.w as int;
    let ghost h = p.h as int;
    let ghost want = levelled(*face, *p);
    proof {
        assert(0 <= p.w * p.h * 3 <= face.width * face.height * 3) by (nonlinear_arith)
            requires
                0 <= p.w <= face.width,
                0 <= p.h <= face.height,
        ;
    }
    let mut data: Vec<u8> = Vec::new();
    let mut y: u32 = 0;
    assert(preprocess::place(w, 0, 0, 0) == 0) by {
        assert(0 * w == 0);
    }
    while y < p.h
        invariant
            face.wf(),
            face.width <= preprocess::AXIS_MAX,
            face.height <= preprocess::AXIS_MAX,
            p.fits(*face),
            w == p.w,
            h == p.h,
            w > 0,
            cos == p.turn.cos,
            sin == p.turn.sin,
            want == levelled(*face, *p),
            y <= p.h,
            data@.len() == preprocess::place(w, 0, y as int, 0),
            forall|i: int| 0 <= i < data@.len() ==> data@[i] == want[i],
        decreases p.h - y,
    {
        let mut x: u32 = 0;
        while x < p.w
            invariant
                face.wf(),
                face.width <= preprocess::AXIS_MAX,
                face.height <= preprocess::AXIS_MAX,
                p.fits(*face),
                w == p.w,
                h == p.h,
                w > 0,
                cos == p.turn.cos,
                sin == p.turn.sin,
                want == levelled(*face, *p),
                x <= p.w,
                y < p.h,
                data@.len() == preprocess::place(w, x as int, y as int, 0),
                forall|i: int| 0 <= i < data@.len() ==> data@[i] == want[i],
            decreases p.w - x,
        {
            let dx: Single = single::from_i64(p.x1 as i64 + x as i64) - p.ref_x;
            let dy: Single = single::from_i64(p.y1 as i64 + y as i64) - p.ref_y;
            proof {
                preprocess::lemma_exact_end(face.width as int);
                preprocess::lemma_exact_end(face.height as int);
            }
            let pix: [u8; 3] = face.sample(
                cos * dx + sin * dy + p.ref_x,
                sin.negated() * dx + cos * dy + p.ref_y,
            );
            proof {
                preprocess::lemma_place(w, h, x as int, y as int, 0);
                preprocess::lemma_place(w, h, x as int, y as int, 1);
                preprocess::lemma_place(w, h, x as int, y as int, 2);
                let i = preprocess::place(w, x as int, y as int, 0);
                assert(pix@[0] == want[i]);
                assert(pix@[1] == want[i + 1]);
                assert(pix@[2] == want[i + 2]);
            }
            data.push(pix[0]);
            data.push(pix[1]);
            data.push(pix[2]);
            x = x + 1;
        }
        proof {
            preprocess::lemma_row_end(w, y as int);
        }
        y = y + 1;
    }
    proof {
        assert(preprocess::place(w, 0, h, 0) == w * h * 3) by (nonlinear_arith)
            requires
                preprocess::place(w, 0, h, 0) == (h * w + 0) * 3 + 0,
        ;
        assert(data@ =~= want);
    }
    BgrImage::new(p.w, p.h, data)
}

/// Whether `after` holds the bytes of `before` with the glare dimmed.
pub open spec fn is_deglared(before: Seq<u8>, after: Seq<u8>) -> bool {
    if before.len() < 12 {
        after == before
    } else {
        exists|p70: u8|
            #![trigger glasses::cap_of(p70)]
            glasses::stands_at(glasses::lumas(before), (before.len() as int / 3) * 7 / 10, p70)
                && after == glasses::deglared(before, glasses::cap_of(p70))
    }
}

/// The share of blown-out pixels in some bytes.
pub open spec fn glare_in(data: Seq<u8>) -> Single {
    if data.len() < 3 {
        single::of(0)
    } else {
        glasses::share_of(
            glasses::hot_pixels(data, data.len() as int / 3),
            data.len() as int / 3,
        )
    }
}

/// Whether `im` is the picture of an eye: its box, levelled, mirrored where the eye is the left
/// one, and with the glare dimmed where there is some around the eye or in the picture.
pub open spec fn is_eye_picture(im: BgrImage, face: BgrImage, p: EyePrep) -> bool {
    &&& im.wf()
    &&& im.width == p.w
    &&& im.height == p.h
    &&& exists|level: BgrImage|
        #![trigger level.mirrored()]
        {
            let shown = if p.flip {
                level.mirrored()
            } else {
                level.data@
            };
            &&& level.width == p.w
            &&& level.height == p.h
            &&& level.data@ == levelled(face, p)
            &&& if p.glare || glare_in(shown).gt(single::of(glasses::GLARE_FRAC_THRESH)) {
                is_deglared(shown, im.data@)
            } else {
                im.data@ == shown
            }
        }
}

/// The picture of an eye.
pub fn eye_picture(face: &BgrImage, p: &EyePrep) -> (im: BgrImage)
    requires
        face.wf(),
        face.width <= preprocess::AXIS_MAX,
        face.height <= preprocess::AXIS_MAX,
        p.fits(*face),
        p.w > 0,
    ensures
        is_eye_picture(im, *face, *p),
{
    let mut im: BgrImage = level_eye(face, p);
    let ghost level = im;
    let ghost mirror = level.mirrored();
    if p.flip {
        im.flip_h_in_place();
    }
    let ghost shown = im.data@;
    if p.glare || glare_frac(&im).gt(single::of(glasses::GLARE_FRAC_THRESH)) {
        suppress_glare(&mut im);
        assert(is_deglared(shown, im.data@));
    }
    proof {
        assert(im.data@.len() == shown.len());
        assert(level.mirrored() == mirror);
        assert(is_eye_picture(im, *face, *p));
    }
    im
}

/// The numbers that the network sees of an eye: zeros where its box is less than two pixels wide
/// or high.
pub fn eye_nchw_into(face: &BgrImage, p: &EyePrep, dst: &mut [u16])
    requires
        face.wf(),
        face.width <= preprocess::AXIS_MAX,
        face.height <= preprocess::AXIS_MAX,
        p.fits(*face),
    ensures
        final(dst)@.len() == old(dst)@.len(),
        p.w < 2 || p.h < 2 || old(dst)@.len() < EYE_PLANE ==> final(dst)@ == Seq::new(
            old(dst)@.len(),
            |i: int| 0u16,
        ),
        p.w >= 2 && p.h >= 2 && old(dst)@.len() >= EYE_PLANE ==> exists|
            im: BgrImage,
            norm: preprocess::ColorNorm,
        |
            #![trigger is_eye_picture(im, *face, *p), norm.is_imagenet()]
            is_eye_picture(im, *face, *p) && norm.is_imagenet() && final(dst)@
                == preprocess::tensor_of(im, 0, 0, im.width as int, im.height as int, 32, 32, norm)
                + old(dst)@.skip(3072),
{
    if p.w < 2 || p.h < 2 {
        let n: usize = dst.len();
        let mut i: usize = 0;
        while i < n
            invariant
                n == dst@.len(),
                n == old(dst)@.len(),
                i <= n,
                forall|j: int| 0 <= j < i ==> dst@[j] == 0,
            decreases n - i,
        {
            dst[i] = 0;
            i = i + 1;
        }
        assert(dst@ =~= Seq::new(old(dst)@.len(), |i: int| 0u16));
        return;
    }
    let im: BgrImage = eye_picture(face, p);
    proof {
        preprocess::lemma_reads_inside(im.width as int, im.height as int, 32, 32);
    }
    imagenet_nchw_into(&im, EYE_SIDE, dst);
    assert(is_eye_picture(im, *face, *p));
}

/// What the network says of an eye: the cell of the pupil, how sure it is, and the odds of the
/// pupil's place in the cell.
#[derive(Clone, Copy, Debug, PartialEq, Eq, Structural)]
pub struct EyePeak {
    pub cell: usize,
    pub conf: Single,
    pub odds_x: Single,
    pub odds_y: Single,
}

/// The numbers of a tensor.
pub open spec fn numbers_of(raw: Seq<u16>) -> Seq<Single> {
    raw.map_values(|h: u16| convert::from_half(h))
}

/// Whether the answer has a part for eye `i`.
pub open spec fn answered(len: int, i: int) -> bool {
    192 * i + 192 <= len || (len / 2) * i + 192 <= len
}

/// The cell with the pupil of eye `i`.
pub open spec fn pupil_cell(raw: Seq<u16>, i: int) -> int {
    ext::leader(numbers_of(raw).subrange(192 * i, 192 * i + 64), 64)
}

/// What the network says of eye `i`.
pub open spec fn eye_peak_of(raw: Seq<u16>, i: int) -> EyePeak {
    let base = 192 * i;
    let m = pupil_cell(raw, i);
    EyePeak {
        cell: m as usize,
        conf: convert::from_half(raw[base + m]),
        odds_x: geom::odds(convert::from_half(raw[base + 64 + m])),
        odds_y: geom::odds(convert::from_half(raw[base + 128 + m])),
    }
}

fn cell_in(raw: &[u16], i: usize) -> (m: usize)
    requires
        i < 2,
        192 * i + 64 <= raw@.len(),
    ensures
        m == pupil_cell(raw@, i as int),
        m < 64,
{
    let base: usize = 192 * i;
    let mut hm: Vec<Single> = Vec::new();
    let mut k: usize = 0;
    let ghost want = numbers_of(raw@).subrange(base as int, base + 64);
    while k < 64
        invariant
            k <= 64,
            base + 64 <= raw@.len(),
            base <= 192,
            want == numbers_of(raw@).subrange(base as int, base + 64),
            hm@ == want.take(k as int),
        decreases 64 - k,
    {
        hm.push(convert::from_half(raw[base + k]));
        k = k + 1;
        assert(hm@ =~= want.take(k as int));
    }
    assert(hm@ =~= want);
    ext::lead(hm.as_slice())
}

fn peak_in(raw: &[u16], i: usize) -> (r: EyePeak)
    requires
        i < 2,
        192 * i + 191 <= raw@.len(),
        raw@.len() < 192 * i + 192 ==> pupil_cell(raw@, i as int) < 63,
    ensures
        r == eye_peak_of(raw@, i as int),
{
    let base: usize = 192 * i;
    let m: usize = cell_in(raw, i);
    EyePeak {
        cell: m,
        conf: convert::from_half(raw[base + m]),
        odds_x: logit_odds(convert::from_half(raw[base + 64 + m])),
        odds_y: logit_odds(convert::from_half(raw[base + 128 + m])),
    }
}

/// Whether an answer holds all that is said of the eyes that it has a part for.
pub fn is_whole(raw: &[u16]) -> (r: bool)
    ensures
        r == !(raw@.len() == 383 && pupil_cell(raw@, 1) >= 63),
{
    raw.len() != 383 || cell_in(raw, 1) < 63
}

/// What the network says of each eye that its answer has a part for. An answer one number short of
/// full says nothing of a left pupil in the last cell, and must not have it there.
pub fn eye_peaks(raw: &[u16]) -> (r: (Option<EyePeak>, Option<EyePeak>))
    requires
        raw@.len() == 383 ==> pupil_cell(raw@, 1) < 63,
    ensures
        r.0 == (if answered(raw@.len() as int, 0) {
            Some(eye_peak_of(raw@, 0))
        } else {
            None
        }),
        r.1 == (if answered(raw@.len() as int, 1) {
            Some(eye_peak_of(raw@, 1))
        } else {
            None
        }),
{
    let len: usize = raw.len();
    let right: Option<EyePeak> = if 192 <= len {
        Some(peak_in(raw, 0))
    } else {
        None
    };
    let left: Option<EyePeak> = if 384 <= len || (192 <= len && len / 2 <= len - 192) {
        Some(peak_in(raw, 1))
    } else {
        None
    };
    (right, left)
}

/// Where a pupil stands along one axis of the picture of an eye, in pixels.
pub open spec fn along(cell: int, ln_odds: Single) -> Single {
    let side = single::of(decimal::N32);
    let eight = single::of(decimal::N8);
    side * Single::from_int(cell) / eight + side * (ln_odds / eight)
}

/// A pupil `[open, row, column, confidence]` in the frame, from the logarithms of its odds.
pub open spec fn pupil_of(
    peak: EyePeak,
    ln_x: Single,
    ln_y: Single,
    p: EyePrep,
    left: bool,
    offset: (i32, i32),
) -> Seq<Single> {
    let x = along(peak.cell as int / 8, ln_x);
    let y = along(peak.cell as int % 8, ln_y);
    let fx = Single::from_int(p.x1 as int) + p.scale_x * (if left {
        single::of(decimal::N32) - x
    } else {
        x
    });
    let fy = Single::from_int(p.y1 as int) + p.scale_y * y;
    let at = geom::rotated((p.ref_x, p.ref_y), (fx, fy), p.turn.cos, p.turn.sin);
    let r = seq![
        single::of(single::ONE),
        at.1 + Single::from_int(offset.1 as int),
        at.0 + Single::from_int(offset.0 as int),
        peak.conf,
    ];
    if r[1].is_nan() || r[2].is_nan() || r[3].is_nan() {
        no_pupil()
    } else {
        r
    }
}

/// Where a pupil stands along one axis of the picture of an eye.
proof fn lemma_along(k: int, l: Single, a: real)
    requires
        0 <= k < 8,
        l.is_finite(),
        size(real_of(l)) <= a,
        8real <= a <= words::most(),
    ensures
        roughly(along(k, l), 4real * k as real + 4real * real_of(l), 8real * a, 7real),
{
    let side = single::of(decimal::N32);
    let eight = single::of(decimal::N8);
    let (kr, rl) = (k as real, real_of(l));
    words::lemma_words();
    near::lemma_count(k);
    near::lemma_itself(side, 32real);
    near::lemma_itself(eight, 8real);
    near::lemma_itself(Single::from_int(k), 8real);
    near::lemma_itself(l, a);
    near::lemma_times(side, 32real, 32real, 0real, Single::from_int(k), kr, 8real, 0real);
    near::lemma_over(side * Single::from_int(k), 32real * kr, 256real, 2real, eight, 8real, 0real);
    let p = side * Single::from_int(k) / eight;
    assert(32real * kr / 8real == 4real * kr && 256real / 8real == 32real);
    near::lemma_over(l, rl, a, 0real, eight, 8real, 0real);
    assert(32real * (a / 8real) == 4real * a && 32real * (rl / 8real) == 4real * rl);
    near::lemma_times(side, 32real, 32real, 0real, l / eight, rl / 8real, a / 8real, 3real);
    near::lemma_add(p, 4real * kr, 32real, side * (l / eight), 4real * rl, 4real * a, 5real);
    near::lemma_looser(along(k, l), 4real * kr + 4real * rl, 32real + 4real * a, 7real, 8real * a, 7real);
}

/// A point of the picture of an eye on one axis of the face.
proof fn lemma_on_face(o: int, k: Single, x: Single, v: real, a: real, c: real, m: real)
    requires
        0 <= o <= 0x100_0000,
        o as real <= m,
        k.is_finite(),
        size(real_of(k)) <= c,
        roughly(x, v, 12real * a, 9real),
        8real <= a,
        words::least() <= c,
        12real * a * c <= m <= words::most(),
        1real <= m,
    ensures
        roughly(Single::from_int(o) + k * x, o as real + real_of(k) * v, 2real * m, 13real),
{
    let ca = c * (12real * a);
    assert(ca <= m && ca >= 1real / 1000000000000real) by (nonlinear_arith)
        requires
            ca == c * (12real * a),
            12real * a * c <= m,
            a >= 8real,
            c >= 1real / 1000000000000real,
    ;
    near::lemma_count(o);
    near::lemma_itself(Single::from_int(o), m);
    near::lemma_itself(k, c);
    near::lemma_times(k, real_of(k), c, 0real, x, v, 12real * a, 9real);
    near::lemma_looser(k * x, real_of(k) * v, ca, 11real, m, 11real);
    near::lemma_looser(Single::from_int(o), o as real, m, 0real, m, 11real);
    near::lemma_add(Single::from_int(o), o as real, m, k * x, real_of(k) * v, m, 11real);
}

/// A coordinate of a turned point: `r + c x + s y`.
proof fn lemma_turned(
    r: Single,
    c: Single,
    x: Single,
    vx: real,
    s: Single,
    y: Single,
    vy: real,
    o: int,
    m: real,
)
    requires
        r.is_finite() && c.is_finite() && s.is_finite(),
        size(real_of(r)) <= m,
        size(real_of(c)) <= 1real,
        size(real_of(s)) <= 1real,
        roughly(x, vx, 3real * m, 15real),
        roughly(y, vy, 3real * m, 15real),
        0 <= o <= 0x100_0000,
        o as real <= m,
        1real <= m <= words::most(),
    ensures
        roughly(
            r + c * x + s * y + Single::from_int(o),
            real_of(r) + real_of(c) * vx + real_of(s) * vy + o as real,
            8real * m,
            23real,
        ),
        roughly(
            r + c * x - s * y + Single::from_int(o),
            real_of(r) + real_of(c) * vx - real_of(s) * vy + o as real,
            8real * m,
            23real,
        ),
{
    let (rr, rc, rs) = (real_of(r), real_of(c), real_of(s));
    near::lemma_itself(r, m);
    near::lemma_itself(c, 1real);
    near::lemma_itself(s, 1real);
    near::lemma_count(o);
    near::lemma_itself(Single::from_int(o), m);
    let n = 3real * m;
    assert(1real * n == n);
    near::lemma_times(c, rc, 1real, 0real, x, vx, n, 15real);
    near::lemma_times(s, rs, 1real, 0real, y, vy, n, 15real);
    near::lemma_looser(r, rr, m, 0real, m, 17real);
    near::lemma_add(r, rr, m, c * x, rc * vx, n, 17real);
    near::lemma_looser(s * y, rs * vy, n, 17real, n, 19real);
    near::lemma_add(r + c * x, rr + rc * vx, m + n, s * y, rs * vy, n, 19real);
    near::lemma_less(r + c * x, rr + rc * vx, m + n, s * y, rs * vy, n, 19real);
    near::lemma_looser(Single::from_int(o), o as real, m, 0real, m, 21real);
    near::lemma_add(
        r + c * x + s * y,
        rr + rc * vx + rs * vy,
        m + n + n,
        Single::from_int(o),
        o as real,
        m,
        21real,
    );
    near::lemma_add(
        r + c * x - s * y,
        rr + rc * vx - rs * vy,
        m + n + n,
        Single::from_int(o),
        o as real,
        m,
        21real,
    );
}

/// What a pupil has to be on: a cell of the picture, and numbers of some size: logarithms of at most
/// `a`, scales of at most `c`, places of at most `m`, and a turn of at most one.
pub open spec fn can_be_seen(
    peak: EyePeak,
    ln_x: Single,
    ln_y: Single,
    p: EyePrep,
    offset: (i32, i32),
    a: real,
    c: real,
    m: real,
) -> bool {
    &&& peak.cell < 64
    &&& !peak.conf.is_nan()
    &&& ln_x.is_finite() && ln_y.is_finite()
    &&& size(real_of(ln_x)) <= a && size(real_of(ln_y)) <= a
    &&& p.scale_x.is_finite() && p.scale_y.is_finite()
    &&& size(real_of(p.scale_x)) <= c && size(real_of(p.scale_y)) <= c
    &&& p.ref_x.is_finite() && p.ref_y.is_finite()
    &&& size(real_of(p.ref_x)) <= m && size(real_of(p.ref_y)) <= m
    &&& p.turn.cos.is_finite() && p.turn.sin.is_finite()
    &&& size(real_of(p.turn.cos)) <= 1real && size(real_of(p.turn.sin)) <= 1real
    &&& 0 <= p.x1 <= 0x100_0000 && 0 <= p.y1 <= 0x100_0000
    &&& 0 <= offset.0 <= 0x100_0000 && 0 <= offset.1 <= 0x100_0000
    &&& p.x1 as real <= m && p.y1 as real <= m
    &&& offset.0 as real <= m && offset.1 as real <= m
    &&& 8real <= a <= words::most()
    &&& words::least() <= c
    &&& 12real * a * c <= m <= words::most()
    &&& 1real <= m
}

/// A pupil stands in its cell: of the 32 pixels of the picture of an eye, four across for each eight
/// cells and four down for each cell of those eight, both moved by four times the logarithms; counted
/// from the other side for the left eye; scaled into the eye's box, turned about the eye's corner, and
/// moved to where the face lies in the frame; but for rounding.
pub proof fn lemma_pupil_place(
    peak: EyePeak,
    ln_x: Single,
    ln_y: Single,
    p: EyePrep,
    left: bool,
    offset: (i32, i32),
    a: real,
    c: real,
    m: real,
)
    requires
        can_be_seen(peak, ln_x, ln_y, p, offset, a, c, m),
    ensures
        ({
            let r = pupil_of(peak, ln_x, ln_y, p, left, offset);
            let across = 4real * (peak.cell as int / 8) as real + 4real * real_of(ln_x);
            let down = 4real * (peak.cell as int % 8) as real + 4real * real_of(ln_y);
            let x = p.x1 as real + real_of(p.scale_x) * (if left {
                32real - across
            } else {
                across
            }) - real_of(p.ref_x);
            let y = p.y1 as real + real_of(p.scale_y) * down - real_of(p.ref_y);
            let (cos, sin) = (real_of(p.turn.cos), real_of(p.turn.sin));
            let col = real_of(p.ref_x) + cos * x - sin * y + offset.0 as real;
            let row = real_of(p.ref_y) + sin * x + cos * y + offset.1 as real;
            &&& r.len() == 4
            &&& r[0] == single::of(single::ONE)
            &&& roughly(r[1], row, 8real * m, 23real)
            &&& roughly(r[2], col, 8real * m, 23real)
            &&& r[3] == peak.conf
        }),
{
    let side = single::of(decimal::N32);
    let (i, j) = (peak.cell as int / 8, peak.cell as int % 8);
    let (x, y) = (along(i, ln_x), along(j, ln_y));
    words::lemma_words();
    lemma_along(i, ln_x, a);
    lemma_along(j, ln_y, a);
    let vx = 4real * i as real + 4real * real_of(ln_x);
    let vy = 4real * j as real + 4real * real_of(ln_y);
    near::lemma_itself(side, 32real);
    near::lemma_looser(side, 32real, 32real, 0real, 32real, 7real);
    near::lemma_less(side, 32real, 32real, x, vx, 8real * a, 7real);
    near::lemma_looser(side - x, 32real - vx, 32real + 8real * a, 9real, 12real * a, 9real);
    near::lemma_looser(x, vx, 8real * a, 7real, 12real * a, 9real);
    near::lemma_looser(y, vy, 8real * a, 7real, 12real * a, 9real);
    let (xx, vxx) = if left {
        (side - x, 32real - vx)
    } else {
        (x, vx)
    };
    lemma_on_face(p.x1 as int, p.scale_x, xx, vxx, a, c, m);
    lemma_on_face(p.y1 as int, p.scale_y, y, vy, a, c, m);
    let fx = Single::from_int(p.x1 as int) + p.scale_x * xx;
    let fy = Single::from_int(p.y1 as int) + p.scale_y * y;
    let wx = p.x1 as real + real_of(p.scale_x) * vxx;
    let wy = p.y1 as real + real_of(p.scale_y) * vy;
    let (rx, ry) = (real_of(p.ref_x), real_of(p.ref_y));
    near::lemma_itself(p.ref_x, m);
    near::lemma_itself(p.ref_y, m);
    near::lemma_looser(p.ref_x, rx, m, 0real, m, 13real);
    near::lemma_looser(p.ref_y, ry, m, 0real, m, 13real);
    near::lemma_less(fx, wx, 2real * m, p.ref_x, rx, m, 13real);
    near::lemma_less(fy, wy, 2real * m, p.ref_y, ry, m, 13real);
    let (cos, sin) = (p.turn.cos, p.turn.sin);
    lemma_turned(p.ref_x, cos, fx - p.ref_x, wx - rx, sin, fy - p.ref_y, wy - ry, offset.0 as int, m);
    lemma_turned(p.ref_y, sin, fx - p.ref_x, wx - rx, cos, fy - p.ref_y, wy - ry, offset.1 as int, m);
}

/// In a level eye, a peak eight cells on moves the pupil by four times the scale along its row, to the
/// other side for the left eye, and leaves its row; one a cell on of the same eight moves it by four
/// times the scale down its column, and leaves its column; but for rounding.
pub proof fn lemma_cells_move_pupil(
    peak: EyePeak,
    next: EyePeak,
    ln_x: Single,
    ln_y: Single,
    p: EyePrep,
    left: bool,
    offset: (i32, i32),
    a: real,
    c: real,
    m: real,
)
    requires
        can_be_seen(peak, ln_x, ln_y, p, offset, a, c, m),
        can_be_seen(next, ln_x, ln_y, p, offset, a, c, m),
        p.turn.cos == single::of(single::ONE),
        p.turn.sin == single::of(0),
    ensures
        ({
            let r = pupil_of(peak, ln_x, ln_y, p, left, offset);
            let s = pupil_of(next, ln_x, ln_y, p, left, offset);
            let (rows, cols) = (real_of(s[1]) - real_of(r[1]), real_of(s[2]) - real_of(r[2]));
            let slack = 400real * near::eps() * m;
            let step = 4real * real_of(p.scale_x);
            &&& next.cell == peak.cell + 8 ==> size(rows) <= slack && size(cols - (if left {
                -step
            } else {
                step
            })) <= slack
            &&& next.cell == peak.cell + 1 && next.cell % 8 != 0 ==> size(cols) <= slack && size(
                rows - 4real * real_of(p.scale_y),
            ) <= slack
        }),
{
    lemma_level_pupil(peak, ln_x, ln_y, p, left, offset, a, c, m);
    lemma_level_pupil(next, ln_x, ln_y, p, left, offset, a, c, m);
    let eps = near::eps();
    assert(200real * eps * m + 200real * eps * m == 400real * eps * m) by (nonlinear_arith);
    let (k, l) = (real_of(p.scale_x), real_of(p.scale_y));
    let (u, v) = (real_of(ln_x), real_of(ln_y));
    let (i, j) = ((peak.cell as int / 8) as real, (peak.cell as int % 8) as real);
    if next.cell == peak.cell + 8 {
        assert((next.cell as int / 8) as real == i + 1real && (next.cell as int % 8) as real == j);
        let (x, y) = (4real * i + 4real * u, 32real - (4real * i + 4real * u));
        assert(4real * (i + 1real) + 4real * u == x + 4real);
        lemma_level(k, x);
        lemma_level(k, y);
    }
    if next.cell == peak.cell + 1 && next.cell % 8 != 0 {
        assert((next.cell as int / 8) as real == i && (next.cell as int % 8) as real == j + 1real);
        let y = 4real * j + 4real * v;
        assert(4real * (j + 1real) + 4real * v == y + 4real);
        lemma_level(l, y);
    }
}

/// A pupil of a level eye.
proof fn lemma_level_pupil(
    peak: EyePeak,
    ln_x: Single,
    ln_y: Single,
    p: EyePrep,
    left: bool,
    offset: (i32, i32),
    a: real,
    c: real,
    m: real,
)
    requires
        can_be_seen(peak, ln_x, ln_y, p, offset, a, c, m),
        p.turn.cos == single::of(single::ONE),
        p.turn.sin == single::of(0),
    ensures
        ({
            let r = pupil_of(peak, ln_x, ln_y, p, left, offset);
            let across = 4real * (peak.cell as int / 8) as real + 4real * real_of(ln_x);
            let down = 4real * (peak.cell as int % 8) as real + 4real * real_of(ln_y);
            let x = if left {
                32real - across
            } else {
                across
            };
            let slack = 200real * near::eps() * m;
            &&& size(real_of(r[2]) - (p.x1 as real + real_of(p.scale_x) * x + offset.0 as real)) <= slack
            &&& size(real_of(r[1]) - (p.y1 as real + real_of(p.scale_y) * down + offset.1 as real)) <= slack
        }),
{
    lemma_pupil_place(peak, ln_x, ln_y, p, left, offset, a, c, m);
    words::lemma_words();
    words::lemma_nothing();
    let eps = near::eps();
    assert(23real * eps * (8real * m) <= 200real * eps * m) by (nonlinear_arith)
        requires
            eps > 0real,
            m >= 1real,
    ;
    let across = 4real * (peak.cell as int / 8) as real + 4real * real_of(ln_x);
    let down = 4real * (peak.cell as int % 8) as real + 4real * real_of(ln_y);
    let x = p.x1 as real + real_of(p.scale_x) * (if left {
        32real - across
    } else {
        across
    }) - real_of(p.ref_x);
    let y = p.y1 as real + real_of(p.scale_y) * down - real_of(p.ref_y);
    assert(1real * x == x && 1real * y == y && 0real * x == 0real && 0real * y == 0real) by (nonlinear_arith);
}

/// A step of four moves a product by four times the factor.
proof fn lemma_level(k: real, x: real)
    ensures
        k * (x + 4real) == k * x + 4real * k,
        k * (x - 4real) == k * x - 4real * k,
{
    assert(k * (x + 4real) == k * x + 4real * k) by (nonlinear_arith);
    assert(k * (x - 4real) == k * x - 4real * k) by (nonlinear_arith);
}

/// A pupil `[open, row, column, confidence]` in the frame, from the logarithms of its odds.
pub fn decode_eye(
    peak: &EyePeak,
    ln_x: Single,
    ln_y: Single,
    p: &EyePrep,
    left: bool,
    offset: (i32, i32),
) -> (r: [Single; 4])
    ensures
        r@ == pupil_of(*peak, ln_x, ln_y, *p, left, offset),
{
    let side: Single = single::of(decimal::N32);
    let eight: Single = single::of(decimal::N8);
    let off_x: Single = side * logit(ln_x, eight);
    let off_y: Single = side * logit(ln_y, eight);
    let x: Single = side * single::from_u64((peak.cell / 8) as u64) / eight + off_x;
    let y: Single = side * single::from_u64((peak.cell % 8) as u64) / eight + off_y;
    let fx: Single = single::from_i64(p.x1 as i64) + p.scale_x * (if left {
        side - x
    } else {
        x
    });
    let fy: Single = single::from_i64(p.y1 as i64) + p.scale_y * y;
    let (ax, ay) = rotate((p.ref_x, p.ref_y), (fx, fy), p.turn.cos, p.turn.sin);
    let ex: Single = ax + single::from_i64(offset.0 as i64);
    let ey: Single = ay + single::from_i64(offset.1 as i64);
    let z: Single = single::of(0);
    let one: Single = single::of(single::ONE);
    let r: [Single; 4] = if ey.is_nan() || ex.is_nan() || peak.conf.is_nan() {
        [one, z, z, z]
    } else {
        [one, ey, ex, peak.conf]
    };
    proof {
        assert(r@ =~= pupil_of(*peak, ln_x, ln_y, *p, left, offset));
    }
    r
}

/// Whether pupils are looked for: not where they are not wanted, nor without the landmarks of
/// both eyes.
pub fn wants_gaze(no_gaze: bool, landmarks: usize) -> (r: bool)
    ensures
        r == (!no_gaze && landmarks >= 46),
{
    !no_gaze && landmarks >= 46
}

} // verus!
