//! Measuring the tracker: which frames are scanned, what a frame gave, and what frames sum up to.

use crate::adaptive;
use crate::adaptive::{center_2x, det_window, pick_lm, AdaptiveCfg, AdaptiveState, DetWindow};
use crate::decode;
use crate::decode::{landmark_bbox, mean_conf, TensorF16, EYE_IDX};
use crate::geom;
use crate::ieee::convert;
use crate::ieee::decimal;
use crate::ieee::double;
use crate::ieee::double::Double;
use crate::ieee::maths;
use crate::ieee::single;
use crate::ieee::single::Single;
use crate::metrics;
use crate::metrics::{cosine, max_abs, mean_abs, Latency};
use crate::preprocess;
use crate::preprocess::{
    crop_box_pad, crop_img, imagenet_nchw, paste_bgr, synth_canvas, BgrImage, ColorNorm,
};
use crate::text;
use vstd::prelude::*;

verus! {

/// Which measurements are asked for.
#[derive(Clone, Copy, PartialEq, Eq, Structural)]
pub struct Suite {
    /// Single networks.
    pub micro: bool,
    /// Sequences of frames.
    pub realistic: bool,
    /// Faces of several sizes, and nothing else.
    pub scale: bool,
}

/// The measurements that a name asks for.
pub fn suite_named(name: &str) -> (r: Suite)
    ensures
        r.scale == (name@ == "scale"@),
        r.micro == (name@ == "micro"@ || name@ == "all"@),
        r.realistic == (name@ == "realistic"@ || name@ == "all"@),
{
    let v: Vec<char> = text::chars(name);
    let all: bool = text::spells(v.as_slice(), "all");
    Suite {
        micro: text::spells(v.as_slice(), "micro") || all,
        realistic: text::spells(v.as_slice(), "realistic") || all,
        scale: text::spells(v.as_slice(), "scale"),
    }
}

/// What a frame gave, and how long its parts took.
pub struct Row {
    pub detect_ms: Double,
    pub crop_ms: Double,
    pub pre_ms: Double,
    pub lm_ms: Double,
    pub decode_ms: Double,
    pub gaze_ms: Double,
    pub e2e_ms: Double,
    pub scanned: bool,
    pub faces: usize,
    pub det_score: Option<Single>,
    pub lm_conf: Option<Single>,
    pub eye_conf: Option<Single>,
    pub gaze_conf: Option<Single>,
    pub crop_w: u32,
    pub crop_h: u32,
    pub box5: Option<[Single; 5]>,
    pub pts: Vec<[Single; 3]>,
}

/// How long the parts of a frame with a face took, in milliseconds.
#[derive(Clone, Copy)]
pub struct Times {
    pub detect_ms: Double,
    pub crop_ms: Double,
    pub pre_ms: Double,
    pub lm_ms: Double,
    pub decode_ms: Double,
    pub gaze_ms: Double,
    pub e2e_ms: Double,
}

/// The box of a face for the next frame: the one about its landmarks, or the one that it was found
/// in where it has none, with how sure it is.
pub open spec fn next_box(pts: Seq<[Single; 3]>, d: [Single; 5], conf: Single) -> Seq<Single> {
    let h = decode::hull(decode::points(pts));
    let one = single::of(single::ONE);
    if pts.len() == 0 {
        d@.update(4, conf)
    } else {
        seq![h[2], h[0], (h[3] - h[2]).max(one), (h[1] - h[0]).max(one), conf]
    }
}

impl Row {
    /// A frame without a face.
    pub fn miss(detect_ms: Double, e2e_ms: Double, scanned: bool, det_score: Option<Single>) -> (r: Row)
        ensures
            ({
                let z = double::of(0);
                r == (Row {
                    detect_ms,
                    crop_ms: z,
                    pre_ms: z,
                    lm_ms: z,
                    decode_ms: z,
                    gaze_ms: z,
                    e2e_ms,
                    scanned,
                    faces: 0,
                    det_score,
                    lm_conf: None,
                    eye_conf: None,
                    gaze_conf: None,
                    crop_w: 0,
                    crop_h: 0,
                    box5: None,
                    pts: r.pts,
                })
            }),
            r.pts@.len() == 0,
    {
        let z: Double = double::of(0);
        Row {
            detect_ms,
            crop_ms: z,
            pre_ms: z,
            lm_ms: z,
            decode_ms: z,
            gaze_ms: z,
            e2e_ms,
            scanned,
            faces: 0,
            det_score,
            lm_conf: None,
            eye_conf: None,
            gaze_conf: None,
            crop_w: 0,
            crop_h: 0,
            box5: None,
            pts: Vec::new(),
        }
    }

    /// A frame with a face that was found in box `d`.
    pub fn hit(
        t: Times,
        scanned: bool,
        det_score: Option<Single>,
        conf: Single,
        pts: Vec<[Single; 3]>,
        d: [Single; 5],
        gaze_conf: Option<Single>,
        crop_w: u32,
        crop_h: u32,
    ) -> (r: Row)
        ensures
            r == (Row {
                detect_ms: t.detect_ms,
                crop_ms: t.crop_ms,
                pre_ms: t.pre_ms,
                lm_ms: t.lm_ms,
                decode_ms: t.decode_ms,
                gaze_ms: t.gaze_ms,
                e2e_ms: t.e2e_ms,
                scanned,
                faces: 1,
                det_score: if det_score is Some {
                    det_score
                } else {
                    Some(conf)
                },
                lm_conf: Some(conf),
                eye_conf: r.eye_conf,
                gaze_conf,
                crop_w,
                crop_h,
                box5: r.box5,
                pts,
            }),
            r.box5 is Some,
            r.box5->0@ == next_box(pts@, d, conf),
            ({
                let v = decode::named_confs(pts@, EYE_IDX@);
                &&& r.eye_conf is None <==> v.len() == 0
                &&& r.eye_conf is Some ==> r.eye_conf->0 == maths::sum_of(v) / Single::from_int(
                    v.len() as int,
                )
            }),
    {
        let mut next: [Single; 5] = match landmark_bbox(pts.as_slice()) {
            Some(b) => b,
            None => d,
        };
        next[4] = conf;
        assert(next@ =~= next_box(pts@, d, conf));
        let eye_conf: Option<Single> = mean_conf(pts.as_slice(), EYE_IDX.as_slice());
        Row {
            detect_ms: t.detect_ms,
            crop_ms: t.crop_ms,
            pre_ms: t.pre_ms,
            lm_ms: t.lm_ms,
            decode_ms: t.decode_ms,
            gaze_ms: t.gaze_ms,
            e2e_ms: t.e2e_ms,
            scanned,
            faces: 1,
            det_score: match det_score {
                Some(s) => Some(s),
                None => Some(conf),
            },
            lm_conf: Some(conf),
            eye_conf,
            gaze_conf,
            crop_w,
            crop_h,
            box5: Some(next),
            pts,
        }
    }
}

/// Whether a frame is scanned: there is no face to follow, or it is its turn.
pub fn scan_due(has_box: bool, i: u32, scan_every: u32) -> (r: bool)
    requires
        scan_every >= 1,
    ensures
        r == (!has_box || i % scan_every == 0),
{
    !has_box || i % scan_every == 0
}

/// The part of a frame that is scanned first.
pub fn first_window(width: u32, height: u32, last: Option<[Single; 5]>, cfg: Option<AdaptiveCfg>) -> (r:
    DetWindow)
    ensures
        r == (match (cfg, last) {
            (Some(c), Some(b)) => if c.det_zoom_below.le(single::of(0)) || adaptive::face_on_224(
                b[3],
                height,
            ).ge(c.det_zoom_below) {
                DetWindow::Full
            } else {
                adaptive::window_about(width, height, b@, c.det_target_frac)
            },
            _ => DetWindow::Full,
        }),
{
    match cfg {
        Some(c) => match last {
            Some(b) => det_window(width, height, Some(&b), &c),
            None => det_window(width, height, None, &c),
        },
        None => DetWindow::Full,
    }
}

/// The part of a frame that is scanned once more where the first scan found nothing and there was no
/// face to follow: its middle.
pub fn second_window(found: usize, adaptive: bool, had_box: bool, width: u32, height: u32) -> (r: Option<
    DetWindow,
>)
    ensures
        r is Some <==> found == 0 && adaptive && !had_box,
        r is Some ==> r->0 == (DetWindow::Roi {
            x1: adaptive::center_from(width).to_int(i32::MIN as int, i32::MAX as int) as i32,
            y1: adaptive::center_from(height).to_int(i32::MIN as int, i32::MAX as int) as i32,
            x2: adaptive::center_to(width).to_int(i32::MIN as int, i32::MAX as int) as i32,
            y2: adaptive::center_to(height).to_int(i32::MIN as int, i32::MAX as int) as i32,
        }),
{
    if found == 0 && adaptive && !had_box {
        Some(center_2x(width, height))
    } else {
        None
    }
}

/// The picture that is scanned: a part of the frame, or none where that is the whole frame or too
/// small.
pub fn window_view(frame: &BgrImage, window: DetWindow) -> (r: Option<BgrImage>)
    requires
        frame.wf(),
    ensures
        match window {
            DetWindow::Full => r is None,
            DetWindow::Roi { x1, y1, x2, y2 } => {
                let w = preprocess::extent(x1 as int, x2 as int, frame.width as int);
                let h = preprocess::extent(y1 as int, y2 as int, frame.height as int);
                &&& r is Some <==> w >= 8 && h >= 8
                &&& r is Some ==> {
                    &&& r->0.wf()
                    &&& r->0.width == w
                    &&& r->0.height == h
                    &&& r->0.data@ == preprocess::rows_of(
                        frame.data@,
                        frame.width as int,
                        preprocess::at_least_zero(x1 as int),
                        w,
                        preprocess::at_least_zero(y1 as int),
                        preprocess::at_least_zero(y1 as int) + h,
                    )
                }
            },
        },
{
    match window {
        DetWindow::Full => None,
        DetWindow::Roi { x1, y1, x2, y2 } => {
            let crop: BgrImage = crop_img(frame, x1, y1, x2, y2);
            if crop.width < 8 || crop.height < 8 {
                None
            } else {
                Some(crop)
            }
        },
    }
}

/// A box in a window that was stretched to the size of the frame, as a box in the frame.
pub open spec fn unstretched(d: Seq<Single>, x1: int, y1: int, rw: int, rh: int, fw: u32, fh: u32) -> Seq<
    Single,
> {
    let (w, h) = (Single::from_int(rw), Single::from_int(rh));
    let (sw, sh) = (Single::from_int(fw as int), Single::from_int(fh as int));
    seq![
        Single::from_int(x1) + d[0] * w / sw,
        Single::from_int(y1) + d[1] * h / sh,
        d[2] * (w / sw),
        d[3] * (h / sh),
        d[4],
    ]
}

/// How wide a window is, at least one.
pub open spec fn side(a: i32, b: i32) -> int {
    if b - a < 1 {
        1
    } else {
        b - a
    }
}

/// Moves boxes that were found in a window stretched to the size of the frame to where they are in
/// the frame.
pub fn remap_stretched_roi(dets: &mut Vec<[Single; 5]>, window: DetWindow, fw: u32, fh: u32)
    ensures
        final(dets)@.len() == old(dets)@.len(),
        match window {
            DetWindow::Full => final(dets)@ == old(dets)@,
            DetWindow::Roi { x1, y1, x2, y2 } => forall|i: int|
                0 <= i < old(dets)@.len() ==> (#[trigger] final(dets)@[i])@ == unstretched(
                    old(dets)@[i]@,
                    x1 as int,
                    y1 as int,
                    side(x1, x2),
                    side(y1, y2),
                    fw,
                    fh,
                ),
        },
{
    match window {
        DetWindow::Full => {},
        DetWindow::Roi { x1, y1, x2, y2 } => {
            let dx: i64 = x2 as i64 - x1 as i64;
            let dy: i64 = y2 as i64 - y1 as i64;
            let w: Single = single::from_i64(
                if dx < 1 {
                    1
                } else {
                    dx
                },
            );
            let h: Single = single::from_i64(
                if dy < 1 {
                    1
                } else {
                    dy
                },
            );
            let sw: Single = single::from_u64(fw as u64);
            let sh: Single = single::from_u64(fh as u64);
            let ghost before = dets@;
            let mut i: usize = 0;
            while i < dets.len()
                invariant
                    i <= dets@.len(),
                    dets@.len() == before.len(),
                    w == Single::from_int(side(x1, x2)),
                    h == Single::from_int(side(y1, y2)),
                    sw == Single::from_int(fw as int),
                    sh == Single::from_int(fh as int),
                    forall|k: int| i <= k < before.len() ==> #[trigger] dets@[k] == before[k],
                    forall|k: int|
                        0 <= k < i ==> (#[trigger] dets@[k])@ == unstretched(
                            before[k]@,
                            x1 as int,
                            y1 as int,
                            side(x1, x2),
                            side(y1, y2),
                            fw,
                            fh,
                        ),
                decreases dets@.len() - i,
            {
                let d: [Single; 5] = dets[i];
                let n: [Single; 5] = [
                    single::from_i64(x1 as i64) + d[0] * w / sw,
                    single::from_i64(y1 as i64) + d[1] * h / sh,
                    d[2] * (w / sw),
                    d[3] * (h / sh),
                    d[4],
                ];
                assert(n@ =~= unstretched(
                    before[i as int]@,
                    x1 as int,
                    y1 as int,
                    side(x1, x2),
                    side(y1, y2),
                    fw,
                    fh,
                ));
                dets.set(i, n);
                i = i + 1;
            }
        },
    }
}

/// The network that finds the landmarks of a face of the given height, and what is remembered of its
/// height. Without a plan, and on a device, it is always the given one.
pub fn landmark_type(
    own: i32,
    on_gpu: bool,
    plan: Option<(AdaptiveCfg, AdaptiveState)>,
    face_h: Single,
) -> (r: (i32, Option<AdaptiveState>))
    ensures
        match plan {
            None => r == (own, None::<AdaptiveState>),
            Some((c, s)) => if on_gpu {
                r == (own, Some(s))
            } else {
                let next = adaptive::picked(s, face_h, c);
                r == (next.lm_type, Some(next))
            },
        },
{
    match plan {
        None => (own, None),
        Some((c, s)) => {
            if on_gpu {
                (own, Some(s))
            } else {
                let mut state: AdaptiveState = s;
                let t: i32 = pick_lm(&mut state, face_h, &c);
                (t, Some(state))
            }
        },
    }
}

/// Whether the small network of two is the one that is asked for.
pub fn takes_fast(model_type: i32, fast_type: i32, has_fast: bool) -> (r: bool)
    ensures
        r == (model_type == fast_type && has_fast),
{
    model_type == fast_type && has_fast
}

/// A part of a frame with a face in it.
#[derive(Clone, Copy)]
pub struct FacePart {
    pub x1: i32,
    pub y1: i32,
    pub x2: i32,
    pub y2: i32,
    pub crop: [Single; 4],
}

/// The part of a frame about a box; none where fewer than four rows or columns are left of it.
pub fn face_part(frame: &BgrImage, d: &[Single; 5], pad_x: Single, pad_y: Single, size: u32) -> (r: Option<
    FacePart,
>)
    requires
        0 < frame.width <= geom::SIDE_MAX,
        0 < frame.height <= geom::SIDE_MAX,
    ensures
        ({
            let (w, h) = (frame.width as int, frame.height as int);
            let dx = preprocess::whole_pad(d[2], pad_x);
            let dy = preprocess::whole_pad(d[3], pad_y);
            let x1 = preprocess::on_axis(d[0] - dx, w);
            let y1 = preprocess::on_axis(d[1] - dy, h) + 1;
            let x2 = preprocess::on_axis(d[0] + d[2] + dx, w);
            let y2 = preprocess::on_axis(d[1] + d[3] + dy, h) + 1;
            match r {
                None => x2 - x1 < 4 || y2 - y1 < 4,
                Some(p) => {
                    &&& x2 - x1 >= 4 && y2 - y1 >= 4
                    &&& (p.x1 as int, p.y1 as int, p.x2 as int, p.y2 as int) == (x1, y1, x2, y2)
                    &&& p.crop@ == seq![
                        Single::from_int(x1),
                        Single::from_int(y1),
                        Single::from_int(x2 - x1) / Single::from_int(size as int),
                        Single::from_int(y2 - y1) / Single::from_int(size as int),
                    ]
                },
            }
        }),
{
    let (x1, y1, x2, y2): (i32, i32, i32, i32) = crop_box_pad(frame, d, pad_x, pad_y);
    if x2 - x1 < 4 || y2 - y1 < 4 {
        return None;
    }
    let s: Single = single::from_u64(size as u64);
    let crop: [Single; 4] = [
        single::from_i64(x1 as i64),
        single::from_i64(y1 as i64),
        single::from_i64((x2 - x1) as i64) / s,
        single::from_i64((y2 - y1) as i64) / s,
    ];
    assert(crop@ =~= seq![
        Single::from_int(x1 as int),
        Single::from_int(y1 as int),
        Single::from_int(x2 - x1) / Single::from_int(size as int),
        Single::from_int(y2 - y1) / Single::from_int(size as int),
    ]);
    Some(FacePart { x1, y1, x2, y2, crop })
}

/// The corners of the part of a frame about the eye between two landmarks.
pub open spec fn eye_corners(a: [Single; 3], b: [Single; 3]) -> (int, int, int, int) {
    let half = single::of(decimal::N0_5);
    let cx = (a[1] + b[1]) * half;
    let cy = (a[0] + b[0]) * half;
    let rad = (maths::hypot(b[1] - a[1], b[0] - a[0]) * half * single::of(decimal::N1_4)).max(
        single::of(decimal::N4),
    );
    let tall = rad * single::of(decimal::N0_86);
    let whole = |v: Single| v.to_int(i32::MIN as int, i32::MAX as int);
    (whole(cx - rad), whole(cy - tall), whole(cx + rad), whole(cy + tall))
}

/// Whether `part` is the picture of an eye, and `data` what the network for eyes takes of it.
pub open spec fn is_eye_input(frame: BgrImage, a: [Single; 3], b: [Single; 3], data: Seq<u16>) -> bool {
    let (x1, y1, x2, y2) = eye_corners(a, b);
    let w = preprocess::extent(x1, x2, frame.width as int);
    let h = preprocess::extent(y1, y2, frame.height as int);
    &&& w >= 4
    &&& h >= 4
    &&& exists|part: BgrImage, norm: ColorNorm|
        #![trigger preprocess::tensor_of(part, 0, 0, w, h, 32, 32, norm)]
        {
            &&& part.width == w
            &&& part.height == h
            &&& part.data@ == preprocess::rows_of(
                frame.data@,
                frame.width as int,
                preprocess::at_least_zero(x1),
                w,
                preprocess::at_least_zero(y1),
                preprocess::at_least_zero(y1) + h,
            )
            &&& norm.is_imagenet()
            &&& data == preprocess::tensor_of(part, 0, 0, w, h, 32, 32, norm)
        }
}

/// Whether the part of a frame about an eye is too small.
pub open spec fn eye_too_small(frame: BgrImage, a: [Single; 3], b: [Single; 3]) -> bool {
    let (x1, y1, x2, y2) = eye_corners(a, b);
    preprocess::extent(x1, x2, frame.width as int) < 4 || preprocess::extent(
        y1,
        y2,
        frame.height as int,
    ) < 4
}

fn eye_input(frame: &BgrImage, a: [Single; 3], b: [Single; 3]) -> (r: Option<Vec<u16>>)
    requires
        frame.wf(),
        frame.width <= preprocess::AXIS_MAX,
        frame.height <= preprocess::AXIS_MAX,
    ensures
        r is None <==> eye_too_small(*frame, a, b),
        r is Some ==> is_eye_input(*frame, a, b, r->0@),
{
    let half: Single = single::of(decimal::N0_5);
    let cx: Single = (a[1] + b[1]) * half;
    let cy: Single = (a[0] + b[0]) * half;
    let rad: Single = (maths::hypot(b[1] - a[1], b[0] - a[0]) * half * single::of(decimal::N1_4)).max(
        single::of(decimal::N4),
    );
    let tall: Single = rad * single::of(decimal::N0_86);
    let part: BgrImage = crop_img(
        frame,
        (cx - rad).to_i32(),
        (cy - tall).to_i32(),
        (cx + rad).to_i32(),
        (cy + tall).to_i32(),
    );
    if part.width < 4 || part.height < 4 {
        return None;
    }
    proof {
        preprocess::lemma_reads_inside(part.width as int, part.height as int, 32, 32);
    }
    let t: TensorF16 = imagenet_nchw(&part, 32);
    proof {
        let (x1, y1, x2, y2) = eye_corners(a, b);
        let w = preprocess::extent(x1, x2, frame.width as int);
        let h = preprocess::extent(y1, y2, frame.height as int);
        let norm = choose|norm: ColorNorm| #[trigger]
            norm.is_imagenet() && t.data@ == preprocess::tensor_of(
                part,
                0,
                0,
                part.width as int,
                part.height as int,
                32,
                32,
                norm,
            );
        assert(t.data@ == preprocess::tensor_of(part, 0, 0, w, h, 32, 32, norm));
    }
    Some(t.data)
}

/// What the network for eyes takes: the pictures of both eyes. None where a picture is too small or
/// landmarks are missing.
pub fn gaze_input(frame: &BgrImage, pts: &[[Single; 3]]) -> (r: Option<TensorF16>)
    requires
        frame.wf(),
        frame.width <= preprocess::AXIS_MAX,
        frame.height <= preprocess::AXIS_MAX,
    ensures
        r is None <==> pts@.len() < 46 || eye_too_small(*frame, pts@[36], pts@[39]) || eye_too_small(
            *frame,
            pts@[42],
            pts@[45],
        ),
        r matches Some(t) ==> {
            &&& t.shape@ == seq![2i64, 3, 32, 32]
            &&& exists|right: Seq<u16>, left: Seq<u16>|
                #![trigger (right + left)]
                is_eye_input(*frame, pts@[36], pts@[39], right) && is_eye_input(
                    *frame,
                    pts@[42],
                    pts@[45],
                    left,
                ) && t.data@ == right + left
        },
{
    if pts.len() < 46 {
        return None;
    }
    let mut right: Vec<u16> = match eye_input(frame, pts[36], pts[39]) {
        Some(v) => v,
        None => {
            return None;
        },
    };
    let mut left: Vec<u16> = match eye_input(frame, pts[42], pts[45]) {
        Some(v) => v,
        None => {
            return None;
        },
    };
    let ghost (a, b) = (right@, left@);
    right.append(&mut left);
    assert(right@ == a + b);
    let mut shape: Vec<i64> = Vec::new();
    shape.push(2);
    shape.push(3);
    shape.push(32);
    shape.push(32);
    assert(shape@ =~= seq![2i64, 3, 32, 32]);
    Some(TensorF16 { shape, data: right })
}

/// The largest of the first `k` numbers, and at least zero.
pub open spec fn largest(data: Seq<u16>, k: int) -> Single
    decreases k,
{
    if k <= 0 {
        single::of(0)
    } else {
        largest(data, k - 1).max(convert::from_half(data[k - 1]))
    }
}

/// How sure the network for eyes is: the largest of its numbers, and at least zero.
pub fn strongest(data: &[u16]) -> (r: Single)
    ensures
        r == largest(data@, data@.len() as int),
{
    let mut r: Single = single::of(0);
    let mut i: usize = 0;
    while i < data.len()
        invariant
            i <= data@.len(),
            r == largest(data@, i as int),
        decreases data@.len() - i,
    {
        r = r.max(convert::from_half(data[i]));
        i = i + 1;
    }
    r
}

/// The values that are there.
pub open spec fn present(v: Seq<Option<Single>>) -> Seq<Single>
    decreases v.len(),
{
    if v.len() == 0 {
        Seq::empty()
    } else {
        match v.last() {
            Some(x) => present(v.drop_last()).push(x),
            None => present(v.drop_last()),
        }
    }
}

/// The mean of numbers; none where there are none.
pub open spec fn mean_of(v: Seq<Single>) -> Option<Single> {
    if v.len() == 0 {
        None
    } else {
        Some(maths::sum_of(v) / Single::from_int(v.len() as int))
    }
}

/// The mean of numbers; none where there are none.
pub fn mean_f32(v: &[Single]) -> (r: Option<Single>)
    ensures
        r == mean_of(v@),
{
    if v.len() == 0 {
        None
    } else {
        Some(maths::sum(v) / single::from_u64(v.len() as u64))
    }
}

/// The mean of the values that are there; none where there are none.
pub fn mean_opt(v: &[Option<Single>]) -> (r: Option<Single>)
    ensures
        r == mean_of(present(v@)),
{
    let mut there: Vec<Single> = Vec::new();
    let mut i: usize = 0;
    assert(v@.take(0) =~= Seq::empty());
    while i < v.len()
        invariant
            i <= v@.len(),
            there@ == present(v@.take(i as int)),
        decreases v@.len() - i,
    {
        proof {
            assert(v@.take(i + 1).drop_last() =~= v@.take(i as int));
            assert(v@.take(i + 1).last() == v@[i as int]);
        }
        if let Some(x) = v[i] {
            there.push(x);
        }
        i = i + 1;
    }
    assert(v@.take(i as int) =~= v@);
    mean_f32(there.as_slice())
}

/// A part of a frame whose time is measured.
#[derive(Clone, Copy, PartialEq, Eq, Structural)]
pub enum Phase {
    Detect,
    Crop,
    Pre,
    Landmarks,
    Decode,
    Gaze,
    All,
}

impl Row {
    /// How long a part of the frame took.
    pub open spec fn ms_spec(self, p: Phase) -> Double {
        match p {
            Phase::Detect => self.detect_ms,
            Phase::Crop => self.crop_ms,
            Phase::Pre => self.pre_ms,
            Phase::Landmarks => self.lm_ms,
            Phase::Decode => self.decode_ms,
            Phase::Gaze => self.gaze_ms,
            Phase::All => self.e2e_ms,
        }
    }

    /// How long a part of the frame took.
    pub fn ms(&self, p: Phase) -> (r: Double)
        ensures
            r == self.ms_spec(p),
    {
        match p {
            Phase::Detect => self.detect_ms,
            Phase::Crop => self.crop_ms,
            Phase::Pre => self.pre_ms,
            Phase::Landmarks => self.lm_ms,
            Phase::Decode => self.decode_ms,
            Phase::Gaze => self.gaze_ms,
            Phase::All => self.e2e_ms,
        }
    }
}

/// Which frames are looked at.
#[derive(Clone, Copy, PartialEq, Eq, Structural)]
pub enum Frames {
    All,
    Scanned,
    Followed,
}

/// Whether a frame is one of those that are looked at.
pub open spec fn counted(r: Row, which: Frames) -> bool {
    match which {
        Frames::All => true,
        Frames::Scanned => r.scanned,
        Frames::Followed => !r.scanned,
    }
}

/// The times of a part in frames.
pub open spec fn times_of(rows: Seq<Row>, p: Phase, which: Frames) -> Seq<Double>
    decreases rows.len(),
{
    if rows.len() == 0 {
        Seq::empty()
    } else {
        let t = times_of(rows.drop_last(), p, which);
        if counted(rows.last(), which) {
            t.push(rows.last().ms_spec(p))
        } else {
            t
        }
    }
}

/// Whether every time of every frame is a number, and 32 bits count the frames.
pub open spec fn timed(rows: Seq<Row>) -> bool {
    &&& rows.len() <= u32::MAX
    &&& forall|i: int, p: Phase| 0 <= i < rows.len() ==> !(#[trigger] rows[i].ms_spec(p)).is_nan()
}

fn times(rows: &[Row], p: Phase, which: Frames) -> (r: Vec<Double>)
    requires
        timed(rows@),
    ensures
        r@ == times_of(rows@, p, which),
        r@.len() <= rows@.len(),
        metrics::numbers(r@),
{
    let mut r: Vec<Double> = Vec::new();
    let mut i: usize = 0;
    assert(rows@.take(0) =~= Seq::empty());
    while i < rows.len()
        invariant
            i <= rows@.len(),
            timed(rows@),
            r@ == times_of(rows@.take(i as int), p, which),
            r@.len() <= i,
            metrics::numbers(r@),
        decreases rows@.len() - i,
    {
        proof {
            assert(rows@.take(i + 1).drop_last() =~= rows@.take(i as int));
            assert(rows@.take(i + 1).last() == rows@[i as int]);
        }
        let take: bool = match which {
            Frames::All => true,
            Frames::Scanned => rows[i].scanned,
            Frames::Followed => !rows[i].scanned,
        };
        if take {
            r.push(rows[i].ms(p));
        }
        i = i + 1;
    }
    assert(rows@.take(i as int) =~= rows@);
    r
}

fn latency(warmup: u32, rows: &[Row], p: Phase, which: Frames) -> (r: Latency)
    requires
        timed(rows@),
    ensures
        r == metrics::figures(warmup, times_of(rows@, p, which)),
{
    let t: Vec<Double> = times(rows, p, which);
    Latency::from_samples(warmup, t.as_slice())
}

/// The middle time of the frames that are looked at; none where there are none.
pub open spec fn middle_of(rows: Seq<Row>, which: Frames) -> Option<Double> {
    let t = times_of(rows, Phase::All, which);
    if t.len() == 0 {
        None
    } else {
        Some(metrics::figures(0, t).p50_ms)
    }
}

fn middle(rows: &[Row], which: Frames) -> (r: Option<Double>)
    requires
        timed(rows@),
    ensures
        r == middle_of(rows@, which),
{
    let t: Vec<Double> = times(rows, Phase::All, which);
    if t.len() == 0 {
        None
    } else {
        Some(Latency::from_samples(0, t.as_slice()).p50_ms)
    }
}

/// A score of a frame.
#[derive(Clone, Copy, PartialEq, Eq, Structural)]
pub enum Score {
    Detection,
    Landmarks,
    Eyes,
    Gaze,
}

/// The scores of frames.
pub open spec fn scores_of(rows: Seq<Row>, s: Score) -> Seq<Option<Single>> {
    Seq::new(
        rows.len(),
        |i: int|
            match s {
                Score::Detection => rows[i].det_score,
                Score::Landmarks => rows[i].lm_conf,
                Score::Eyes => rows[i].eye_conf,
                Score::Gaze => rows[i].gaze_conf,
            },
    )
}

fn mean_score(rows: &[Row], s: Score) -> (r: Option<Single>)
    ensures
        r == mean_of(present(scores_of(rows@, s))),
{
    let mut v: Vec<Option<Single>> = Vec::new();
    let mut i: usize = 0;
    while i < rows.len()
        invariant
            i <= rows@.len(),
            v@.len() == i,
            forall|k: int| 0 <= k < i ==> #[trigger] v@[k] == scores_of(rows@, s)[k],
        decreases rows@.len() - i,
    {
        let x: Option<Single> = match s {
            Score::Detection => rows[i].det_score,
            Score::Landmarks => rows[i].lm_conf,
            Score::Eyes => rows[i].eye_conf,
            Score::Gaze => rows[i].gaze_conf,
        };
        v.push(x);
        i = i + 1;
    }
    assert(v@ =~= scores_of(rows@, s));
    mean_opt(v.as_slice())
}

/// What the frames of a sequence sum up to.
pub struct Figures {
    pub frames: usize,
    pub detect_ms: Latency,
    pub crop_ms: Latency,
    pub pre_ms: Latency,
    pub lm_ms: Latency,
    pub decode_ms: Latency,
    pub gaze_ms: Latency,
    pub e2e_ms: Latency,
    pub scan_p50_ms: Option<Double>,
    pub track_p50_ms: Option<Double>,
    pub crop_w: u32,
    pub crop_h: u32,
    pub faces: usize,
    pub det_score: Option<Single>,
    pub lm_conf: Option<Single>,
    pub eye_conf: Option<Single>,
    pub gaze_conf: Option<Single>,
}

/// What frames sum up to: the times of their parts, those of detection over the frames that were
/// scanned, the mean scores, and the size and count of the last frame.
pub open spec fn figures_of(warmup: u32, rows: Seq<Row>) -> Figures {
    let all = Frames::All;
    Figures {
        frames: rows.len() as usize,
        detect_ms: metrics::figures(warmup, times_of(rows, Phase::Detect, Frames::Scanned)),
        crop_ms: metrics::figures(warmup, times_of(rows, Phase::Crop, all)),
        pre_ms: metrics::figures(warmup, times_of(rows, Phase::Pre, all)),
        lm_ms: metrics::figures(warmup, times_of(rows, Phase::Landmarks, all)),
        decode_ms: metrics::figures(warmup, times_of(rows, Phase::Decode, all)),
        gaze_ms: metrics::figures(warmup, times_of(rows, Phase::Gaze, all)),
        e2e_ms: metrics::figures(warmup, times_of(rows, Phase::All, all)),
        scan_p50_ms: middle_of(rows, Frames::Scanned),
        track_p50_ms: middle_of(rows, Frames::Followed),
        crop_w: if rows.len() > 0 {
            rows.last().crop_w
        } else {
            0
        },
        crop_h: if rows.len() > 0 {
            rows.last().crop_h
        } else {
            0
        },
        faces: if rows.len() > 0 {
            rows.last().faces
        } else {
            0
        },
        det_score: mean_of(present(scores_of(rows, Score::Detection))),
        lm_conf: mean_of(present(scores_of(rows, Score::Landmarks))),
        eye_conf: mean_of(present(scores_of(rows, Score::Eyes))),
        gaze_conf: mean_of(present(scores_of(rows, Score::Gaze))),
    }
}

/// Sums up the frames of a sequence.
pub fn sum_up(warmup: u32, rows: &[Row]) -> (r: Figures)
    requires
        timed(rows@),
    ensures
        r == figures_of(warmup, rows@),
{
    let n: usize = rows.len();
    let (crop_w, crop_h, faces): (u32, u32, usize) = if n > 0 {
        (rows[n - 1].crop_w, rows[n - 1].crop_h, rows[n - 1].faces)
    } else {
        (0, 0, 0)
    };
    Figures {
        frames: n,
        detect_ms: latency(warmup, rows, Phase::Detect, Frames::Scanned),
        crop_ms: latency(warmup, rows, Phase::Crop, Frames::All),
        pre_ms: latency(warmup, rows, Phase::Pre, Frames::All),
        lm_ms: latency(warmup, rows, Phase::Landmarks, Frames::All),
        decode_ms: latency(warmup, rows, Phase::Decode, Frames::All),
        gaze_ms: latency(warmup, rows, Phase::Gaze, Frames::All),
        e2e_ms: latency(warmup, rows, Phase::All, Frames::All),
        scan_p50_ms: middle(rows, Frames::Scanned),
        track_p50_ms: middle(rows, Frames::Followed),
        crop_w,
        crop_h,
        faces,
        det_score: mean_score(rows, Score::Detection),
        lm_conf: mean_score(rows, Score::Landmarks),
        eye_conf: mean_score(rows, Score::Eyes),
        gaze_conf: mean_score(rows, Score::Gaze),
    }
}

/// Every frame was either scanned or followed into.
pub proof fn lemma_scanned_or_followed(rows: Seq<Row>, p: Phase)
    ensures
        times_of(rows, p, Frames::Scanned).len() + times_of(rows, p, Frames::Followed).len() == rows.len(),
        times_of(rows, p, Frames::All).len() == rows.len(),
    decreases rows.len(),
{
    if rows.len() > 0 {
        lemma_scanned_or_followed(rows.drop_last(), p);
    }
}

/// How close numbers are to those they are held against.
#[derive(Clone, Copy, PartialEq, Eq, Structural)]
pub struct Acc {
    pub compared_elems: usize,
    pub max_abs: Single,
    pub mean_abs: Single,
    pub cosine: Single,
}

/// Holds numbers against others, as many as there are of both.
pub fn accuracy(got: &[Single], want: &[Single]) -> (r: Acc)
    ensures
        ({
            let n = metrics::pairs(got@, want@);
            let (a, b) = (got@, want@);
            let (na, nb) = (metrics::inner(a, a, n), metrics::inner(b, b, n));
            &&& r.compared_elems == n
            &&& r.max_abs == metrics::widest(a, b, n)
            &&& r.mean_abs == (if n == 0 {
                single::of(0)
            } else {
                maths::sum_of(metrics::gaps(a, b)) / Single::from_int(n)
            })
            &&& r.cosine == (if na.same(double::of(0)) || nb.same(double::of(0)) {
                single::of(0)
            } else {
                convert::to_single(metrics::inner(a, b, n) / (na.sqrt() * nb.sqrt()))
            })
        }),
{
    let n: usize = if got.len() < want.len() {
        got.len()
    } else {
        want.len()
    };
    Acc {
        compared_elems: n,
        max_abs: max_abs(got, want),
        mean_abs: mean_abs(got, want),
        cosine: cosine(got, want),
    }
}

/// The distances of the first `n` landmarks from where they are held to be.
pub open spec fn misses(pts: Seq<[Single; 3]>, want: Seq<[Single; 2]>, n: int) -> Seq<Single> {
    Seq::new(n as nat, |i: int| maths::hypot(pts[i][0] - want[i][0], pts[i][1] - want[i][1]))
}

/// The mean distance of landmarks from where they are held to be, as many as there are of both.
pub fn landmark_error(pts: &[[Single; 3]], want: &[[Single; 2]]) -> (r: Option<Single>)
    ensures
        r == mean_of(
            misses(
                pts@,
                want@,
                if pts@.len() < want@.len() {
                    pts@.len() as int
                } else {
                    want@.len() as int
                },
            ),
        ),
{
    let n: usize = if pts.len() < want.len() {
        pts.len()
    } else {
        want.len()
    };
    let mut v: Vec<Single> = Vec::new();
    let mut i: usize = 0;
    while i < n
        invariant
            i <= n,
            n <= pts@.len(),
            n <= want@.len(),
            v@.len() == i,
            forall|k: int|
                0 <= k < i ==> #[trigger] v@[k] == maths::hypot(
                    pts@[k][0] - want@[k][0],
                    pts@[k][1] - want@[k][1],
                ),
        decreases n - i,
    {
        v.push(maths::hypot(pts[i][0] - want[i][0], pts[i][1] - want[i][1]));
        i = i + 1;
    }
    assert(v@ =~= misses(pts@, want@, n as int));
    mean_f32(v.as_slice())
}

/// The width of the frames that faces are shown in at several scales.
pub const SCALE_W: u32 = 1280;

/// The height of the frames that faces are shown in at several scales.
pub const SCALE_H: u32 = 720;

/// How many frames a face is shown in at each scale.
pub const SCALE_FRAMES: usize = 8;

/// A length after scaling, at least eight.
pub open spec fn scaled_side(n: u32, scale: Single) -> int {
    let v = (Single::from_int(n as int) * scale).to_int(0, u32::MAX as int);
    if v < 8 {
        8
    } else {
        v
    }
}

/// How much a face of height `face_h` is scaled to fill a share of the height of the frame.
pub open spec fn scale_of(face_h: Single, frac: Single) -> Single {
    let v = (Single::from_int(SCALE_H as int) * frac).to_int(0, u32::MAX as int);
    Single::from_int(
        if v < 8 {
            8
        } else {
            v
        },
    ) / face_h.max(single::of(single::ONE))
}

/// The size of the picture of a face that is to fill a share of the height of the frame.
pub fn scaled_size(width: u32, height: u32, face_h: Single, frac: Single) -> (r: (u32, u32))
    ensures
        r.0 == scaled_side(width, scale_of(face_h, frac)),
        r.1 == scaled_side(height, scale_of(face_h, frac)),
{
    let t: u32 = (single::from_u64(SCALE_H as u64) * frac).to_u32();
    let target: u32 = if t < 8 {
        8
    } else {
        t
    };
    let scale: Single = single::from_u64(target as u64) / face_h.max(single::of(single::ONE));
    let w: u32 = (single::from_u64(width as u64) * scale).to_u32();
    let h: u32 = (single::from_u64(height as u64) * scale).to_u32();
    (
        if w < 8 {
            8
        } else {
            w
        },
        if h < 8 {
            8
        } else {
            h
        },
    )
}

/// The angles whose sine and cosine shake the face in frame `t`.
pub fn shake_angles(t: usize) -> (r: (Single, Single))
    ensures
        r.0 == Single::from_int(t as int) * single::of(decimal::N0_7),
        r.1 == Single::from_int(t as int) * single::of(decimal::N0_5),
{
    let tf: Single = single::from_u64(t as u64);
    (tf * single::of(decimal::N0_7), tf * single::of(decimal::N0_5))
}

/// Half of a number, toward zero.
pub open spec fn half_toward_zero(n: int) -> int {
    if n < 0 {
        -((-n) / 2)
    } else {
        n / 2
    }
}

/// Where the picture of a face starts along an axis: in the middle, and shaken by a share of its
/// size, at least `least`, times `wave`.
pub open spec fn shaken(frame: u32, size: u32, part: u32, least: u32, wave: Single) -> int {
    half_toward_zero(frame - size) + ((single::of(part) * Single::from_int(size as int)).max(
        single::of(least),
    ) * wave).to_int(i32::MIN as int, i32::MAX as int)
}

fn shaken_start(frame: u32, size: u32, part: u32, least: u32, wave: Single) -> (r: i64)
    ensures
        r == shaken(frame, size, part, least, wave),
        -0x2_0000_0000 <= r <= 0x2_0000_0000,
{
    let d: i64 = frame as i64 - size as i64;
    let half: i64 = if d < 0 {
        -((-d) / 2)
    } else {
        d / 2
    };
    let j: i32 = ((single::of(part) * single::from_u64(size as u64)).max(single::of(least)) * wave).to_i32();
    half + j as i64
}

/// Whether a picture at the given place can be seen: its place is within reach.
pub open spec fn in_reach(face: BgrImage, x: int, y: int) -> bool {
    &&& i32::MIN <= x
    &&& x + face.width <= i32::MAX
    &&& i32::MIN <= y
    &&& y + face.height <= i32::MAX
}

/// A frame with the picture of a face about its middle. `sin` and `cos` belong to the angles that
/// `shake_angles` gives.
pub fn scale_frame(face: &BgrImage, sin: Single, cos: Single) -> (r: BgrImage)
    requires
        face.wf(),
    ensures
        r.wf(),
        r.width == SCALE_W,
        r.height == SCALE_H,
        ({
            let x = shaken(SCALE_W, face.width, decimal::N0_035, decimal::N4, sin);
            let y = shaken(SCALE_H, face.height, decimal::N0_025, decimal::N3, cos);
            let canvas = Seq::new((SCALE_W * SCALE_H * 3) as nat, |i: int| (42 + i % 7) as u8);
            if in_reach(*face, x, y) {
                exists|c: BgrImage|
                    c.width == SCALE_W && c.height == SCALE_H && c.data@ == canvas && r.data@
                        == #[trigger] preprocess::pasted(c, *face, x, y)
            } else {
                r.data@ == canvas
            }
        }),
{
    let x: i64 = shaken_start(SCALE_W, face.width, decimal::N0_035, decimal::N4, sin);
    let y: i64 = shaken_start(SCALE_H, face.height, decimal::N0_025, decimal::N3, cos);
    let mut canvas: BgrImage = synth_canvas(SCALE_W, SCALE_H);
    if x >= -0x8000_0000 && x + face.width as i64 <= 0x7fff_ffff && y >= -0x8000_0000 && y
        + face.height as i64 <= 0x7fff_ffff {
        let ghost c = canvas;
        paste_bgr(&mut canvas, face, x as i32, y as i32);
        proof {
            assert(canvas.data@ == preprocess::pasted(c, *face, x as int, y as int));
        }
    }
    canvas
}

/// What a frame is held against.
pub struct TeachFrame {
    pub pts: Vec<[Single; 3]>,
    pub hit: bool,
}

/// What frames give to hold others against.
pub fn rows_to_teacher(rows: &[Row]) -> (r: Vec<TeachFrame>)
    ensures
        r@.len() == rows@.len(),
        forall|i: int|
            0 <= i < rows@.len() ==> (#[trigger] r@[i]).pts@ == rows@[i].pts@ && r@[i].hit == (
            rows@[i].faces > 0),
{
    let mut r: Vec<TeachFrame> = Vec::new();
    let mut i: usize = 0;
    while i < rows.len()
        invariant
            i <= rows@.len(),
            r@.len() == i,
            forall|k: int|
                0 <= k < i ==> (#[trigger] r@[k]).pts@ == rows@[k].pts@ && r@[k].hit == (rows@[k].faces
                    > 0),
        decreases rows@.len() - i,
    {
        r.push(
            TeachFrame {
                pts: crate::tracker::face::copy_points(rows[i].pts.as_slice()),
                hit: rows[i].faces > 0,
            },
        );
        i = i + 1;
    }
    r
}

/// The word of the largest share of the height of the frame that counts as far.
pub const FAR: u32 = 0x3e0f_5c29;

/// How faces of one size were found.
#[derive(Clone, Copy)]
pub struct FracRow {
    pub face_frac: Single,
    pub nme: Option<Single>,
    pub recall: Single,
    pub e2e_p50_ms: Double,
}

/// How faces were found.
#[derive(Clone, Copy)]
pub struct ScaleScore {
    pub nme: Single,
    pub recall: Single,
    pub e2e_p50_ms: Double,
    pub far_nme: Single,
    pub hits: usize,
    pub frames: usize,
}

/// The error of a frame, where both it and what it is held against found a face.
pub open spec fn frame_error(r: Row, t: TeachFrame) -> Option<Single> {
    if r.faces > 0 && t.hit {
        adaptive::error_of(r.pts@, t.pts@)
    } else {
        None
    }
}

/// The errors of the first `n` frames of a sequence.
pub open spec fn errors_of(rs: Seq<Row>, ts: Seq<TeachFrame>, n: int) -> Seq<Single>
    decreases n,
{
    if n <= 0 {
        Seq::empty()
    } else {
        let e = errors_of(rs, ts, n - 1);
        match frame_error(rs[n - 1], ts[n - 1]) {
            Some(v) => e.push(v),
            None => e,
        }
    }
}

/// How many of the first `n` frames have a face.
pub open spec fn hits_of(rs: Seq<Row>, n: int) -> int
    decreases n,
{
    if n <= 0 {
        0
    } else {
        hits_of(rs, n - 1) + if rs[n - 1].faces > 0 {
            1int
        } else {
            0
        }
    }
}

/// How many frames of two sequences are held against each other.
pub open spec fn both<A, B>(a: Seq<A>, b: Seq<B>) -> int {
    if a.len() < b.len() {
        a.len() as int
    } else {
        b.len() as int
    }
}

/// What one sequence of frames gave.
pub struct SeqScore {
    pub errors: Vec<Single>,
    pub times: Vec<Double>,
    pub hits: usize,
    pub frames: usize,
}

impl SeqScore {
    /// Whether this is what the frames of a sequence gave.
    pub open spec fn is_of(self, rs: Seq<Row>, ts: Seq<TeachFrame>) -> bool {
        let n = both(rs, ts);
        &&& self.errors@ == errors_of(rs, ts, n)
        &&& self.times@ == times_of(rs.take(n), Phase::All, Frames::All)
        &&& self.hits == hits_of(rs, n)
        &&& self.frames == n
    }
}

/// Holds the frames of a sequence against others.
pub fn score_seq(rs: &[Row], ts: &[TeachFrame]) -> (r: SeqScore)
    requires
        timed(rs@),
    ensures
        r.is_of(rs@, ts@),
        metrics::numbers(r.times@),
        r.times@.len() == r.frames,
        r.hits <= r.frames <= rs@.len(),
{
    let n: usize = if rs.len() < ts.len() {
        rs.len()
    } else {
        ts.len()
    };
    let mut errors: Vec<Single> = Vec::new();
    let mut times: Vec<Double> = Vec::new();
    let mut hits: usize = 0;
    let mut i: usize = 0;
    assert(rs@.take(0) =~= Seq::empty());
    while i < n
        invariant
            i <= n,
            n <= rs@.len(),
            n <= ts@.len(),
            timed(rs@),
            errors@ == errors_of(rs@, ts@, i as int),
            times@ == times_of(rs@.take(i as int), Phase::All, Frames::All),
            times@.len() == i,
            metrics::numbers(times@),
            hits == hits_of(rs@, i as int),
            hits <= i,
        decreases n - i,
    {
        proof {
            assert(rs@.take(i + 1).drop_last() =~= rs@.take(i as int));
            assert(rs@.take(i + 1).last() == rs@[i as int]);
        }
        times.push(rs[i].ms(Phase::All));
        if rs[i].faces > 0 {
            hits = hits + 1;
            if ts[i].hit {
                if let Some(v) = adaptive::nme(rs[i].pts.as_slice(), ts[i].pts.as_slice()) {
                    errors.push(v);
                }
            }
        }
        i = i + 1;
    }
    SeqScore { errors, times, hits, frames: n }
}

/// What is told of faces of one size.
pub fn frac_row(face_frac: Single, s: &SeqScore, shown: usize) -> (r: FracRow)
    requires
        s.times@.len() <= u32::MAX,
        metrics::numbers(s.times@),
    ensures
        r == (FracRow {
            face_frac,
            nme: mean_of(s.errors@),
            recall: Single::from_int(s.hits as int) / Single::from_int(
                if shown < 1 {
                    1
                } else {
                    shown as int
                },
            ),
            e2e_p50_ms: metrics::figures(0, s.times@).p50_ms,
        }),
{
    let n: u64 = if shown < 1 {
        1
    } else {
        shown as u64
    };
    FracRow {
        face_frac,
        nme: mean_f32(s.errors.as_slice()),
        recall: single::from_u64(s.hits as u64) / single::from_u64(n),
        e2e_p50_ms: Latency::from_samples(0, s.times.as_slice()).p50_ms,
    }
}

/// The errors of the first `n` sequences; with `far` only of those with small faces.
pub open spec fn all_errors(v: Seq<SeqScore>, fracs: Seq<Single>, far: bool, n: int) -> Seq<Single>
    decreases n,
{
    if n <= 0 {
        Seq::empty()
    } else {
        let e = all_errors(v, fracs, far, n - 1);
        if far && !fracs[n - 1].le(single::of(FAR)) {
            e
        } else {
            e + v[n - 1].errors@
        }
    }
}

/// The times of the first `n` sequences.
pub open spec fn all_times(v: Seq<SeqScore>, n: int) -> Seq<Double>
    decreases n,
{
    if n <= 0 {
        Seq::empty()
    } else {
        all_times(v, n - 1) + v[n - 1].times@
    }
}

/// The frames of the first `n` sequences, and those with a face.
pub open spec fn all_counts(v: Seq<SeqScore>, n: int) -> (int, int)
    decreases n,
{
    if n <= 0 {
        (0, 0)
    } else {
        let (f, h) = all_counts(v, n - 1);
        (f + v[n - 1].frames, h + v[n - 1].hits)
    }
}

fn append_singles(r: &mut Vec<Single>, v: &[Single])
    ensures
        final(r)@ == old(r)@ + v@,
{
    let ghost start = r@;
    let mut i: usize = 0;
    assert(v@.take(0) =~= Seq::empty());
    assert(start + v@.take(0) =~= start);
    while i < v.len()
        invariant
            i <= v@.len(),
            r@ == start + v@.take(i as int),
        decreases v@.len() - i,
    {
        r.push(v[i]);
        i = i + 1;
        assert(start + v@.take(i as int) =~= (start + v@.take(i - 1)).push(v@[i - 1]));
    }
    assert(v@.take(i as int) =~= v@);
}

fn append_doubles(r: &mut Vec<Double>, v: &[Double])
    requires
        metrics::numbers(old(r)@),
        metrics::numbers(v@),
    ensures
        final(r)@ == old(r)@ + v@,
        metrics::numbers(final(r)@),
{
    let ghost start = r@;
    let mut i: usize = 0;
    assert(v@.take(0) =~= Seq::empty());
    assert(start + v@.take(0) =~= start);
    while i < v.len()
        invariant
            i <= v@.len(),
            metrics::numbers(r@),
            metrics::numbers(v@),
            r@ == start + v@.take(i as int),
        decreases v@.len() - i,
    {
        r.push(v[i]);
        i = i + 1;
        assert(start + v@.take(i as int) =~= (start + v@.take(i - 1)).push(v@[i - 1]));
    }
    assert(v@.take(i as int) =~= v@);
}

/// What all sequences give together.
pub fn score_all(v: &[SeqScore], fracs: &[Single]) -> (r: ScaleScore)
    requires
        v@.len() <= fracs@.len(),
        all_counts(v@, v@.len() as int).0 <= u32::MAX,
        forall|i: int|
            0 <= i < v@.len() ==> (#[trigger] v@[i]).hits <= v@[i].frames && v@[i].times@.len()
                == v@[i].frames && metrics::numbers(v@[i].times@),
    ensures
        ({
            let n = v@.len() as int;
            let (frames, hits) = all_counts(v@, n);
            let mean = |e: Seq<Single>|
                match mean_of(e) {
                    Some(x) => x,
                    None => single::of(0),
                };
            r == (ScaleScore {
                nme: mean(all_errors(v@, fracs@, false, n)),
                recall: Single::from_int(hits) / Single::from_int(
                    if frames < 1 {
                        1
                    } else {
                        frames
                    },
                ),
                e2e_p50_ms: metrics::figures(0, all_times(v@, n)).p50_ms,
                far_nme: mean(all_errors(v@, fracs@, true, n)),
                hits: hits as usize,
                frames: frames as usize,
            })
        }),
{
    let mut errors: Vec<Single> = Vec::new();
    let mut far: Vec<Single> = Vec::new();
    let mut times: Vec<Double> = Vec::new();
    let mut frames: usize = 0;
    let mut hits: usize = 0;
    let mut i: usize = 0;
    while i < v.len()
        invariant
            i <= v@.len(),
            v@.len() <= fracs@.len(),
            all_counts(v@, v@.len() as int).0 <= u32::MAX,
            forall|k: int|
                0 <= k < v@.len() ==> (#[trigger] v@[k]).hits <= v@[k].frames && v@[k].times@.len()
                    == v@[k].frames && metrics::numbers(v@[k].times@),
            errors@ == all_errors(v@, fracs@, false, i as int),
            far@ == all_errors(v@, fracs@, true, i as int),
            times@ == all_times(v@, i as int),
            times@.len() == frames,
            metrics::numbers(times@),
            (frames as int, hits as int) == all_counts(v@, i as int),
            hits <= frames <= u32::MAX,
        decreases v@.len() - i,
    {
        proof {
            lemma_counts_grow(v@, i + 1);
        }
        append_singles(&mut errors, v[i].errors.as_slice());
        if fracs[i].le(single::of(FAR)) {
            append_singles(&mut far, v[i].errors.as_slice());
        }
        append_doubles(&mut times, v[i].times.as_slice());
        frames = frames + v[i].frames;
        hits = hits + v[i].hits;
        i = i + 1;
    }
    let n: u64 = if frames < 1 {
        1
    } else {
        frames as u64
    };
    let z: Single = single::of(0);
    ScaleScore {
        nme: match mean_f32(errors.as_slice()) {
            Some(x) => x,
            None => z,
        },
        recall: single::from_u64(hits as u64) / single::from_u64(n),
        e2e_p50_ms: Latency::from_samples(0, times.as_slice()).p50_ms,
        far_nme: match mean_f32(far.as_slice()) {
            Some(x) => x,
            None => z,
        },
        hits,
        frames,
    }
}

proof fn lemma_counts_grow(v: Seq<SeqScore>, n: int)
    requires
        0 <= n <= v.len(),
    ensures
        all_counts(v, n).0 <= all_counts(v, v.len() as int).0,
    decreases v.len() - n,
{
    if n < v.len() {
        lemma_counts_grow(v, n + 1);
    }
}

} // verus!
