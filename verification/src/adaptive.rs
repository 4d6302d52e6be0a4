//! Where to look for a face and how finely, by how large it is.
//!
//! The networks have fixed inputs, so a small face is looked for in a window that
//! fills the detector's input, and a large one is measured by a smaller network.

use crate::ieee::maths;
use crate::ieee::facts;
use crate::ieee::single;
use crate::ieee::single::Single;
use vstd::prelude::*;

verus! {

/// The word of the edge of the detector's input.
pub const DET_INPUT: u32 = 0x4360_0000;

/// The small landmark network.
pub const FAST_LM: i32 = -2;

/// The words of the default settings.
pub const T_FAST: u32 = 0x4348_0000;
pub const HYST: u32 = 0x41c0_0000;
pub const EMA: u32 = 0x3ecc_cccd;
pub const TARGET: u32 = 0x3ed7_0a3d;
pub const ZOOM_BELOW: u32 = 0x4210_0000;

/// The words of the other numbers.
pub const HALF: u32 = 0x3f00_0000;
pub const EIGHT: u32 = 0x4100_0000;
pub const TARGET_MIN: u32 = 0x3d4c_cccd;
pub const NEAR: u32 = 0x3a83_126f;

/// How the window and the network are chosen.
#[derive(Clone, Copy, Debug)]
pub struct AdaptiveCfg {
    /// The network for small faces.
    pub ceiling: i32,
    /// The face height about which the networks change over.
    pub t_fast_px: Single,
    /// How far past that height they do.
    pub hyst_px: Single,
    /// How much of a new height is taken.
    pub ema_alpha: Single,
    /// How much of the window a face is to fill.
    pub det_target_frac: Single,
    /// Below which height on the detector's input a window is used.
    pub det_zoom_below: Single,
}

impl Default for AdaptiveCfg {
    fn default() -> (r: Self)
        ensures
            r == (AdaptiveCfg {
                ceiling: 3,
                t_fast_px: single::of(T_FAST),
                hyst_px: single::of(HYST),
                ema_alpha: single::of(EMA),
                det_target_frac: single::of(TARGET),
                det_zoom_below: single::of(ZOOM_BELOW),
            }),
    {
        AdaptiveCfg {
            ceiling: 3,
            t_fast_px: single::of(T_FAST),
            hyst_px: single::of(HYST),
            ema_alpha: single::of(EMA),
            det_target_frac: single::of(TARGET),
            det_zoom_below: single::of(ZOOM_BELOW),
        }
    }
}

impl AdaptiveCfg {
    /// The same settings with another network for small faces.
    pub fn with_ceiling(self, ceiling: i32) -> (r: Self)
        ensures
            r == (AdaptiveCfg { ceiling, ..self }),
    {
        AdaptiveCfg { ceiling, ..self }
    }

    pub open spec fn fast_rung_spec(self) -> Option<i32> {
        if self.ceiling >= 0 {
            Some(FAST_LM)
        } else {
            None
        }
    }

    /// The network for large faces, where there is a choice.
    #[verifier::when_used_as_spec(fast_rung_spec)]
    pub fn fast_rung(self) -> (r: Option<i32>)
        ensures
            r == self.fast_rung_spec(),
    {
        if self.ceiling >= 0 {
            Some(FAST_LM)
        } else {
            None
        }
    }
}

/// The smoothed face height, and the network in use.
#[derive(Clone, Copy, Debug)]
pub struct AdaptiveState {
    pub ema_h: Single,
    pub lm_type: i32,
}

impl AdaptiveState {
    /// No height yet, and the network for small faces.
    pub fn new(cfg: AdaptiveCfg) -> (r: Self)
        ensures
            r == (AdaptiveState { ema_h: single::of(0), lm_type: cfg.ceiling }),
    {
        AdaptiveState { ema_h: single::of(0), lm_type: cfg.ceiling }
    }
}

/// What part of a frame the detector sees.
#[derive(Clone, Copy, Debug, PartialEq, Eq, Structural)]
pub enum DetWindow {
    Full,
    Roi { x1: i32, y1: i32, x2: i32, y2: i32 },
}

impl DetWindow {
    /// A box found in the window, in the frame.
    pub open spec fn moved(self, d: Seq<Single>) -> Seq<Single> {
        match self {
            DetWindow::Full => d,
            DetWindow::Roi { x1, y1, .. } => d.update(0, d[0] + Single::from_int(x1 as int)).update(
                1,
                d[1] + Single::from_int(y1 as int),
            ),
        }
    }

    /// Moves boxes that were found in the window to where they are in the frame.
    pub fn apply_offset(self, dets: &mut [[Single; 5]])
        ensures
            final(dets)@.len() == old(dets)@.len(),
            forall|i: int|
                0 <= i < old(dets)@.len() ==> #[trigger] final(dets)@[i]@ == self.moved(
                    old(dets)@[i]@,
                ),
    {
        match self {
            DetWindow::Full => {},
            DetWindow::Roi { x1, y1, .. } => {
                let ox: Single = single::from_i64(x1 as i64);
                let oy: Single = single::from_i64(y1 as i64);
                let n: usize = dets.len();
                let mut i: usize = 0;
                while i < n
                    invariant
                        i <= n == dets@.len() == old(dets)@.len(),
                        self == (DetWindow::Roi { x1, y1, x2: self->x2, y2: self->y2 }),
                        ox == Single::from_int(x1 as int),
                        oy == Single::from_int(y1 as int),
                        forall|k: int|
                            0 <= k < i ==> #[trigger] dets@[k]@ == self.moved(old(dets)@[k]@),
                        forall|k: int| i <= k < n ==> #[trigger] dets@[k] == old(dets)@[k],
                    decreases n - i,
                {
                    let d: [Single; 5] = dets[i];
                    let m: [Single; 5] = [d[0] + ox, d[1] + oy, d[2], d[3], d[4]];
                    assert(m@ =~= self.moved(d@));
                    dets[i] = m;
                    i = i + 1;
                }
            },
        }
    }
}

pub open spec fn face_on_224_spec(face_h: Single, frame_h: u32) -> Single {
    face_h * single::of(DET_INPUT) / Single::from_int(
        if frame_h < 1 {
            1
        } else {
            frame_h as int
        },
    )
}

/// How high a face comes out on the detector's input.
#[verifier::when_used_as_spec(face_on_224_spec)]
pub fn face_on_224(face_h: Single, frame_h: u32) -> (r: Single)
    ensures
        r == face_on_224_spec(face_h, frame_h),
{
    let h: u32 = if frame_h < 1 { 1 } else { frame_h };
    face_h * single::of(DET_INPUT) / single::from_u64(h as u64)
}

/// The window about a face `[x, y, w, h, ..]`: a square that the face fills by
/// `target_frac`, moved into the frame. The whole frame where the square is under
/// eight pixels or covers all of it.
pub open spec fn window_about(frame_w: u32, frame_h: u32, b: Seq<Single>, target_frac: Single)
    -> DetWindow {
    let zero = single::of(0);
    let half = single::of(HALF);
    let eight = single::of(EIGHT);
    let fw = Single::from_int(frame_w as int);
    let fh = Single::from_int(frame_h as int);
    let cx = b[0] + b[2] * half;
    let cy = b[1] + b[3] * half;
    let side = (b[3].max(single::of(single::ONE)) / target_frac.max(single::of(TARGET_MIN))).max(
        eight,
    ).min(fw.max(fh));
    let x0 = cx - side * half;
    let y0 = cy - side * half;
    let x1 = (if (x0 + side).gt(fw) {
        fw - side
    } else {
        x0
    }).max(zero);
    let y1 = (if (y0 + side).gt(fh) {
        fh - side
    } else {
        y0
    }).max(zero);
    let x2 = (x1 + side).min(fw);
    let y2 = (y1 + side).min(fh);
    if (x2 - x1).lt(eight) || (y2 - y1).lt(eight) || (x1.le(half) && y1.le(half) && x2.ge(
        fw - half,
    ) && y2.ge(fh - half)) {
        DetWindow::Full
    } else {
        DetWindow::Roi {
            x1: x1.round().to_int(i32::MIN as int, i32::MAX as int) as i32,
            y1: y1.round().to_int(i32::MIN as int, i32::MAX as int) as i32,
            x2: x2.round().to_int(i32::MIN as int, i32::MAX as int) as i32,
            y2: y2.round().to_int(i32::MIN as int, i32::MAX as int) as i32,
        }
    }
}

fn roi_around_face(frame_w: u32, frame_h: u32, b: &[Single; 5], target_frac: Single) -> (r: DetWindow)
    ensures
        r == window_about(frame_w, frame_h, b@, target_frac),
{
    let zero: Single = single::of(0);
    let half: Single = single::of(HALF);
    let eight: Single = single::of(EIGHT);
    let fw: Single = single::from_u64(frame_w as u64);
    let fh: Single = single::from_u64(frame_h as u64);
    let cx: Single = b[0] + b[2] * half;
    let cy: Single = b[1] + b[3] * half;
    let side: Single = (b[3].max(single::of(single::ONE)) / target_frac.max(
        single::of(TARGET_MIN),
    )).max(eight).min(fw.max(fh));
    let mut x1: Single = cx - side * half;
    let mut y1: Single = cy - side * half;
    if (x1 + side).gt(fw) {
        x1 = fw - side;
    }
    if (y1 + side).gt(fh) {
        y1 = fh - side;
    }
    x1 = x1.max(zero);
    y1 = y1.max(zero);
    let x2: Single = (x1 + side).min(fw);
    let y2: Single = (y1 + side).min(fh);
    if (x2 - x1).lt(eight) || (y2 - y1).lt(eight) || (x1.le(half) && y1.le(half) && x2.ge(
        fw - half,
    ) && y2.ge(fh - half)) {
        return DetWindow::Full;
    }
    DetWindow::Roi {
        x1: x1.round().to_i32(),
        y1: y1.round().to_i32(),
        x2: x2.round().to_i32(),
        y2: y2.round().to_i32(),
    }
}

/// What the detector is to see next: a window about the last face where that is
/// small on its input, else the whole frame.
pub fn det_window(
    frame_w: u32,
    frame_h: u32,
    last_box: Option<&[Single; 5]>,
    cfg: &AdaptiveCfg,
) -> (r: DetWindow)
    ensures
        r == (match last_box {
            None => DetWindow::Full,
            Some(b) => if cfg.det_zoom_below.le(single::of(0)) || face_on_224(b[3], frame_h).ge(
                cfg.det_zoom_below,
            ) {
                DetWindow::Full
            } else {
                window_about(frame_w, frame_h, b@, cfg.det_target_frac)
            },
        }),
{
    match last_box {
        None => DetWindow::Full,
        Some(b) => {
            if cfg.det_zoom_below.le(single::of(0)) || face_on_224(b[3], frame_h).ge(
                cfg.det_zoom_below,
            ) {
                DetWindow::Full
            } else {
                roi_around_face(frame_w, frame_h, b, cfg.det_target_frac)
            }
        },
    }
}

/// Where the middle half of an axis begins.
pub open spec fn center_from(n: u32) -> Single {
    let half = single::of(HALF);
    let all = Single::from_int(n as int);
    ((all - (all * half).max(single::of(EIGHT))) * half).round().max(single::of(0))
}

/// Where the middle half of an axis ends.
pub open spec fn center_to(n: u32) -> Single {
    let all = Single::from_int(n as int);
    (center_from(n) + (all * single::of(HALF)).max(single::of(EIGHT))).min(all)
}

fn center_span(n: u32) -> (r: (i32, i32))
    ensures
        r.0 == center_from(n).to_int(i32::MIN as int, i32::MAX as int),
        r.1 == center_to(n).to_int(i32::MIN as int, i32::MAX as int),
{
    let half: Single = single::of(HALF);
    let all: Single = single::from_u64(n as u64);
    let w: Single = (all * half).max(single::of(EIGHT));
    let a: Single = ((all - w) * half).round().max(single::of(0));
    (a.to_i32(), (a + w).min(all).to_i32())
}

/// The middle of a frame, half as wide and high.
pub fn center_2x(frame_w: u32, frame_h: u32) -> (r: DetWindow)
    ensures
        r == (DetWindow::Roi {
            x1: center_from(frame_w).to_int(i32::MIN as int, i32::MAX as int) as i32,
            y1: center_from(frame_h).to_int(i32::MIN as int, i32::MAX as int) as i32,
            x2: center_to(frame_w).to_int(i32::MIN as int, i32::MAX as int) as i32,
            y2: center_to(frame_h).to_int(i32::MIN as int, i32::MAX as int) as i32,
        }),
{
    let (x1, x2) = center_span(frame_w);
    let (y1, y2) = center_span(frame_h);
    DetWindow::Roi { x1, y1, x2, y2 }
}

/// The state after a face of height `face_h`.
pub open spec fn picked(state: AdaptiveState, face_h: Single, cfg: AdaptiveCfg) -> AdaptiveState {
    let ema_h = if state.ema_h.le(single::of(0)) {
        face_h
    } else {
        (single::of(single::ONE) - cfg.ema_alpha) * state.ema_h + cfg.ema_alpha * face_h
    };
    let lm_type = match cfg.fast_rung() {
        None => cfg.ceiling,
        Some(fast) => if state.lm_type == fast {
            if ema_h.lt(cfg.t_fast_px - cfg.hyst_px) {
                cfg.ceiling
            } else {
                fast
            }
        } else if ema_h.gt(cfg.t_fast_px + cfg.hyst_px) {
            fast
        } else {
            state.lm_type
        },
    };
    AdaptiveState { ema_h, lm_type }
}

/// Takes in the height of a face and picks the network for it.
pub fn pick_lm(state: &mut AdaptiveState, face_h: Single, cfg: &AdaptiveCfg) -> (r: i32)
    ensures
        *final(state) == picked(*old(state), face_h, *cfg),
        r == final(state).lm_type,
{
    if state.ema_h.le(single::of(0)) {
        state.ema_h = face_h;
    } else {
        state.ema_h = (single::of(single::ONE) - cfg.ema_alpha) * state.ema_h + cfg.ema_alpha
            * face_h;
    }
    match cfg.fast_rung() {
        None => {
            state.lm_type = cfg.ceiling;
        },
        Some(fast) => {
            if state.lm_type == fast {
                if state.ema_h.lt(cfg.t_fast_px - cfg.hyst_px) {
                    state.lm_type = cfg.ceiling;
                }
            } else if state.ema_h.gt(cfg.t_fast_px + cfg.hyst_px) {
                state.lm_type = fast;
            }
        },
    }
    state.lm_type
}

/// A window about a face lies on the frame.
pub proof fn lemma_window_on_frame(frame_w: u32, frame_h: u32, b: Seq<Single>, target_frac: Single)
    requires
        frame_w <= 0x100_0000,
        frame_h <= 0x100_0000,
    ensures
        window_about(frame_w, frame_h, b, target_frac) matches DetWindow::Roi { x1, y1, x2, y2 } ==> {
            &&& 0 <= x1
            &&& 0 <= y1
            &&& x2 <= frame_w
            &&& y2 <= frame_h
        },
{
    let (lo, hi) = (i32::MIN as int, i32::MAX as int);
    facts::lemma_single_from_int(frame_w as int);
    facts::lemma_single_from_int(frame_h as int);
    assert forall|x: Single| 0 <= (#[trigger] x.max(single::of(0))).round().to_int(lo, hi) <= hi by {
        facts::lemma_round_nonneg(x.max(single::of(0)));
        facts::lemma_single_int_nonneg(x.max(single::of(0)).round(), lo, hi);
    }
    assert forall|x: Single, n: int|
        0 <= n <= 0x100_0000 implies lo <= (#[trigger] x.min(Single::from_int(n))).round().to_int(lo, hi)
        <= n by {
        facts::lemma_single_from_int(n);
        facts::lemma_round_bound(x.min(Single::from_int(n)), n, lo, hi);
    }
}

/// Within the band about the threshold the network in use stays in use.
pub proof fn lemma_hysteresis(state: AdaptiveState, face_h: Single, cfg: AdaptiveCfg)
    requires
        cfg.ceiling >= 0,
        ({
            let h = picked(state, face_h, cfg).ema_h;
            !h.lt(cfg.t_fast_px - cfg.hyst_px) && !h.gt(cfg.t_fast_px + cfg.hyst_px)
        }),
    ensures
        picked(state, face_h, cfg).lm_type == state.lm_type,
{
}

/// The network in use is always the one for small faces or the one for large.
pub proof fn lemma_two_rungs(state: AdaptiveState, face_h: Single, cfg: AdaptiveCfg)
    requires
        state.lm_type == cfg.ceiling || state.lm_type == FAST_LM,
    ensures
        picked(state, face_h, cfg).lm_type == cfg.ceiling || picked(state, face_h, cfg).lm_type
            == FAST_LM,
        cfg.ceiling < 0 ==> picked(state, face_h, cfg).lm_type == cfg.ceiling,
{
}

/// How far apart two points `[row, col, ..]` are.
pub open spec fn apart(a: Seq<Single>, b: Seq<Single>) -> Single {
    maths::hypot(a[0] - b[0], a[1] - b[1])
}

/// How far apart the first `n` points of two lists are, added up.
pub open spec fn total_apart(a: Seq<[Single; 3]>, b: Seq<[Single; 3]>, n: int) -> Single
    decreases n,
{
    if n <= 0 {
        single::of(0)
    } else {
        total_apart(a, b, n - 1) + apart(a[n - 1]@, b[n - 1]@)
    }
}

/// The distance between the outer corners of the eyes.
pub open spec fn eye_span(gt: Seq<[Single; 3]>) -> Single {
    maths::hypot(gt[36][1] - gt[45][1], gt[36][0] - gt[45][0])
}

/// The mean distance between two sets of landmarks, in distances between the eyes;
/// none where there are too few points or the eyes coincide.
pub open spec fn error_of(pred: Seq<[Single; 3]>, gt: Seq<[Single; 3]>) -> Option<Single> {
    let n = if pred.len() < gt.len() {
        pred.len() as int
    } else {
        gt.len() as int
    };
    if n < 46 || eye_span(gt).lt(single::of(NEAR)) {
        None
    } else {
        Some(total_apart(pred, gt, n) / Single::from_int(n) / eye_span(gt))
    }
}

/// The mean distance between two sets of landmarks, in distances between the eyes;
/// none where there are too few points or the eyes coincide.
pub fn nme(pred: &[[Single; 3]], gt: &[[Single; 3]]) -> (r: Option<Single>)
    ensures
        r == error_of(pred@, gt@),
{
    let n: usize = if pred.len() < gt.len() { pred.len() } else { gt.len() };
    if n < 46 {
        return None;
    }
    let iod: Single = maths::hypot(gt[36][1] - gt[45][1], gt[36][0] - gt[45][0]);
    if iod.lt(single::of(NEAR)) {
        return None;
    }
    let mut s: Single = single::of(0);
    let mut i: usize = 0;
    while i < n
        invariant
            i <= n,
            n <= pred@.len(),
            n <= gt@.len(),
            s == total_apart(pred@, gt@, i as int),
        decreases n - i,
    {
        s = s + maths::hypot(pred[i][0] - gt[i][0], pred[i][1] - gt[i][1]);
        i = i + 1;
    }
    Some(s / single::from_u64(n as u64) / iod)
}

} // verus!
