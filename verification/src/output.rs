//! What the protocols send, worked out once per face and frame.

use crate::ext;
use crate::ext::{cats, winning, ExtState};
use crate::features;
use crate::features::{face_norm_basis, FeatureVec};
use crate::geom::HALF;
use crate::ieee::decimal;
use crate::ieee::single;
use crate::ieee::single::Single;
use crate::udp::FacePacket;
use vstd::prelude::*;

verus! {

/// Mouth and jaw movements that are read off the solid points.
#[derive(Clone, Copy, Debug, PartialEq, Eq, Structural)]
pub struct PsGeom {
    pub upper_l: Single,
    pub upper_r: Single,
    pub lower_l: Single,
    pub lower_r: Single,
    pub jaw_right: Single,
    pub jaw_left: Single,
    pub jaw_forward: Single,
}

/// What is sent for a face.
#[derive(Debug)]
pub struct FaceOutput<'a> {
    pub packet: &'a FacePacket,
    pub mouth: [Single; 6],
    pub look: (Single, Single),
    pub blink: [Single; 2],
    pub brow_ud: Single,
    pub expression: String,
    pub expression_weight: Single,
    pub visemes: [Single; 15],
    pub audio: Single,
    pub ext_mouth: Option<[Single; 6]>,
    pub ps_geom: PsGeom,
}

pub open spec fn lerp_spec(a: Single, b: Single, t: Single) -> Single {
    a + (b - a) * t
}

/// The point `t` of the way from `a` to `b`.
#[verifier::when_used_as_spec(lerp_spec)]
pub fn lerp(a: Single, b: Single, t: Single) -> (r: Single)
    ensures
        r == lerp_spec(a, b, t),
{
    a + (b - a) * t
}

pub open spec fn eye_to_blink_spec(open: Single) -> Single {
    if open.gt(single::of(decimal::N0_55)) {
        single::of(0)
    } else if open.lt(single::of(decimal::N0_2)) {
        single::of(single::ONE)
    } else {
        single::of(single::ONE) - (open - single::of(decimal::N0_2)) / single::of(decimal::N0_35)
    }
}

/// How far an eye is closed, from how far it is open.
#[verifier::when_used_as_spec(eye_to_blink_spec)]
pub fn eye_to_blink(open: Single) -> (r: Single)
    ensures
        r == eye_to_blink_spec(open),
{
    if open.gt(single::of(decimal::N0_55)) {
        single::of(0)
    } else if open.lt(single::of(decimal::N0_2)) {
        single::of(single::ONE)
    } else {
        single::of(single::ONE) - (open - single::of(decimal::N0_2)) / single::of(decimal::N0_35)
    }
}

pub open spec fn ps_pos_spec(d: Single, dead: Single, scale: Single) -> Single {
    if d.gt(dead) {
        ext::unit_range((d - dead) * scale)
    } else {
        single::of(0)
    }
}

/// A shift past a dead zone, as a weight.
#[verifier::when_used_as_spec(ps_pos_spec)]
pub fn ps_pos(d: Single, dead: Single, scale: Single) -> (r: Single)
    ensures
        r == ps_pos_spec(d, dead, scale),
{
    if d.gt(dead) {
        ext::hold((d - dead) * scale)
    } else {
        single::of(0)
    }
}

/// The smoothed moods of mouth and brows, and the expression they spell.
#[derive(Clone, Copy, Debug)]
pub struct SimpleExpr {
    pub last_mouth: Single,
    pub last_brows: Single,
    pub label: &'static str,
}

/// A mood once a new reading has come in.
pub open spec fn mood(last: Single, l: Single, r: Single) -> Single {
    last * single::of(decimal::N0_6) + (l + r) * single::of(HALF) * single::of(decimal::N0_4)
}

/// The expression that the moods of mouth and brows spell.
pub open spec fn expression_of(mouth: Single, brows: Single) -> Seq<char> {
    if mouth.lt(single::of(decimal::M0_2)) {
        "fun"@
    } else if brows.gt(single::of(decimal::N0_2)) {
        "surprise"@
    } else if brows.lt(single::of(decimal::M0_25)) && mouth.gt(single::of(decimal::M0_3)) {
        "angry"@
    } else {
        "neutral"@
    }
}

impl SimpleExpr {
    /// Takes in the features of a frame and gives the expression.
    pub fn update(&mut self, f: &FeatureVec) -> (r: &'static str)
        ensures
            final(self).last_mouth == mood(
                old(self).last_mouth,
                f[features::FEAT_CORNER_UD_L as int],
                f[features::FEAT_CORNER_UD_R as int],
            ),
            final(self).last_brows == mood(
                old(self).last_brows,
                f[features::FEAT_BROW_UD_L as int],
                f[features::FEAT_BROW_UD_R as int],
            ),
            final(self).label@ == r@,
            r@ == expression_of(final(self).last_mouth, final(self).last_brows),
    {
        let mouth: Single = (f[features::FEAT_CORNER_UD_L] + f[features::FEAT_CORNER_UD_R])
            * single::of(HALF);
        let brows: Single = (f[features::FEAT_BROW_UD_L] + f[features::FEAT_BROW_UD_R])
            * single::of(HALF);
        self.last_mouth = self.last_mouth * single::of(decimal::N0_6) + mouth * single::of(
            decimal::N0_4,
        );
        self.last_brows = self.last_brows * single::of(decimal::N0_6) + brows * single::of(
            decimal::N0_4,
        );
        self.label = if self.last_mouth.lt(single::of(decimal::M0_2)) {
            "fun"
        } else if self.last_brows.gt(single::of(decimal::N0_2)) {
            "surprise"
        } else if self.last_brows.lt(single::of(decimal::M0_25)) && self.last_mouth.gt(
            single::of(decimal::M0_3),
        ) {
            "angry"
        } else {
            "neutral"
        };
        self.label
    }
}

/// The visemes that mouth shapes stand for: silence where there is no shape.
pub open spec fn visemes_from(m: Seq<Single>) -> Seq<Single> {
    let tiny = single::of(decimal::N0_001);
    let quiet = m[0].lt(tiny) && m[1].lt(tiny) && m[2].lt(tiny) && m[3].lt(tiny) && m[4].lt(tiny);
    let z = single::of(0);
    seq![
        if quiet {
            single::of(single::ONE)
        } else {
            z
        },
        z,
        z,
        z,
        z,
        z,
        z,
        z,
        z,
        z,
        m[0],
        m[3],
        m[1],
        m[4],
        m[2],
    ]
}

/// The visemes that mouth shapes stand for: silence where there is no shape.
pub fn from_mouth_states(m: &[Single; 6]) -> (r: [Single; 15])
    ensures
        r@ == visemes_from(m@),
{
    let tiny: Single = single::of(decimal::N0_001);
    let quiet: bool = m[0].lt(tiny) && m[1].lt(tiny) && m[2].lt(tiny) && m[3].lt(tiny) && m[4].lt(
        tiny,
    );
    let z: Single = single::of(0);
    let sil: Single = if quiet {
        single::of(single::ONE)
    } else {
        z
    };
    let r: [Single; 15] = [sil, z, z, z, z, z, z, z, z, z, m[0], m[3], m[1], m[4], m[2]];
    proof {
        assert(r@ =~= visemes_from(m@));
    }
    r
}

/// The largest of the first five shapes, and at least zero.
pub open spec fn strongest(s: Seq<Single>, n: int) -> Single
    decreases n,
{
    if n <= 0 {
        single::of(0)
    } else {
        let m = strongest(s, n - 1);
        if s[n - 1].gt(m) {
            s[n - 1]
        } else {
            m
        }
    }
}

/// The sum of the first `n` shapes.
pub open spec fn shape_sum(s: Seq<Single>, n: int) -> Single
    decreases n,
{
    if n <= 0 {
        single::of(0)
    } else {
        shape_sum(s, n - 1) + s[n - 1]
    }
}

/// How far the jaw is open.
pub open spec fn jaw_of(open: Single) -> Single {
    ext::unit_range(open / single::of(decimal::N0_55) - single::of(decimal::N0_1))
}

/// Whether the mouth is at rest, or wide with the lips too close for a shape.
pub open spec fn shapeless(open: Single, wide: Single, stabilizer: Single, stabilizer_wide: Single) -> bool {
    ||| open.lt(stabilizer) && wide.abs().lt(stabilizer)
    ||| wide.gt(stabilizer) && open.lt(stabilizer_wide)
}

/// The shapes A, I, U, E and O and the jaw, before they are weighed against each other.
pub open spec fn raw_shapes(
    open: Single,
    wide: Single,
    stabilizer: Single,
    stabilizer_wide: Single,
) -> Seq<Single> {
    let z = single::of(0);
    let half = single::of(HALF);
    let spread = wide.ge(z) && open.gt(stabilizer * half);
    let narrow = !spread && wide.lt(
        (stabilizer_wide * single::of(decimal::N1_5)).clamp(z, single::of(decimal::N0_8)),
    ) && open.gt(stabilizer);
    seq![
        if !open.gt(half) && open.ge(z) {
            open
        } else {
            z
        },
        if spread && wide.gt(half) {
            wide
        } else {
            z
        },
        if narrow {
            wide.negated()
        } else {
            z
        },
        if spread && !wide.gt(half) {
            wide
        } else {
            z
        },
        if open.gt(half) {
            open
        } else {
            z
        },
        jaw_of(open),
    ]
}

/// The mouth shapes of a mouth that is `open` and `wide` so far.
pub open spec fn shapes(
    open: Single,
    wide: Single,
    stabilizer: Single,
    stabilizer_wide: Single,
) -> Seq<Single> {
    let z = single::of(0);
    if shapeless(open, wide, stabilizer, stabilizer_wide) {
        seq![z, z, z, z, z, jaw_of(open)]
    } else {
        let s = raw_shapes(open, wide, stabilizer, stabilizer_wide);
        let total = shape_sum(s, 5);
        if total.lt(single::of(decimal::N0_0001)) {
            s
        } else {
            let max = ext::unit_range(strongest(s, 5) * single::of(decimal::N3));
            Seq::new(
                6,
                |i: int|
                    if i < 5 {
                        max * (s[i] / total)
                    } else {
                        s[i]
                    },
            )
        }
    }
}

/// The mouth shapes A, I, U, E and O and the open jaw, for the features of the mouth.
pub fn mouth_states(open: Single, wide: Single) -> (r: [Single; 6])
    ensures
        r@ == shapes(open, wide, single::of(decimal::N0_2), single::of(decimal::N0_3)),
{
    mouth_states_stab(open, wide, single::of(decimal::N0_2), single::of(decimal::N0_3))
}

/// The mouth shapes, with the thresholds below which a mouth counts as at rest.
pub fn mouth_states_stab(
    open: Single,
    wide: Single,
    stabilizer: Single,
    stabilizer_wide: Single,
) -> (r: [Single; 6])
    ensures
        r@ == shapes(open, wide, stabilizer, stabilizer_wide),
{
    let z: Single = single::of(0);
    let half: Single = single::of(HALF);
    let jaw: Single = ext::hold(open / single::of(decimal::N0_55) - single::of(decimal::N0_1));
    let mut s: [Single; 6] = [z, z, z, z, z, jaw];
    if open.lt(stabilizer) && wide.abs().lt(stabilizer) {
        proof {
            assert(s@ =~= shapes(open, wide, stabilizer, stabilizer_wide));
        }
        return s;
    }
    if wide.gt(stabilizer) && open.lt(stabilizer_wide) {
        proof {
            assert(s@ =~= shapes(open, wide, stabilizer, stabilizer_wide));
        }
        return s;
    }
    if open.gt(half) {
        s[4] = open;
    } else if open.ge(z) {
        s[0] = open;
    }
    if wide.ge(z) && open.gt(stabilizer * half) {
        if wide.gt(half) {
            s[1] = wide;
        } else {
            s[3] = wide;
        }
    } else if wide.lt(
        (stabilizer_wide * single::of(decimal::N1_5)).clamp(z, single::of(decimal::N0_8)),
    ) && open.gt(stabilizer) {
        s[2] = wide.negated();
    }
    let ghost raw = raw_shapes(open, wide, stabilizer, stabilizer_wide);
    proof {
        assert(s@ =~= raw);
    }
    let mut total: Single = z;
    let mut max: Single = z;
    let mut i: usize = 0;
    while i < 5
        invariant
            i <= 5,
            total == shape_sum(s@, i as int),
            max == strongest(s@, i as int),
        decreases 5 - i,
    {
        total = total + s[i];
        if s[i].gt(max) {
            max = s[i];
        }
        i = i + 1;
    }
    let max: Single = ext::hold(max * single::of(decimal::N3));
    if total.lt(single::of(decimal::N0_0001)) {
        return s;
    }
    let r: [Single; 6] = [
        max * (s[0] / total),
        max * (s[1] / total),
        max * (s[2] / total),
        max * (s[3] / total),
        max * (s[4] / total),
        s[5],
    ];
    proof {
        assert(r@ =~= shapes(open, wide, stabilizer, stabilizer_wide));
    }
    r
}

/// Where a pupil stands between two edges, from -1 to 1.
pub open spec fn between(gaze: Single, a: Single, b: Single) -> Single {
    let half = single::of(HALF);
    let mid = (a + b) * half;
    let reach = ((mid - a).abs() + (b - mid).abs()).max(single::of(decimal::N0_00002)) * half;
    ((gaze - mid) / reach).clamp(single::of(features::MINUS_ONE), single::of(single::ONE))
}

fn place_between(gaze: Single, a: Single, b: Single) -> (r: Single)
    ensures
        r == between(gaze, a, b),
{
    let half: Single = single::of(HALF);
    let mid: Single = (a + b) * half;
    let reach: Single = ((mid - a).abs() + (b - mid).abs()).max(single::of(decimal::N0_00002)) * half;
    ((gaze - mid) / reach).clamp(single::of(features::MINUS_ONE), single::of(single::ONE))
}

/// The points of an eye: the pupil, and the upper and lower lid on the right and on the left.
#[derive(Clone, Copy, Debug)]
pub struct EyePoints {
    pub gaze: usize,
    pub tr: usize,
    pub tl: usize,
    pub br: usize,
    pub bl: usize,
}

/// Where an eye looks: across and up or down.
pub open spec fn look_of(p: Seq<[Single; 3]>, e: EyePoints) -> (Single, Single) {
    let half = single::of(HALF);
    let c = |i: usize, k: int| p[i as int][k];
    (
        between(c(e.gaze, 0), (c(e.tr, 0) + c(e.br, 0)) * half, (c(e.tl, 0) + c(e.bl, 0)) * half),
        between(c(e.gaze, 1), (c(e.tr, 1) + c(e.tl, 1)) * half, (c(e.br, 1) + c(e.bl, 1)) * half),
    )
}

/// Where an eye looks: across and up or down, each from -1 to 1.
pub fn look_one(p: &[[Single; 3]; 70], e: EyePoints) -> (r: (Single, Single))
    requires
        e.gaze < 70,
        e.tr < 70,
        e.tl < 70,
        e.br < 70,
        e.bl < 70,
    ensures
        r == look_of(p@, e),
{
    let half: Single = single::of(HALF);
    (
        place_between(
            p[e.gaze][0],
            (p[e.tr][0] + p[e.br][0]) * half,
            (p[e.tl][0] + p[e.bl][0]) * half,
        ),
        place_between(
            p[e.gaze][1],
            (p[e.tr][1] + p[e.tl][1]) * half,
            (p[e.br][1] + p[e.bl][1]) * half,
        ),
    )
}

/// The points of the right eye.
pub open spec fn right_eye() -> EyePoints {
    EyePoints { gaze: 66, tr: 37, tl: 38, br: 41, bl: 40 }
}

/// The points of the left eye.
pub open spec fn left_eye() -> EyePoints {
    EyePoints { gaze: 67, tr: 43, tl: 44, br: 47, bl: 46 }
}

/// The mean of where the two eyes look.
pub open spec fn face_look(p: Seq<[Single; 3]>) -> (Single, Single) {
    let a = look_of(p, right_eye());
    let b = look_of(p, left_eye());
    ((a.0 + b.0) * single::of(HALF), (a.1 + b.1) * single::of(HALF))
}

/// The mean of where the two eyes look.
pub fn look_from_points(p: &[[Single; 3]; 70]) -> (r: (Single, Single))
    ensures
        r == face_look(p@),
{
    let a = look_one(p, EyePoints { gaze: 66, tr: 37, tl: 38, br: 41, bl: 40 });
    let b = look_one(p, EyePoints { gaze: 67, tr: 43, tl: 44, br: 47, bl: 46 });
    ((a.0 + b.0) * single::of(HALF), (a.1 + b.1) * single::of(HALF))
}

/// The six distances whose changes from rest move mouth and jaw.
pub open spec fn probes(p: Seq<[Single; 3]>) -> Seq<Single> {
    let nx = features::norm_x(p);
    let ny = features::norm_y(p);
    seq![
        (p[51][1] - p[30][1]) / ny,
        (p[49][1] - p[30][1]) / ny,
        (p[54][1] - p[30][1]) / ny,
        (p[56][1] - p[30][1]) / ny,
        (p[8][0] - (p[27][0] + p[30][0]) * single::of(HALF)) / nx,
        (p[30][2] - p[8][2]) / ny,
    ]
}

/// Whether the mouth is at rest, so that the distances can be learned.
pub open spec fn resting(f: Seq<Single>) -> bool {
    let low = single::of(decimal::N0_15);
    &&& f[features::FEAT_MOUTH_OPEN as int].lt(low)
    &&& f[features::FEAT_JAW_OPEN as int].lt(low)
    &&& f[features::FEAT_MOUTH_WIDE as int].abs().lt(single::of(decimal::N0_2))
    &&& f[features::FEAT_MOUTH_PUCKER as int].lt(low)
    &&& f[features::FEAT_MOUTH_FUNNEL as int].lt(low)
}

/// The distances at rest once a frame has come in: the first frame is taken as it is, later
/// ones are learned slowly, and only at rest.
pub open spec fn rest_after(rest: Seq<Single>, init: bool, v: Seq<Single>, adapt: bool) -> Seq<Single> {
    Seq::new(
        6,
        |i: int|
            if !init {
                v[i]
            } else if adapt {
                lerp(rest[i], v[i], single::of(decimal::N0_04))
            } else {
                rest[i]
            },
    )
}

/// The movements for distances `d` from rest: none before a first frame has been learned, and
/// those of the lips only while they are neither puckered nor funnelled.
pub open spec fn geom_of(d: Seq<Single>, ready: bool, f: Seq<Single>) -> PsGeom {
    let z = single::of(0);
    let gain = single::of(decimal::N1_8);
    let lips = ready && f[features::FEAT_MOUTH_PUCKER as int].lt(single::of(decimal::N0_25))
        && f[features::FEAT_MOUTH_FUNNEL as int].lt(single::of(decimal::N0_25));
    let jaw = f[features::FEAT_JAW_OPEN as int].max(z) * single::of(decimal::N0_55);
    let dead = single::of(decimal::N0_08);
    PsGeom {
        upper_l: if lips {
            ext::unit_range(d[0].negated() * gain)
        } else {
            z
        },
        upper_r: if lips {
            ext::unit_range(d[1].negated() * gain)
        } else {
            z
        },
        lower_l: if lips {
            ext::unit_range(d[2] * gain - jaw)
        } else {
            z
        },
        lower_r: if lips {
            ext::unit_range(d[3] * gain - jaw)
        } else {
            z
        },
        jaw_right: if ready {
            ps_pos(d[4], dead, single::of(decimal::N2_2))
        } else {
            z
        },
        jaw_left: if ready {
            ps_pos(d[4].negated(), dead, single::of(decimal::N2_2))
        } else {
            z
        },
        jaw_forward: if ready {
            ps_pos(d[5], single::of(decimal::N0_12), single::of(decimal::N1_6))
        } else {
            z
        },
    }
}

/// How far each distance is from rest.
pub open spec fn from_rest(v: Seq<Single>, rest: Seq<Single>) -> Seq<Single> {
    Seq::new(6, |i: int| v[i] - rest[i])
}

/// The mouth shapes of fresh visemes from outside: those of the strongest one, unless that is
/// silence.
pub open spec fn shapes_from_visemes(v: Seq<Single>) -> Option<Seq<Single>> {
    let i = ext::leader(v, 15);
    if i == ext::SIL {
        None
    } else {
        let w = ext::unit_range(v[i] * single::of(decimal::N1_5));
        Some(ext::cats_of(i).map_values(|c: Single| c * w))
    }
}

fn mouth_from_visemes(v: &[Single; 15]) -> (r: Option<[Single; 6]>)
    ensures
        match r {
            Some(m) => shapes_from_visemes(v@) == Some(m@),
            None => shapes_from_visemes(v@) is None,
        },
{
    let (i, w) = winning(v);
    if i == ext::SIL {
        return None;
    }
    let w: Single = ext::hold(w * single::of(decimal::N1_5));
    let c: [Single; 6] = cats(i);
    let m: [Single; 6] = [c[0] * w, c[1] * w, c[2] * w, c[3] * w, c[4] * w, c[5] * w];
    proof {
        assert(m@ =~= ext::cats_of(i as int).map_values(|c: Single| c * w));
    }
    Some(m)
}

/// What is kept from frame to frame.
#[derive(Debug)]
pub struct OutputDriver {
    pub mouth: [Single; 6],
    pub blink: [Single; 2],
    pub look: (Single, Single),
    pub brow_ud: Single,
    pub simple: SimpleExpr,
    pub expr_label: String,
    pub expr_weight: Single,
    pub ps_rest: [Single; 6],
    pub ps_geom_init: bool,
    pub audio: Single,
}

impl OutputDriver {
    /// A driver that has seen no frame.
    pub fn new() -> (r: OutputDriver)
        ensures
            forall|i: int| 0 <= i < 6 ==> r.mouth[i] == single::of(0),
            forall|i: int| 0 <= i < 6 ==> r.ps_rest[i] == single::of(0),
            forall|i: int| 0 <= i < 2 ==> r.blink[i] == single::of(0),
            r.look == (single::of(0), single::of(0)),
            r.brow_ud == single::of(0),
            r.simple.last_mouth == single::of(0),
            r.simple.last_brows == single::of(0),
            r.simple.label@ == ""@,
            r.expr_label@ == Seq::<char>::empty(),
            r.expr_weight == single::of(0),
            !r.ps_geom_init,
            r.audio == single::of(0),
    {
        let z: Single = single::of(0);
        OutputDriver {
            mouth: [z, z, z, z, z, z],
            blink: [z, z],
            look: (z, z),
            brow_ud: z,
            simple: SimpleExpr { last_mouth: z, last_brows: z, label: "" },
            expr_label: String::new(),
            expr_weight: z,
            ps_rest: [z, z, z, z, z, z],
            ps_geom_init: false,
            audio: z,
        }
    }

    /// Reads mouth and jaw movements off the solid points, and learns the points at rest.
    pub fn update_ps_geom(&mut self, pkt: &FacePacket) -> (r: PsGeom)
        ensures
            final(self).ps_rest@ == rest_after(
                old(self).ps_rest@,
                old(self).ps_geom_init,
                probes(pkt.pts_3d@),
                resting(pkt.features@),
            ),
            final(self).ps_geom_init,
            r == geom_of(
                from_rest(probes(pkt.pts_3d@), final(self).ps_rest@),
                old(self).ps_geom_init,
                pkt.features@,
            ),
            *final(self) == (OutputDriver {
                ps_rest: final(self).ps_rest,
                ps_geom_init: true,
                ..*old(self)
            }),
    {
        let f = &pkt.features;
        let p = &pkt.pts_3d;
        let (nx, ny) = face_norm_basis(p.as_slice());
        let low: Single = single::of(decimal::N0_15);
        let rest: bool = f[features::FEAT_MOUTH_OPEN].lt(low) && f[features::FEAT_JAW_OPEN].lt(low)
            && f[features::FEAT_MOUTH_WIDE].abs().lt(single::of(decimal::N0_2))
            && f[features::FEAT_MOUTH_PUCKER].lt(low) && f[features::FEAT_MOUTH_FUNNEL].lt(low);
        let v: [Single; 6] = [
            (p[51][1] - p[30][1]) / ny,
            (p[49][1] - p[30][1]) / ny,
            (p[54][1] - p[30][1]) / ny,
            (p[56][1] - p[30][1]) / ny,
            (p[8][0] - (p[27][0] + p[30][0]) * single::of(HALF)) / nx,
            (p[30][2] - p[8][2]) / ny,
        ];
        proof {
            assert(v@ =~= probes(p@));
        }
        let ready: bool = self.ps_geom_init;
        let old_rest: [Single; 6] = self.ps_rest;
        let mut d: [Single; 6] = v;
        let mut i: usize = 0;
        while i < 6
            invariant
                i <= 6,
                ready == old(self).ps_geom_init,
                self.ps_geom_init == ready,
                old_rest == old(self).ps_rest,
                *self == (OutputDriver { ps_rest: self.ps_rest, ..*old(self) }),
                forall|j: int|
                    0 <= j < i ==> #[trigger] self.ps_rest[j] == rest_after(
                        old_rest@,
                        ready,
                        v@,
                        rest,
                    )[j],
                forall|j: int| i <= j < 6 ==> #[trigger] self.ps_rest[j] == old_rest[j],
                forall|j: int| 0 <= j < i ==> #[trigger] d[j] == v[j] - self.ps_rest[j],
            decreases 6 - i,
        {
            if !ready {
                self.ps_rest[i] = v[i];
            } else if rest {
                self.ps_rest[i] = lerp(self.ps_rest[i], v[i], single::of(decimal::N0_04));
            }
            d[i] = v[i] - self.ps_rest[i];
            i = i + 1;
        }
        self.ps_geom_init = true;
        proof {
            assert(self.ps_rest@ =~= rest_after(old_rest@, ready, v@, rest));
            assert(d@ =~= from_rest(v@, self.ps_rest@));
        }
        let z: Single = single::of(0);
        let mut g = PsGeom {
            upper_l: z,
            upper_r: z,
            lower_l: z,
            lower_r: z,
            jaw_right: z,
            jaw_left: z,
            jaw_forward: z,
        };
        if ready && f[features::FEAT_MOUTH_PUCKER].lt(single::of(decimal::N0_25))
            && f[features::FEAT_MOUTH_FUNNEL].lt(single::of(decimal::N0_25)) {
            let gain: Single = single::of(decimal::N1_8);
            let jaw: Single = f[features::FEAT_JAW_OPEN].max(z) * single::of(decimal::N0_55);
            g.upper_l = ext::hold(d[0].negated() * gain);
            g.upper_r = ext::hold(d[1].negated() * gain);
            g.lower_l = ext::hold(d[2] * gain - jaw);
            g.lower_r = ext::hold(d[3] * gain - jaw);
        }
        if ready {
            let dead: Single = single::of(decimal::N0_08);
            g.jaw_right = ps_pos(d[4], dead, single::of(decimal::N2_2));
            g.jaw_left = ps_pos(d[4].negated(), dead, single::of(decimal::N2_2));
            g.jaw_forward = ps_pos(d[5], single::of(decimal::N0_12), single::of(decimal::N1_6));
        }
        g
    }

    /// Takes in a face at time `now`. A face that was not found gives nothing and changes
    /// nothing.
    pub fn update<'a>(&mut self, pkt: &'a FacePacket, ext: Option<&ExtState>, now: u64) -> (r: Option<
        FaceOutput<'a>,
    >)
        ensures
            r is Some <==> pkt.success,
            !pkt.success ==> *final(self) == *old(self),
            pkt.success ==> {
                let f = pkt.features@;
                let o = r->0;
                let told = match ext {
                    Some(e) => ext::fresh_expression(*e, now),
                    None => None,
                };
                let heard = match ext {
                    Some(e) => ext::fresh_visemes(*e, now),
                    None => None,
                };
                let raw = shapes(
                    f[features::FEAT_MOUTH_OPEN as int],
                    f[features::FEAT_MOUTH_WIDE as int],
                    single::of(decimal::N0_2),
                    single::of(decimal::N0_3),
                );
                let look = face_look(pkt.pts_3d@);
                &&& *o.packet == *pkt
                &&& match told {
                    Some((name, w)) => {
                        &&& final(self).expr_label@ == name
                        &&& final(self).expr_weight == w
                        &&& final(self).simple == old(self).simple
                    },
                    None => {
                        &&& final(self).simple.last_mouth == mood(
                            old(self).simple.last_mouth,
                            f[features::FEAT_CORNER_UD_L as int],
                            f[features::FEAT_CORNER_UD_R as int],
                        )
                        &&& final(self).simple.last_brows == mood(
                            old(self).simple.last_brows,
                            f[features::FEAT_BROW_UD_L as int],
                            f[features::FEAT_BROW_UD_R as int],
                        )
                        &&& final(self).expr_label@ == expression_of(
                            final(self).simple.last_mouth,
                            final(self).simple.last_brows,
                        )
                        &&& final(self).simple.label@ == final(self).expr_label@
                        &&& final(self).expr_weight == single::of(single::ONE)
                    },
                }
                &&& o.expression@ == final(self).expr_label@
                &&& o.expression_weight == final(self).expr_weight
                &&& final(self).audio == (match ext {
                    Some(e) => e.audio,
                    None => old(self).audio,
                })
                &&& o.audio == final(self).audio
                &&& forall|i: int|
                    0 <= i < 6 ==> #[trigger] final(self).mouth[i] == lerp(
                        old(self).mouth[i],
                        raw[i],
                        single::of(decimal::N0_4),
                    )
                &&& o.mouth == final(self).mouth
                &&& forall|i: int|
                    0 <= i < 2 ==> #[trigger] final(self).blink[i] == lerp(
                        old(self).blink[i],
                        eye_to_blink(pkt.eye_blink[i]),
                        single::of(decimal::N0_25),
                    )
                &&& o.blink == final(self).blink
                &&& final(self).look.0 == lerp(old(self).look.0, look.0, single::of(decimal::N0_4))
                &&& final(self).look.1 == lerp(old(self).look.1, look.1, single::of(decimal::N0_4))
                &&& o.look == final(self).look
                &&& final(self).brow_ud == lerp(
                    old(self).brow_ud,
                    (f[features::FEAT_BROW_UD_L as int] + f[features::FEAT_BROW_UD_R as int])
                        * single::of(HALF),
                    single::of(decimal::N0_35),
                )
                &&& o.brow_ud == final(self).brow_ud
                &&& match heard {
                    Some(v) => o.visemes == v && match shapes_from_visemes(v@) {
                        Some(m) => o.ext_mouth is Some && o.ext_mouth->0@ == m,
                        None => o.ext_mouth is None,
                    },
                    None => o.visemes@ == visemes_from(final(self).mouth@) && o.ext_mouth is None,
                }
                &&& final(self).ps_rest@ == rest_after(
                    old(self).ps_rest@,
                    old(self).ps_geom_init,
                    probes(pkt.pts_3d@),
                    resting(f),
                )
                &&& final(self).ps_geom_init
                &&& o.ps_geom == geom_of(
                    from_rest(probes(pkt.pts_3d@), final(self).ps_rest@),
                    old(self).ps_geom_init,
                    f,
                )
            },
    {
        if !pkt.success {
            return None;
        }
        let told: Option<(&str, Single)> = match ext {
            Some(e) => e.expression_live(now),
            None => None,
        };
        match told {
            Some((name, w)) => {
                self.expr_label = name.to_owned();
                self.expr_weight = w;
            },
            None => {
                let label = self.simple.update(&pkt.features);
                self.expr_label = label.to_owned();
                self.expr_weight = single::of(single::ONE);
            },
        }
        self.audio = match ext {
            Some(e) => e.audio,
            None => self.audio,
        };
        let heard: Option<[Single; 15]> = match ext {
            Some(e) => e.visemes_live(now),
            None => None,
        };
        let ext_mouth: Option<[Single; 6]> = match &heard {
            Some(v) => mouth_from_visemes(v),
            None => None,
        };
        let f = &pkt.features;
        let raw: [Single; 6] = mouth_states(
            f[features::FEAT_MOUTH_OPEN],
            f[features::FEAT_MOUTH_WIDE],
        );
        let m: [Single; 6] = self.mouth;
        let t: Single = single::of(decimal::N0_4);
        self.mouth = [
            lerp(m[0], raw[0], t),
            lerp(m[1], raw[1], t),
            lerp(m[2], raw[2], t),
            lerp(m[3], raw[3], t),
            lerp(m[4], raw[4], t),
            lerp(m[5], raw[5], t),
        ];
        let b: [Single; 2] = self.blink;
        self.blink = [
            lerp(b[0], eye_to_blink(pkt.eye_blink[0]), single::of(decimal::N0_25)),
            lerp(b[1], eye_to_blink(pkt.eye_blink[1]), single::of(decimal::N0_25)),
        ];
        let (lr, ud) = look_from_points(&pkt.pts_3d);
        self.look = (lerp(self.look.0, lr, t), lerp(self.look.1, ud, t));
        self.brow_ud = lerp(
            self.brow_ud,
            (f[features::FEAT_BROW_UD_L] + f[features::FEAT_BROW_UD_R]) * single::of(HALF),
            single::of(decimal::N0_35),
        );
        let ps_geom: PsGeom = self.update_ps_geom(pkt);
        let visemes: [Single; 15] = match heard {
            Some(v) => v,
            None => from_mouth_states(&self.mouth),
        };
        Some(
            FaceOutput {
                packet: pkt,
                mouth: self.mouth,
                look: self.look,
                blink: self.blink,
                brow_ud: self.brow_ud,
                expression: self.expr_label.clone(),
                expression_weight: self.expr_weight,
                visemes,
                audio: self.audio,
                ext_mouth,
                ps_geom,
            },
        )
    }
}

} // verus!
