//! A face as the bones and blend shapes of an avatar.

use crate::blends;
use crate::blends::Blends;
use crate::ext::expr_blend;
use crate::ext;
use crate::features;
use crate::features::FeatureVec;
use crate::ieee::decimal;
use crate::ieee::double::Double;
use crate::ieee::maths;
use crate::ieee::order;
use crate::ieee::single;
use crate::ieee::single::Single;
use crate::output::{FaceOutput, PsGeom};
use crate::quat;
use crate::text;
use crate::unit;
use vstd::arithmetic::power2::*;
use vstd::prelude::*;

verus! {

/// How faces are mapped.
#[derive(Clone, Copy, Debug, PartialEq, Eq, Structural)]
pub struct VrmCfg {
    pub perfect_sync: bool,
    pub mirror: bool,
    pub translation_scale: Single,
}

impl Default for VrmCfg {
    fn default() -> (r: VrmCfg)
        ensures
            r == (VrmCfg {
                perfect_sync: true,
                mirror: false,
                translation_scale: single::of(decimal::N0_3),
            }),
    {
        VrmCfg { perfect_sync: true, mirror: false, translation_scale: single::of(decimal::N0_3) }
    }
}

/// A bone of the avatar.
#[derive(Clone, Copy, Debug)]
pub struct BonePose {
    pub name: &'static str,
    pub pos: [Single; 3],
    pub rot: [Single; 4],
}

/// What is sent for a frame.
#[derive(Debug)]
pub struct VrmFrame {
    pub time: Double,
    pub root_pos: [Single; 3],
    pub root_rot: [Single; 4],
    pub bones: Vec<BonePose>,
    pub blends: Blends,
    pub visemes: [Single; 15],
    pub expression: String,
    pub expression_weight: Single,
    pub audio: Single,
}

impl VrmFrame {
    /// The weight of a blend shape.
    pub fn blend(&self, name: &str) -> (r: Option<Single>)
        requires
            self.blends.wf(),
        ensures
            r == (if self.blends@.dom().contains(name@) {
                Some(self.blends@[name@])
            } else {
                None
            }),
    {
        self.blends.get(name)
    }
}

pub open spec fn above_spec(v: Single, t: Single, s: Single) -> Single {
    if v.gt(t) {
        v * s
    } else {
        single::of(0)
    }
}

/// A value above `t`, times `s`.
#[verifier::when_used_as_spec(above_spec)]
pub fn above(v: Single, t: Single, s: Single) -> (r: Single)
    ensures
        r == above_spec(v, t, s),
{
    if v.gt(t) {
        v * s
    } else {
        single::of(0)
    }
}

pub open spec fn below_spec(v: Single, t: Single, s: Single) -> Single {
    if v.lt(t) {
        v.negated() * s
    } else {
        single::of(0)
    }
}

/// A value below `t`, turned round, times `s`.
#[verifier::when_used_as_spec(below_spec)]
pub fn below(v: Single, t: Single, s: Single) -> (r: Single)
    ensures
        r == below_spec(v, t, s),
{
    if v.lt(t) {
        v.negated() * s
    } else {
        single::of(0)
    }
}

pub open spec fn ps_look_spec(v: Single, dead: Single) -> Single {
    let one = single::of(single::ONE);
    if v.abs().le(dead) {
        single::of(0)
    } else {
        ext::unit_range((v.abs() - dead) / (one - dead))
    }
}

/// How far past a dead zone a look goes, on a scale up to one.
#[verifier::when_used_as_spec(ps_look_spec)]
pub fn ps_look(v: Single, dead: Single) -> (r: Single)
    ensures
        r == ps_look_spec(v, dead),
{
    let a: Single = v.abs();
    if a.le(dead) {
        single::of(0)
    } else {
        ext::hold((a - dead) / (single::of(single::ONE) - dead))
    }
}

pub open spec fn pos_dir_spec(v: Single, dead: Single) -> Single {
    if v.gt(single::of(0)) {
        ps_look(v, dead)
    } else {
        single::of(0)
    }
}

/// The part of a look in the positive direction.
#[verifier::when_used_as_spec(pos_dir_spec)]
pub fn pos_dir(v: Single, dead: Single) -> (r: Single)
    ensures
        r == pos_dir_spec(v, dead),
{
    if v.gt(single::of(0)) {
        ps_look(v, dead)
    } else {
        single::of(0)
    }
}

pub open spec fn neg_dir_spec(v: Single, dead: Single) -> Single {
    if v.lt(single::of(0)) {
        ps_look(v, dead)
    } else {
        single::of(0)
    }
}

/// The part of a look in the negative direction.
#[verifier::when_used_as_spec(neg_dir_spec)]
pub fn neg_dir(v: Single, dead: Single) -> (r: Single)
    ensures
        r == neg_dir_spec(v, dead),
{
    if v.lt(single::of(0)) {
        ps_look(v, dead)
    } else {
        single::of(0)
    }
}

/// Weights by name.
pub type Weights = Map<Seq<char>, Single>;

/// Weights once a signed value has been shared out between two names.
pub open spec fn put_signed(m: Weights, pos: Seq<char>, neg: Seq<char>, v: Single, scale: Single) -> Weights {
    let one = single::of(single::ONE);
    if v.gt(single::of(0)) {
        blends::put(m, pos, (scale * v).min(one))
    } else {
        blends::put(m, neg, (scale.negated() * v).min(one))
    }
}

fn signed_look(b: &mut Blends, pos: &'static str, neg: &'static str, v: Single, scale: Single)
    requires
        old(b).wf(),
    ensures
        final(b).wf(),
        final(b)@ == put_signed(old(b)@, pos@, neg@, v, scale),
{
    let one: Single = single::of(single::ONE);
    if v.gt(single::of(0)) {
        b.set_blend(pos, (scale * v).min(one));
    } else {
        b.set_blend(neg, (scale.negated() * v).min(one));
    }
}

/// Whether an eye squints: the brow is not up and the eye is not quite closed.
pub open spec fn squints(brow_ud: Single, eye: Single) -> bool {
    brow_ud.lt(single::of(decimal::N0_2)) && eye.lt(single::of(decimal::N0_1)) && eye.gt(
        single::of(decimal::M0_6),
    )
}

/// How far an eye blinks: not at all while it squints, nor before it is closed far enough.
pub open spec fn blink_of(brow_ud: Single, eye: Single) -> Single {
    let cut = if brow_ud.lt(single::of(decimal::N0_2)) {
        single::of(decimal::M0_6)
    } else {
        single::of(decimal::M0_3)
    };
    if !squints(brow_ud, eye) && eye.le(cut) {
        eye.negated() * single::of(decimal::N1_5)
    } else {
        single::of(0)
    }
}

/// Weights once brow, squint and blink of one side have been set.
pub open spec fn put_blink(m: Weights, left: bool, brow_ud: Single, eye: Single) -> Weights {
    let m1 = blends::put(
        m,
        if left {
            "BrowDownLeft"@
        } else {
            "BrowDownRight"@
        },
        below(brow_ud, single::of(decimal::N0_2), single::of(decimal::N0_5)),
    );
    let m2 = blends::put(
        m1,
        if left {
            "EyeSquintLeft"@
        } else {
            "EyeSquintRight"@
        },
        if squints(brow_ud, eye) {
            eye.negated()
        } else {
            single::of(0)
        },
    );
    blends::put(
        m2,
        if left {
            "EyeBlinkLeft"@
        } else {
            "EyeBlinkRight"@
        },
        blink_of(brow_ud, eye),
    )
}

fn ps_blink(b: &mut Blends, left: bool, brow_ud: Single, eye: Single)
    requires
        old(b).wf(),
    ensures
        final(b).wf(),
        final(b)@ == put_blink(old(b)@, left, brow_ud, eye),
{
    let z: Single = single::of(0);
    let (brow_name, squint_name, blink_name) = if left {
        ("BrowDownLeft", "EyeSquintLeft", "EyeBlinkLeft")
    } else {
        ("BrowDownRight", "EyeSquintRight", "EyeBlinkRight")
    };
    let low: bool = brow_ud.lt(single::of(decimal::N0_2));
    let squint: bool = low && eye.lt(single::of(decimal::N0_1)) && eye.gt(single::of(decimal::M0_6));
    b.set_blend(brow_name, below(brow_ud, single::of(decimal::N0_2), single::of(decimal::N0_5)));
    b.set_blend(
        squint_name,
        if squint {
            eye.negated()
        } else {
            z
        },
    );
    let cut: Single = if low {
        single::of(decimal::M0_6)
    } else {
        single::of(decimal::M0_3)
    };
    b.set_blend(
        blink_name,
        if squint {
            z
        } else if eye.le(cut) {
            eye.negated() * single::of(decimal::N1_5)
        } else {
            z
        },
    );
}

/// A feature by its place.
pub open spec fn feat(f: FeatureVec, i: usize) -> Single {
    f[i as int]
}

/// How much the mouth may stretch: less the further it is open.
pub open spec fn open_gate(f: FeatureVec) -> Single {
    single::of(single::ONE) - ext::unit_range(
        feat(f, features::FEAT_MOUTH_OPEN) / single::of(decimal::N0_45),
    )
}

/// How far one side of the mouth stretches.
pub open spec fn stretch(f: FeatureVec, corner: Single) -> Single {
    (feat(f, features::FEAT_MOUTH_WIDE).max(single::of(0)) + corner.max(single::of(0))) * single::of(
        decimal::N0_6,
    ) * open_gate(f)
}

/// Weights once the shapes of mouth and cheeks have been set.
pub open spec fn put_mouth(m: Weights, f: FeatureVec) -> Weights {
    let z = single::of(0);
    let half = single::of(decimal::N0_5);
    let one = single::of(single::ONE);
    let hi = single::of(decimal::N0_3);
    let lo = single::of(decimal::M0_3);
    let press = feat(f, features::FEAT_MOUTH_PRESS_LIP_OPEN).negated().max(z);
    let m = blends::put(m, "MouthPucker"@, feat(f, features::FEAT_MOUTH_PUCKER));
    let m = blends::put(m, "JawOpen"@, feat(f, features::FEAT_JAW_OPEN));
    let m = blends::put(m, "MouthClose"@, feat(f, features::FEAT_MOUTH_OPEN).negated().max(z));
    let m = blends::put(m, "MouthFunnel"@, feat(f, features::FEAT_MOUTH_FUNNEL));
    let m = blends::put(m, "CheekPuff"@, feat(f, features::FEAT_CHEEK_PUFF));
    let m = blends::put(m, "MouthLeft"@, below(feat(f, features::FEAT_MOUTH_OFFSET_X), lo, half));
    let m = blends::put(m, "MouthRight"@, above(feat(f, features::FEAT_MOUTH_OFFSET_X), hi, half));
    let m = blends::put(m, "MouthSmileLeft"@, above(feat(f, features::FEAT_CORNER_UD_L), hi, half));
    let m = blends::put(m, "MouthSmileRight"@, above(feat(f, features::FEAT_CORNER_UD_R), hi, half));
    let m = blends::put(m, "MouthFrownLeft"@, below(feat(f, features::FEAT_CORNER_UD_L), lo, one));
    let m = blends::put(m, "MouthFrownRight"@, below(feat(f, features::FEAT_CORNER_UD_R), lo, one));
    let m = blends::put(m, "MouthStretchLeft"@, stretch(f, feat(f, features::FEAT_CORNER_IO_L)));
    let m = blends::put(m, "MouthStretchRight"@, stretch(f, feat(f, features::FEAT_CORNER_IO_R)));
    let m = blends::put(m, "MouthPressLeft"@, press);
    blends::put(m, "MouthPressRight"@, press)
}

/// Weights once the movements of lips and jaw have been set.
pub open spec fn put_geom(m: Weights, g: PsGeom) -> Weights {
    let m = blends::put(m, "MouthUpperUpLeft"@, g.upper_l);
    let m = blends::put(m, "MouthUpperUpRight"@, g.upper_r);
    let m = blends::put(m, "MouthLowerDownLeft"@, g.lower_l);
    let m = blends::put(m, "MouthLowerDownRight"@, g.lower_r);
    let m = blends::put(m, "JawRight"@, g.jaw_right);
    let m = blends::put(m, "JawLeft"@, g.jaw_left);
    blends::put(m, "JawForward"@, g.jaw_forward)
}

fn apply_ps_mouth(b: &mut Blends, f: &FeatureVec, g: &PsGeom)
    requires
        old(b).wf(),
    ensures
        final(b).wf(),
        final(b)@ == put_geom(put_mouth(old(b)@, *f), *g),
{
    let z: Single = single::of(0);
    let half: Single = single::of(decimal::N0_5);
    let one: Single = single::of(single::ONE);
    let hi: Single = single::of(decimal::N0_3);
    let lo: Single = single::of(decimal::M0_3);
    b.set_blend("MouthPucker", f[features::FEAT_MOUTH_PUCKER]);
    b.set_blend("JawOpen", f[features::FEAT_JAW_OPEN]);
    b.set_blend("MouthClose", f[features::FEAT_MOUTH_OPEN].negated().max(z));
    b.set_blend("MouthFunnel", f[features::FEAT_MOUTH_FUNNEL]);
    b.set_blend("CheekPuff", f[features::FEAT_CHEEK_PUFF]);
    b.set_blend("MouthLeft", below(f[features::FEAT_MOUTH_OFFSET_X], lo, half));
    b.set_blend("MouthRight", above(f[features::FEAT_MOUTH_OFFSET_X], hi, half));
    b.set_blend("MouthSmileLeft", above(f[features::FEAT_CORNER_UD_L], hi, half));
    b.set_blend("MouthSmileRight", above(f[features::FEAT_CORNER_UD_R], hi, half));
    b.set_blend("MouthFrownLeft", below(f[features::FEAT_CORNER_UD_L], lo, one));
    b.set_blend("MouthFrownRight", below(f[features::FEAT_CORNER_UD_R], lo, one));
    let gate: Single = one - ext::hold(f[features::FEAT_MOUTH_OPEN] / single::of(decimal::N0_45));
    let wide: Single = f[features::FEAT_MOUTH_WIDE].max(z);
    let share: Single = single::of(decimal::N0_6);
    b.set_blend(
        "MouthStretchLeft",
        (wide + f[features::FEAT_CORNER_IO_L].max(z)) * share * gate,
    );
    b.set_blend(
        "MouthStretchRight",
        (wide + f[features::FEAT_CORNER_IO_R].max(z)) * share * gate,
    );
    let press: Single = f[features::FEAT_MOUTH_PRESS_LIP_OPEN].negated().max(z);
    b.set_blend("MouthPressLeft", press);
    b.set_blend("MouthPressRight", press);
    b.set_blend("MouthUpperUpLeft", g.upper_l);
    b.set_blend("MouthUpperUpRight", g.upper_r);
    b.set_blend("MouthLowerDownLeft", g.lower_l);
    b.set_blend("MouthLowerDownRight", g.lower_r);
    b.set_blend("JawRight", g.jaw_right);
    b.set_blend("JawLeft", g.jaw_left);
    b.set_blend("JawForward", g.jaw_forward);
}

/// Weights once brows and lids have been set.
pub open spec fn put_eyes(m: Weights, f: FeatureVec) -> Weights {
    let low = single::of(decimal::N0_2);
    let one = single::of(single::ONE);
    let half = single::of(decimal::N0_5);
    let share = single::of(decimal::N0_7);
    let m = blends::put(
        m,
        "BrowInnerUp"@,
        (feat(f, features::FEAT_BROW_UD_L) + feat(f, features::FEAT_BROW_UD_R)).max(single::of(0))
            * single::of(decimal::N0_4),
    );
    let m = put_blink(m, true, feat(f, features::FEAT_BROW_UD_L), feat(f, features::FEAT_EYE_L));
    let m = put_blink(m, false, feat(f, features::FEAT_BROW_UD_R), feat(f, features::FEAT_EYE_R));
    let m = blends::put(m, "BrowOuterUpLeft"@, below(feat(f, features::FEAT_BROW_STEEP_L), low, one));
    let m = blends::put(m, "BrowOuterUpRight"@, below(feat(f, features::FEAT_BROW_STEEP_R), low, one));
    let m = blends::put(m, "EyeWideLeft"@, above(feat(f, features::FEAT_EYE_L), half, share));
    blends::put(m, "EyeWideRight"@, above(feat(f, features::FEAT_EYE_R), half, share))
}

/// Weights once the look has been set; a mirror swaps the sides.
pub open spec fn put_look(m: Weights, look_lr: Single, look_ud: Single, mirror: bool) -> Weights {
    let dead = single::of(decimal::N0_1);
    let up = pos_dir(look_ud, dead);
    let down = neg_dir(look_ud, dead);
    let left = pos_dir(look_lr, dead);
    let right = neg_dir(look_lr, dead);
    let m = blends::put(m, "EyeLookUpLeft"@, up);
    let m = blends::put(m, "EyeLookUpRight"@, up);
    let m = blends::put(m, "EyeLookDownLeft"@, down);
    let m = blends::put(m, "EyeLookDownRight"@, down);
    let m = blends::put(
        m,
        if mirror {
            "EyeLookOutRight"@
        } else {
            "EyeLookOutLeft"@
        },
        left,
    );
    let m = blends::put(
        m,
        if mirror {
            "EyeLookInLeft"@
        } else {
            "EyeLookInRight"@
        },
        left,
    );
    let m = blends::put(
        m,
        if mirror {
            "EyeLookInRight"@
        } else {
            "EyeLookInLeft"@
        },
        right,
    );
    blends::put(
        m,
        if mirror {
            "EyeLookOutLeft"@
        } else {
            "EyeLookOutRight"@
        },
        right,
    )
}

fn apply_eyes(b: &mut Blends, f: &FeatureVec)
    requires
        old(b).wf(),
    ensures
        final(b).wf(),
        final(b)@ == put_eyes(old(b)@, *f),
{
    let low: Single = single::of(decimal::N0_2);
    let one: Single = single::of(single::ONE);
    let half: Single = single::of(decimal::N0_5);
    let share: Single = single::of(decimal::N0_7);
    b.set_blend(
        "BrowInnerUp",
        (f[features::FEAT_BROW_UD_L] + f[features::FEAT_BROW_UD_R]).max(single::of(0)) * single::of(
            decimal::N0_4,
        ),
    );
    ps_blink(b, true, f[features::FEAT_BROW_UD_L], f[features::FEAT_EYE_L]);
    ps_blink(b, false, f[features::FEAT_BROW_UD_R], f[features::FEAT_EYE_R]);
    b.set_blend("BrowOuterUpLeft", below(f[features::FEAT_BROW_STEEP_L], low, one));
    b.set_blend("BrowOuterUpRight", below(f[features::FEAT_BROW_STEEP_R], low, one));
    b.set_blend("EyeWideLeft", above(f[features::FEAT_EYE_L], half, share));
    b.set_blend("EyeWideRight", above(f[features::FEAT_EYE_R], half, share));
}

fn apply_look(b: &mut Blends, look_lr: Single, look_ud: Single, mirror: bool)
    requires
        old(b).wf(),
    ensures
        final(b).wf(),
        final(b)@ == put_look(old(b)@, look_lr, look_ud, mirror),
{
    let dead: Single = single::of(decimal::N0_1);
    let up: Single = pos_dir(look_ud, dead);
    let down: Single = neg_dir(look_ud, dead);
    let left: Single = pos_dir(look_lr, dead);
    let right: Single = neg_dir(look_lr, dead);
    b.set_blend("EyeLookUpLeft", up);
    b.set_blend("EyeLookUpRight", up);
    b.set_blend("EyeLookDownLeft", down);
    b.set_blend("EyeLookDownRight", down);
    b.set_blend(
        if mirror {
            "EyeLookOutRight"
        } else {
            "EyeLookOutLeft"
        },
        left,
    );
    b.set_blend(
        if mirror {
            "EyeLookInLeft"
        } else {
            "EyeLookInRight"
        },
        left,
    );
    b.set_blend(
        if mirror {
            "EyeLookInRight"
        } else {
            "EyeLookInLeft"
        },
        right,
    );
    b.set_blend(
        if mirror {
            "EyeLookOutLeft"
        } else {
            "EyeLookOutRight"
        },
        right,
    );
}

/// The look across as the avatar has it.
pub open spec fn avatar_look(look: Single, mirror: bool) -> Single {
    if mirror {
        look
    } else {
        look.negated()
    }
}

/// The mouth shapes that count: those from outside where there are some.
pub open spec fn mouth_in_use(out: FaceOutput) -> Seq<Single> {
    match out.ext_mouth {
        Some(m) => m@,
        None => out.mouth@,
    }
}

/// Weights once the five vowels have been set.
pub open spec fn put_vowels(m: Weights, mouth: Seq<Single>) -> Weights {
    let share = single::of(decimal::N0_6);
    let m = blends::put(m, "A"@, mouth[0] * share);
    let m = blends::put(m, "I"@, mouth[1] * share);
    let m = blends::put(m, "U"@, mouth[2] * share);
    let m = blends::put(m, "E"@, mouth[3] * share);
    blends::put(m, "O"@, mouth[4] * share)
}

/// Weights once blinks and looks have been set for an avatar without the fine shapes.
pub open spec fn put_coarse(m: Weights, blink: Seq<Single>, look_lr: Single, look_ud: Single) -> Weights {
    let m = blends::put(m, "Blink_R"@, blink[0]);
    let m = blends::put(m, "Blink_L"@, blink[1]);
    let m = put_signed(m, "LookUp"@, "LookDown"@, look_ud, single::of(decimal::N5));
    put_signed(m, "LookLeft"@, "LookRight"@, look_lr, single::of(decimal::N10))
}

/// Weights once the fine shapes have been set; those of the mouth only where nothing outside
/// moves it.
pub open spec fn put_fine(m: Weights, out: FaceOutput, look_lr: Single, look_ud: Single, mirror: bool) -> Weights {
    let f = out.packet.features;
    let m = put_look(put_eyes(m, f), look_lr, look_ud, mirror);
    if out.ext_mouth is None {
        put_geom(put_mouth(m, f), out.ps_geom)
    } else {
        m
    }
}

/// The blend shapes of a face.
pub open spec fn blends_of(out: FaceOutput, cfg: VrmCfg) -> Weights {
    let look_lr = avatar_look(out.look.0, cfg.mirror);
    let look_ud = out.look.1;
    let m0 = Map::<Seq<char>, Single>::empty();
    let m1 = if out.ext_mouth is Some || !cfg.perfect_sync {
        put_vowels(m0, mouth_in_use(out))
    } else {
        m0
    };
    let m2 = if !cfg.perfect_sync {
        put_coarse(m1, out.blink@, look_lr, look_ud)
    } else {
        m1
    };
    let m3 = put_signed(m2, "Brows up"@, "Brows down"@, out.brow_ud, single::of(single::ONE));
    let m4 = if cfg.perfect_sync {
        put_fine(m3, out, look_lr, look_ud, cfg.mirror)
    } else {
        m3
    };
    match ext::blend_named(text::lowered(text::trimmed(out.expression@))) {
        Some(name) => blends::put(m4, name, out.expression_weight),
        None => m4,
    }
}

fn face_blends(out: &FaceOutput, cfg: &VrmCfg) -> (b: Blends)
    ensures
        b.wf(),
        b@ == blends_of(*out, *cfg),
{
    let mut b = Blends::new();
    let mouth: [Single; 6] = match out.ext_mouth {
        Some(m) => m,
        None => out.mouth,
    };
    if out.ext_mouth.is_some() || !cfg.perfect_sync {
        let share: Single = single::of(decimal::N0_6);
        b.set_blend("A", mouth[0] * share);
        b.set_blend("I", mouth[1] * share);
        b.set_blend("U", mouth[2] * share);
        b.set_blend("E", mouth[3] * share);
        b.set_blend("O", mouth[4] * share);
    }
    let look_lr: Single = if cfg.mirror {
        out.look.0
    } else {
        out.look.0.negated()
    };
    let look_ud: Single = out.look.1;
    if !cfg.perfect_sync {
        b.set_blend("Blink_R", out.blink[0]);
        b.set_blend("Blink_L", out.blink[1]);
        signed_look(&mut b, "LookUp", "LookDown", look_ud, single::of(decimal::N5));
        signed_look(&mut b, "LookLeft", "LookRight", look_lr, single::of(decimal::N10));
    }
    signed_look(&mut b, "Brows up", "Brows down", out.brow_ud, single::of(single::ONE));
    if cfg.perfect_sync {
        apply_eyes(&mut b, &out.packet.features);
        apply_look(&mut b, look_lr, look_ud, cfg.mirror);
        if out.ext_mouth.is_none() {
            apply_ps_mouth(&mut b, &out.packet.features, &out.ps_geom);
        }
    }
    if let Some(name) = expr_blend(out.expression.as_str()) {
        b.set_blend(name, out.expression_weight);
    }
    b
}

/// The axes of a rotation as the avatar has them.
pub fn convert_quaternion(raw: [Single; 4]) -> (r: [Single; 4])
    ensures
        r@ == seq![raw[1].negated(), raw[0].negated(), raw[2], raw[3]],
{
    let r: [Single; 4] = [raw[1].negated(), raw[0].negated(), raw[2], raw[3]];
    proof {
        assert(r@ =~= seq![raw[1].negated(), raw[0].negated(), raw[2], raw[3]]);
    }
    r
}

/// The axes of a position as the avatar has them.
pub fn convert_translation(raw: [Single; 3]) -> (r: [Single; 3])
    ensures
        r@ == seq![raw[1], raw[0], raw[2]],
{
    let r: [Single; 3] = [raw[1], raw[0], raw[2]];
    proof {
        assert(r@ =~= seq![raw[1], raw[0], raw[2]]);
    }
    r
}

/// The head's rotation as the avatar has it.
pub open spec fn avatar_turn(raw: Seq<Single>, mirror: bool) -> Seq<Single> {
    let q = quat::unit_of(seq![raw[1].negated(), raw[0].negated(), raw[2], raw[3]]);
    if mirror {
        quat::unit_of(seq![q[0].negated(), q[1], q[2], q[3].negated()])
    } else {
        q
    }
}

/// The head's position as the avatar has it.
pub open spec fn avatar_place(raw: Seq<Single>, mirror: bool) -> Seq<Single> {
    if mirror {
        seq![raw[1].negated(), raw[0], raw[2]]
    } else {
        seq![raw[1], raw[0], raw[2]]
    }
}

fn turn_of(raw: [Single; 4], mirror: bool) -> (r: [Single; 4])
    ensures
        r@ == avatar_turn(raw@, mirror),
{
    let q: [Single; 4] = quat::normalized(convert_quaternion(raw));
    if mirror {
        let m: [Single; 4] = [q[0].negated(), q[1], q[2], q[3].negated()];
        proof {
            assert(m@ =~= seq![q[0].negated(), q[1], q[2], q[3].negated()]);
        }
        quat::normalized(m)
    } else {
        q
    }
}

fn place_of(raw: [Single; 3], mirror: bool) -> (r: [Single; 3])
    ensures
        r@ == avatar_place(raw@, mirror),
{
    let t: [Single; 3] = convert_translation(raw);
    if mirror {
        let m: [Single; 3] = [t[0].negated(), t[1], t[2]];
        proof {
            assert(m@ =~= avatar_place(raw@, mirror));
        }
        m
    } else {
        t
    }
}

/// A frame without the bones whose rotations take sines and cosines.
#[derive(Debug)]
pub struct VrmDraft {
    pub time: Double,
    pub root_pos: [Single; 3],
    pub root_rot: [Single; 4],
    pub blends: Blends,
    pub visemes: [Single; 15],
    pub expression: String,
    pub expression_weight: Single,
    pub audio: Single,
    /// Half the angles of the eyes up and down, of the eyes across and of the jaw, in radians.
    pub half_angles: [Single; 3],
    /// The cosine between no turn of the head and the turn it has.
    pub neck_cosine: Single,
}

/// The sines and cosines that a draft asks for.
#[derive(Clone, Copy, Debug)]
pub struct Trig {
    pub sin: [Single; 3],
    pub cos: [Single; 3],
    /// The sine of 0.6 times the arc cosine of `neck_cosine`.
    pub neck_rest: Single,
    /// The sine of 0.4 times the arc cosine of `neck_cosine`.
    pub neck_part: Single,
}

/// Half of an angle in degrees, in radians.
pub open spec fn half_angle(deg: Single) -> Single {
    maths::radians(deg) / single::of(decimal::N2)
}

/// The driver of an avatar: the pose of the first face is taken as its rest.
#[derive(Debug)]
pub struct VrmDriver {
    pub cfg: VrmCfg,
    pub calibrated: bool,
    pub d_r: [Single; 4],
    pub d_t: [Single; 3],
}

impl VrmDriver {
    /// A driver that has seen no face.
    pub fn new(cfg: VrmCfg) -> (r: VrmDriver)
        ensures
            r.cfg == cfg,
            !r.calibrated,
            r.d_r@ == quat::identity_of(),
            forall|i: int| 0 <= i < 3 ==> r.d_t[i] == single::of(0),
    {
        let z: Single = single::of(0);
        VrmDriver { cfg, calibrated: false, d_r: quat::identity(), d_t: [z, z, z] }
    }

    /// Maps a face. A face that was not found gives nothing and changes nothing.
    pub fn map(&mut self, out: &FaceOutput) -> (r: Option<VrmDraft>)
        ensures
            r is Some <==> out.packet.success,
            !out.packet.success ==> *final(self) == *old(self),
            final(self).cfg == old(self).cfg,
            out.packet.success ==> {
                let cfg = old(self).cfg;
                let d = r->0;
                let q = avatar_turn(out.packet.quaternion@, cfg.mirror);
                let t = avatar_place(out.packet.translation@, cfg.mirror);
                let look_lr = avatar_look(out.look.0, cfg.mirror);
                &&& final(self).calibrated
                &&& final(self).d_r@ == (if old(self).calibrated {
                    old(self).d_r@
                } else {
                    quat::conjugate_of(q)
                })
                &&& final(self).d_t@ == (if old(self).calibrated {
                    old(self).d_t@
                } else {
                    t
                })
                &&& d.time == out.packet.time
                &&& forall|i: int|
                    0 <= i < 3 ==> #[trigger] d.root_pos[i] == (t[i] - final(self).d_t[i])
                        * cfg.translation_scale
                &&& d.root_rot@ == quat::product_of(q, final(self).d_r@)
                &&& d.blends.wf()
                &&& d.blends@ == blends_of(*out, cfg)
                &&& d.visemes == out.visemes
                &&& d.expression@ == out.expression@
                &&& d.expression_weight == out.expression_weight
                &&& d.audio == out.audio
                &&& d.half_angles@ == seq![
                    half_angle(single::of(decimal::M5) * out.look.1),
                    half_angle(single::of(decimal::M10) * look_lr),
                    half_angle(
                        single::of(decimal::N20) * (mouth_in_use(*out)[5] * single::of(decimal::N0_6)),
                    ),
                ]
                &&& d.neck_cosine == quat::dot_of(
                    quat::identity_of(),
                    quat::near_side_of(d.root_rot@),
                )
            },
    {
        let pkt = out.packet;
        if !pkt.success {
            return None;
        }
        let cfg: VrmCfg = self.cfg;
        let q: [Single; 4] = turn_of(pkt.quaternion, cfg.mirror);
        let t: [Single; 3] = place_of(pkt.translation, cfg.mirror);
        if !self.calibrated {
            self.d_r = quat::conjugate(q);
            self.d_t = t;
            self.calibrated = true;
        }
        let k: Single = cfg.translation_scale;
        let root_pos: [Single; 3] = [
            (t[0] - self.d_t[0]) * k,
            (t[1] - self.d_t[1]) * k,
            (t[2] - self.d_t[2]) * k,
        ];
        let head: [Single; 4] = quat::product(q, self.d_r);
        let b = face_blends(out, &cfg);
        let mouth: [Single; 6] = match out.ext_mouth {
            Some(m) => m,
            None => out.mouth,
        };
        let jaw_w: Single = mouth[5] * single::of(decimal::N0_6);
        let look_lr: Single = if cfg.mirror {
            out.look.0
        } else {
            out.look.0.negated()
        };
        let two: Single = single::of(decimal::N2);
        let half_angles: [Single; 3] = [
            maths::radians(single::of(decimal::M5) * out.look.1) / two,
            maths::radians(single::of(decimal::M10) * look_lr) / two,
            maths::radians(single::of(decimal::N20) * jaw_w) / two,
        ];
        proof {
            assert(half_angles@ =~= seq![
                half_angle(single::of(decimal::M5) * out.look.1),
                half_angle(single::of(decimal::M10) * look_lr),
                half_angle(single::of(decimal::N20) * jaw_w),
            ]);
        }
        let neck_cosine: Single = quat::dot(quat::identity(), quat::near_side(head));
        Some(
            VrmDraft {
                time: pkt.time,
                root_pos,
                root_rot: head,
                blends: b,
                visemes: out.visemes,
                expression: out.expression.clone(),
                expression_weight: out.expression_weight,
                audio: out.audio,
                half_angles,
                neck_cosine,
            },
        )
    }
}

/// The rotation about the first axis with the given sine and cosine of half its angle.
pub open spec fn about_x(sin: Single, cos: Single) -> Seq<Single> {
    seq![single::of(single::ONE) * sin, single::of(0) * sin, single::of(0) * sin, cos]
}

/// The rotation about the second axis with the given sine and cosine of half its angle.
pub open spec fn about_y(sin: Single, cos: Single) -> Seq<Single> {
    seq![single::of(0) * sin, single::of(single::ONE) * sin, single::of(0) * sin, cos]
}

/// Whether a bone has the given name and rotation, and no position of its own.
pub open spec fn is_bone(b: BonePose, name: Seq<char>, rot: Seq<Single>) -> bool {
    b.name@ == name && b.rot@ == rot && b.pos@ == seq![single::of(0), single::of(0), single::of(0)]
}

fn bone(name: &'static str, rot: [Single; 4]) -> (b: BonePose)
    ensures
        is_bone(b, name@, rot@),
{
    let z: Single = single::of(0);
    let b = BonePose { name, pos: [z, z, z], rot };
    proof {
        assert(b.pos@ =~= seq![single::of(0), single::of(0), single::of(0)]);
    }
    b
}

impl VrmDraft {
    /// Adds the bones: the head, the neck two fifths of the way, both eyes and the jaw.
    pub fn finish(self, trig: &Trig) -> (r: VrmFrame)
        requires
            self.blends.wf(),
        ensures
            r.time == self.time,
            r.root_pos == self.root_pos,
            r.root_rot == self.root_rot,
            r.blends == self.blends,
            r.blends.wf(),
            r.visemes == self.visemes,
            r.expression == self.expression,
            r.expression_weight == self.expression_weight,
            r.audio == self.audio,
            ({
                let eye = quat::product_of(
                    about_x(trig.sin[0], trig.cos[0]),
                    about_y(trig.sin[1], trig.cos[1]),
                );
                &&& r.bones@.len() == 5
                &&& is_bone(r.bones@[0], "Head"@, self.root_rot@)
                &&& is_bone(
                    r.bones@[1],
                    "Neck"@,
                    quat::part_way_of(self.root_rot@, trig.neck_rest, trig.neck_part),
                )
                &&& is_bone(r.bones@[2], "LeftEye"@, eye)
                &&& is_bone(r.bones@[3], "RightEye"@, eye)
                &&& is_bone(r.bones@[4], "Jaw"@, about_x(trig.sin[2], trig.cos[2]))
            }),
    {
        let one: Single = single::of(single::ONE);
        let z: Single = single::of(0);
        let (s, c) = (trig.sin, trig.cos);
        let ud: [Single; 4] = [one * s[0], z * s[0], z * s[0], c[0]];
        let lr: [Single; 4] = [z * s[1], one * s[1], z * s[1], c[1]];
        let jaw: [Single; 4] = [one * s[2], z * s[2], z * s[2], c[2]];
        proof {
            assert(ud@ =~= about_x(s[0], c[0]));
            assert(lr@ =~= about_y(s[1], c[1]));
            assert(jaw@ =~= about_x(s[2], c[2]));
        }
        let eye: [Single; 4] = quat::product(ud, lr);
        let neck: [Single; 4] = quat::part_way(self.root_rot, trig.neck_rest, trig.neck_part);
        let mut bones: Vec<BonePose> = Vec::new();
        bones.push(bone("Head", self.root_rot));
        bones.push(bone("Neck", neck));
        bones.push(bone("LeftEye", eye));
        bones.push(bone("RightEye", eye));
        bones.push(bone("Jaw", jaw));
        VrmFrame {
            time: self.time,
            root_pos: self.root_pos,
            root_rot: self.root_rot,
            bones,
            blends: self.blends,
            visemes: self.visemes,
            expression: self.expression,
            expression_weight: self.expression_weight,
            audio: self.audio,
        }
    }
}

/// A quaternion whose numbers differ in sign alone.
proof fn lemma_signs(p: Seq<Single>, q: Seq<Single>)
    requires
        unit::all_small(q),
        p.len() == 4,
        forall|i: int| 0 <= i < 4 ==> #[trigger] p[i] == q[i] || p[i] == q[i].negated(),
    ensures
        unit::all_small(p),
        unit::squares(p) == unit::squares(q),
{
    assert forall|i: int| 0 <= i < 4 implies unit::small(#[trigger] p[i]) && order::val(p[i])
        * order::val(p[i]) == order::val(q[i]) * order::val(q[i]) by {
        let (x, y) = (order::val(p[i]), order::val(q[i]));
        order::lemma_val_negated(q[i]);
        assert(unit::small(q[i]));
        assert(x * x == y * y) by (nonlinear_arith)
            requires
                x == y || x == -y,
        ;
    }
    assert(order::val(p[0]) * order::val(p[0]) == order::val(q[0]) * order::val(q[0]));
    assert(order::val(p[1]) * order::val(p[1]) == order::val(q[1]) * order::val(q[1]));
    assert(order::val(p[2]) * order::val(p[2]) == order::val(q[2]) * order::val(q[2]));
    assert(order::val(p[3]) * order::val(p[3]) == order::val(q[3]) * order::val(q[3]));
}

/// The avatar's turn has length one, whatever the length of the head's turn is from a half on.
pub proof fn lemma_avatar_turn_is_unit(turn: Seq<Single>, mirror: bool)
    requires
        unit::all_small(turn),
        4 * unit::squares(turn) >= unit::unit() * unit::unit(),
    ensures
        unit::is_unit(avatar_turn(turn, mirror)),
        unit::all_small(avatar_turn(turn, mirror)),
{
    let swapped = seq![turn[1], turn[0], turn[2], turn[3]];
    assert(unit::all_small(swapped)) by {
        assert(unit::small(turn[0]) && unit::small(turn[1]) && unit::small(turn[2]) && unit::small(
            turn[3],
        ));
    }
    assert(unit::squares(swapped) == unit::squares(turn));
    let p = seq![turn[1].negated(), turn[0].negated(), turn[2], turn[3]];
    lemma_signs(p, swapped);
    unit::lemma_normalized(p);
    let q = quat::unit_of(p);
    if mirror {
        let m = seq![q[0].negated(), q[1], q[2], q[3].negated()];
        lemma_signs(m, q);
        unit::lemma_normalized(m);
    }
}

/// The first face that is mapped is at rest: its root stands at nothing, and its head is not turned
/// but for rounding: of the axis, the first number is zero and the others are below 2^-20, and the
/// fourth number is one within a four-thousandth.
pub proof fn lemma_first_face_rests(turn: Seq<Single>, place: Seq<Single>, cfg: VrmCfg)
    requires
        cfg.translation_scale.is_finite(),
        forall|i: int| 0 <= i < 3 ==> (#[trigger] place[i]).is_finite(),
        unit::all_small(turn),
        4 * unit::squares(turn) >= unit::unit() * unit::unit(),
    ensures
        ({
            let t = avatar_place(place, cfg.mirror);
            forall|i: int|
                0 <= i < 3 ==> ((#[trigger] t[i] - t[i]) * cfg.translation_scale).mag() == 0
        }),
        ({
            let q = avatar_turn(turn, cfg.mirror);
            let r = quat::product_of(q, quat::conjugate_of(q));
            &&& r[0].mag() == 0
            &&& -pow2(129) < order::val(r[1]) < pow2(129)
            &&& -pow2(129) < order::val(r[2]) < pow2(129)
            &&& 4000 * (order::val(r[3]) - unit::unit()) <= unit::unit()
            &&& 4000 * (unit::unit() - order::val(r[3])) <= unit::unit()
        }),
{
    lemma_avatar_turn_is_unit(turn, cfg.mirror);
    unit::lemma_back_to_rest(avatar_turn(turn, cfg.mirror));
    let t = avatar_place(place, cfg.mirror);
    assert forall|i: int| 0 <= i < 3 implies ((#[trigger] t[i] - t[i]) * cfg.translation_scale).mag()
        == 0 by {
        assert(place[0].is_finite() && place[1].is_finite() && place[2].is_finite());
        order::lemma_val_negated(place[1]);
        order::lemma_less_itself(t[i]);
        order::lemma_times_nothing(t[i] - t[i], cfg.translation_scale);
    }
}

} // verus!
