//! The slow adjustment of the solid face to the person, and the features that are read off it.

use crate::features;
use crate::features::{FeatureExtractor, FeatureVec, Turns};
use crate::geom;
use crate::ieee::decimal;
use crate::ieee::maths;
use crate::ieee::single;
use crate::ieee::single::Single;
use crate::pnp;
use crate::pnp::{project, rodrigues, Camera};
use vstd::prelude::*;

verus! {

/// Points that stay as deep as they are while the left side of the face is adjusted.
pub const RIGHT_LOCK: [usize; 28] = [
    0,
    1,
    2,
    3,
    4,
    5,
    6,
    7,
    17,
    18,
    19,
    20,
    21,
    31,
    32,
    36,
    37,
    38,
    39,
    40,
    41,
    48,
    49,
    56,
    57,
    58,
    59,
    65,
];

/// Points that stay as deep as they are while the right side of the face is adjusted.
pub const LEFT_LOCK: [usize; 28] = [
    9,
    10,
    11,
    12,
    13,
    14,
    15,
    16,
    22,
    23,
    24,
    25,
    26,
    34,
    35,
    42,
    43,
    44,
    45,
    46,
    47,
    51,
    52,
    53,
    54,
    61,
    62,
    63,
];

/// Points of the left side that can be adjusted.
pub const LEFT_ELIGIBLE: [usize; 37] = [
    8,
    9,
    10,
    11,
    12,
    13,
    14,
    15,
    16,
    22,
    23,
    24,
    25,
    26,
    27,
    28,
    29,
    33,
    34,
    35,
    42,
    43,
    44,
    45,
    46,
    47,
    50,
    51,
    52,
    53,
    54,
    55,
    60,
    61,
    62,
    63,
    64,
];

/// Points of the right side that can be adjusted.
pub const RIGHT_ELIGIBLE: [usize; 37] = [
    0,
    1,
    2,
    3,
    4,
    5,
    6,
    7,
    8,
    17,
    18,
    19,
    20,
    21,
    27,
    28,
    29,
    31,
    32,
    33,
    36,
    37,
    38,
    39,
    40,
    41,
    48,
    49,
    50,
    55,
    56,
    57,
    58,
    59,
    60,
    64,
    65,
];

/// What of a solid face a frame can adjust.
#[derive(Clone, Copy, Debug, PartialEq, Eq, Structural)]
pub enum Plan {
    /// Nothing.
    Skip,
    /// Places across and up and down, in a face seen from the front.
    Front,
    /// Depths of the left side.
    Left,
    /// Depths of the right side.
    Right,
}

pub open spec fn plan_spec(euler: [Single; 3]) -> Plan {
    if euler[0].gt(single::of(decimal::M165)) && euler[0].lt(single::of(decimal::N145)) {
        Plan::Skip
    } else if euler[1].gt(single::of(decimal::M10)) && euler[1].lt(single::of(decimal::N20)) {
        Plan::Front
    } else if euler[2].gt(single::of(decimal::N120)) || euler[2].lt(single::of(decimal::N60)) {
        Plan::Skip
    } else if euler[1].lt(single::of(decimal::M10)) {
        Plan::Left
    } else {
        Plan::Right
    }
}

/// What a face with the given angles can adjust.
#[verifier::when_used_as_spec(plan_spec)]
pub fn plan(euler: [Single; 3]) -> (r: Plan)
    ensures
        r == plan_spec(euler),
{
    if euler[0].gt(single::of(decimal::M165)) && euler[0].lt(single::of(decimal::N145)) {
        Plan::Skip
    } else if euler[1].gt(single::of(decimal::M10)) && euler[1].lt(single::of(decimal::N20)) {
        Plan::Front
    } else if euler[2].gt(single::of(decimal::N120)) || euler[2].lt(single::of(decimal::N60)) {
        Plan::Skip
    } else if euler[1].lt(single::of(decimal::M10)) {
        Plan::Left
    } else {
        Plan::Right
    }
}

fn listed(v: &[usize], i: usize) -> (r: bool)
    ensures
        r == v@.contains(i),
{
    let mut k: usize = 0;
    while k < v.len()
        invariant
            k <= v@.len(),
            forall|j: int| 0 <= j < k ==> v@[j] != i,
        decreases v@.len() - k,
    {
        if v[k] == i {
            assert(v@[k as int] == i);
            return true;
        }
        k = k + 1;
    }
    false
}

/// Whether a plan can adjust point `i`.
pub open spec fn eligible(p: Plan, i: usize) -> bool {
    match p {
        Plan::Skip => false,
        Plan::Front => i < 66 && i != 30,
        Plan::Left => LEFT_ELIGIBLE@.contains(i),
        Plan::Right => RIGHT_ELIGIBLE@.contains(i),
    }
}

fn is_eligible(p: Plan, i: usize) -> (r: bool)
    ensures
        r == eligible(p, i),
{
    let left: [usize; 37] = LEFT_ELIGIBLE;
    let right: [usize; 37] = RIGHT_ELIGIBLE;
    match p {
        Plan::Skip => false,
        Plan::Front => i < 66 && i != 30,
        Plan::Left => listed(left.as_slice(), i),
        Plan::Right => listed(right.as_slice(), i),
    }
}

/// Whether a plan leaves the depth of point `i` as it is.
pub open spec fn locked(p: Plan, i: usize) -> bool {
    match p {
        Plan::Left => RIGHT_LOCK@.contains(i),
        Plan::Right => LEFT_LOCK@.contains(i),
        _ => false,
    }
}

fn is_locked(p: Plan, i: usize) -> (r: bool)
    ensures
        r == locked(p, i),
{
    let left: [usize; 28] = LEFT_LOCK;
    let right: [usize; 28] = RIGHT_LOCK;
    match p {
        Plan::Left => listed(right.as_slice(), i),
        Plan::Right => listed(left.as_slice(), i),
        _ => false,
    }
}

/// Which of the two counts of a point a plan adds to: 0 for places, 1 for depths.
pub open spec fn kind(p: Plan) -> int {
    match p {
        Plan::Left => 1,
        Plan::Right => 1,
        _ => 0,
    }
}

/// The factor that coordinate `c` of point `i` is tried with, from a number drawn between zero and
/// one: within a hundredth of one, and one for what the plan leaves as it is.
pub open spec fn factor(p: Plan, i: usize, c: int, drawn: Single) -> Single {
    let one = single::of(single::ONE);
    let depth = p == Plan::Left || p == Plan::Right;
    if i == 30 || (p == Plan::Front && c == 2) || (depth && c != 2) || (depth && locked(p, i)) {
        one
    } else {
        one + drawn * single::of(decimal::N0_02) - single::of(decimal::N0_01)
    }
}

fn factor_of(p: Plan, i: usize, c: usize, drawn: Single) -> (r: Single)
    ensures
        r == factor(p, i, c as int, drawn),
{
    let one: Single = single::of(single::ONE);
    let depth: bool = p == Plan::Left || p == Plan::Right;
    if i == 30 || (p == Plan::Front && c == 2) || (depth && c != 2) || (depth && is_locked(p, i)) {
        one
    } else {
        one + drawn * single::of(decimal::N0_02) - single::of(decimal::N0_01)
    }
}

/// A point as it is tried.
pub open spec fn tried(p: Plan, i: usize, face: Seq<Single>, drawn: Seq<Single>) -> Seq<Single> {
    seq![
        face[0] * factor(p, i, 0, drawn[0]),
        face[1] * factor(p, i, 1, drawn[1]),
        face[2] * factor(p, i, 2, drawn[2]),
    ]
}

fn try_point(p: Plan, i: usize, face: [Single; 3], drawn: [Single; 3]) -> (r: [Single; 3])
    ensures
        r@ == tried(p, i, face@, drawn@),
{
    let r: [Single; 3] = [
        face[0] * factor_of(p, i, 0, drawn[0]),
        face[1] * factor_of(p, i, 1, drawn[1]),
        face[2] * factor_of(p, i, 2, drawn[2]),
    ];
    proof {
        assert(r@ =~= tried(p, i, face@, drawn@));
    }
    r
}

/// How far a point is seen from its landmark.
pub open spec fn miss(q: Seq<Single>, lm: [Single; 3]) -> Single {
    let dr = q[0] - lm[0];
    let dc = q[1] - lm[1];
    (dr * dr + dc * dc).sqrt()
}

fn miss_of(q: [Single; 2], lm: [Single; 3]) -> (r: Single)
    ensures
        r == miss(q@, lm),
{
    let dr: Single = q[0] - lm[0];
    let dc: Single = q[1] - lm[1];
    (dr * dr + dc * dc).sqrt()
}

/// Whether a point is adjusted: it can be, its kind of adjustment is not ahead of the other by 75,
/// and it is seen closer to its landmark as it is tried than as it is.
pub open spec fn improves(
    p: Plan,
    i: int,
    face: Seq<Single>,
    drawn: Seq<Single>,
    counts: Seq<Single>,
    m: Seq<Seq<Single>>,
    t: Seq<Single>,
    cam: Camera,
    lm: [Single; 3],
) -> bool {
    &&& eligible(p, i as usize)
    &&& counts[kind(p)].lt(counts[1 - kind(p)] + single::of(decimal::N75))
    &&& miss(pnp::projected(tried(p, i as usize, face, drawn), m, t, cam), lm).lt(
        miss(pnp::projected(face, m, t, cam), lm),
    )
}

/// A coordinate after an adjustment: `w` of it stays.
pub open spec fn settle(v: Single, new: Single, w: Single) -> Single {
    v * w + new * (single::of(single::ONE) - w)
}

/// How much of a point stays: nothing where its landmark is sure enough.
pub open spec fn staying(conf: Single) -> Single {
    let one = single::of(single::ONE);
    one - (if conf.gt(single::of(decimal::N0_7)) {
        one
    } else {
        conf
    })
}

/// A point after an adjustment towards `new`.
pub open spec fn settled(face: Seq<Single>, new: Seq<Single>, conf: Single) -> Seq<Single> {
    let w = staying(conf);
    seq![settle(face[0], new[0], w), settle(face[1], new[1], w), settle(face[2], new[2], w)]
}

fn settle_point(face: [Single; 3], new: [Single; 3], conf: Single) -> (r: [Single; 3])
    ensures
        r@ == settled(face@, new@, conf),
{
    let one: Single = single::of(single::ONE);
    let w: Single = one - (if conf.gt(single::of(decimal::N0_7)) {
        one
    } else {
        conf
    });
    let r: [Single; 3] = [
        face[0] * w + new[0] * (one - w),
        face[1] * w + new[1] * (one - w),
        face[2] * w + new[2] * (one - w),
    ];
    proof {
        assert(r@ =~= settled(face@, new@, conf));
    }
    r
}

/// What an adjustment goes by: the plan, the numbers drawn, the pose and the landmarks.
#[verifier::ext_equal]
pub ghost struct Trial {
    pub plan: Plan,
    pub drawn: Seq<[Single; 3]>,
    pub m: Seq<Seq<Single>>,
    pub t: Seq<Single>,
    pub cam: Camera,
    pub lms: Seq<[Single; 3]>,
}

/// Whether point `i` of a solid face is adjusted.
#[verifier::opaque]
pub open spec fn point_improves(
    x: Trial,
    face: Seq<[Single; 3]>,
    counts: Seq<[Single; 2]>,
    i: int,
) -> bool {
    improves(x.plan, i, face[i]@, x.drawn[i]@, counts[i]@, x.m, x.t, x.cam, x.lms[i])
}

/// The counts of point `i` after a trial.
pub open spec fn count_after(
    x: Trial,
    face: Seq<[Single; 3]>,
    counts: Seq<[Single; 2]>,
    i: int,
    c: int,
) -> Single {
    if c == kind(x.plan) && point_improves(x, face, counts, i) {
        counts[i][c] + single::of(single::ONE)
    } else {
        counts[i][c]
    }
}

/// Whether any point is adjusted.
pub open spec fn any_improves(x: Trial, face: Seq<[Single; 3]>, counts: Seq<[Single; 2]>) -> bool {
    exists|i: int| 0 <= i < 66 && #[trigger] point_improves(x, face, counts, i)
}

/// Point `i` of a solid face after a trial. Where any point is adjusted, all settle that have not
/// been adjusted too often.
pub open spec fn point_after(
    x: Trial,
    face: Seq<[Single; 3]>,
    counts: Seq<[Single; 2]>,
    i: int,
) -> Seq<Single> {
    if i < 66 && any_improves(x, face, counts) && !count_after(x, face, counts, i, kind(x.plan)).gt(
        single::of(decimal::N7500),
    ) {
        settled(
            face[i]@,
            if point_improves(x, face, counts, i) {
                tried(x.plan, i as usize, face[i]@, x.drawn[i]@)
            } else {
                face[i]@
            },
            x.lms[i][2],
        )
    } else {
        face[i]@
    }
}

/// Tries the numbers drawn on a solid face.
pub fn try_shapes(
    face: &mut Vec<[Single; 3]>,
    counts: &mut Vec<[Single; 2]>,
    lms: &[[Single; 3]],
    p: Plan,
    drawn: &[[Single; 3]],
    m: &[[Single; 3]; 3],
    t: [Single; 3],
    cam: &Camera,
)
    requires
        old(face)@.len() >= 66,
        old(counts)@.len() == 66,
        lms@.len() >= 66,
        drawn@.len() >= 66,
    ensures
        final(face)@.len() == old(face)@.len(),
        final(counts)@.len() == 66,
        ({
            let x = Trial {
                plan: p,
                drawn: drawn@,
                m: geom::rows(*m),
                t: t@,
                cam: *cam,
                lms: lms@,
            };
            &&& forall|i: int|
                0 <= i < old(face)@.len() ==> (#[trigger] final(face)@[i])@ == point_after(
                    x,
                    old(face)@,
                    old(counts)@,
                    i,
                )
            &&& forall|i: int, c: int|
                0 <= i < 66 && 0 <= c < 2 ==> #[trigger] final(counts)@[i][c] == count_after(
                    x,
                    old(face)@,
                    old(counts)@,
                    i,
                    c,
                )
        }),
{
    let ghost x = Trial { plan: p, drawn: drawn@, m: geom::rows(*m), t: t@, cam: *cam, lms: lms@ };
    let ghost face0 = face@;
    let ghost counts0 = counts@;
    let ut: usize = match p {
        Plan::Left => 1,
        Plan::Right => 1,
        _ => 0,
    };
    let mut changed: bool = false;
    let mut new: Vec<[Single; 3]> = Vec::new();
    let mut i: usize = 0;
    while i < 66
        invariant
            i <= 66,
            ut == kind(p),
            ut < 2,
            x == (Trial { plan: p, drawn: drawn@, m: geom::rows(*m), t: t@, cam: *cam, lms: lms@ }),
            face@ == face0,
            face0.len() >= 66,
            counts0.len() == 66,
            counts@.len() == 66,
            lms@.len() >= 66,
            drawn@.len() >= 66,
            new@.len() == i,
            forall|k: int| i <= k < 66 ==> counts@[k] == counts0[k],
            forall|k: int, c: int|
                0 <= k < i && 0 <= c < 2 ==> #[trigger] counts@[k][c] == count_after(
                    x,
                    face0,
                    counts0,
                    k,
                    c,
                ),
            forall|k: int|
                0 <= k < i ==> (#[trigger] new@[k])@ == (if point_improves(x, face0, counts0, k) {
                    tried(p, k as usize, face0[k]@, drawn@[k]@)
                } else {
                    face0[k]@
                }),
            changed == exists|k: int| 0 <= k < i && #[trigger] point_improves(x, face0, counts0, k),
        decreases 66 - i,
    {
        let f: [Single; 3] = face[i];
        let q: [Single; 3] = try_point(p, i, f, drawn[i]);
        let n: [Single; 2] = counts[i];
        let better: bool = is_eligible(p, i) && n[ut].lt(n[1 - ut] + single::of(decimal::N75))
            && miss_of(project(q, m, t, cam), lms[i]).lt(miss_of(project(f, m, t, cam), lms[i]));
        proof {
            reveal(point_improves);
            assert(better == point_improves(x, face0, counts0, i as int));
        }
        if better {
            let one: Single = single::of(single::ONE);
            counts.set(
                i,
                if ut == 0 {
                    [n[0] + one, n[1]]
                } else {
                    [n[0], n[1] + one]
                },
            );
            new.push(q);
            changed = true;
            assert(point_improves(x, face0, counts0, i as int));
        } else {
            new.push(f);
        }
        i = i + 1;
    }
    assert(changed == any_improves(x, face0, counts0));
    if changed {
        let mut i: usize = 0;
        while i < 66
            invariant
                i <= 66,
                ut == kind(p),
                ut < 2,
                x.plan == p,
                x.lms == lms@,
                x.drawn == drawn@,
                any_improves(x, face0, counts0),
                face@.len() == face0.len(),
                face0.len() >= 66,
                counts@.len() == 66,
                lms@.len() >= 66,
                new@.len() == 66,
                forall|k: int, c: int|
                    0 <= k < 66 && 0 <= c < 2 ==> #[trigger] counts@[k][c] == count_after(
                        x,
                        face0,
                        counts0,
                        k,
                        c,
                    ),
                forall|k: int|
                    0 <= k < 66 ==> (#[trigger] new@[k])@ == (if point_improves(x, face0, counts0, k) {
                        tried(p, k as usize, face0[k]@, drawn@[k]@)
                    } else {
                        face0[k]@
                    }),
                forall|k: int|
                    0 <= k < i ==> (#[trigger] face@[k])@ == point_after(x, face0, counts0, k),
                forall|k: int| i <= k < face0.len() ==> #[trigger] face@[k] == face0[k],
            decreases 66 - i,
        {
            let n: [Single; 2] = counts[i];
            proof {
                assert(counts@[i as int][ut as int] == count_after(x, face0, counts0, i as int, ut as int));
            }
            if !n[ut].gt(single::of(decimal::N7500)) {
                let f: [Single; 3] = face[i];
                let q: [Single; 3] = new[i];
                face.set(i, settle_point(f, q, lms[i][2]));
            }
            i = i + 1;
        }
    }
}

/// A point after a shift by the nose and a turn: across and up and down.
pub open spec fn upright(p: [Single; 3], nose: [Single; 3], c: Single, s: Single) -> (Single, Single) {
    let x = p[0] - nose[0];
    let y = p[1] - nose[1];
    (x * c + y * s, x.negated() * s + y * c)
}

/// How high the bridge of the nose is, compared with the solid face.
pub open spec fn height_ratio(pts: Seq<[Single; 3]>, face: Seq<[Single; 3]>, c: Single, s: Single) -> Single {
    let y = |i: int| upright(pts[i], pts[30], c, s).1;
    ((y(27) - y(28)) / (face[27][1] - face[28][1]) + (y(28) - y(29)) / (face[28][1] - face[29][1]) + (y(
        29,
    ) - y(30)) / (face[29][1] - face[30][1])) / single::of(decimal::N3)
}

/// How wide jaw and eyes are, compared with the solid face.
pub open spec fn width_ratio(pts: Seq<[Single; 3]>, face: Seq<[Single; 3]>, c: Single, s: Single) -> Single {
    let x = |i: int| upright(pts[i], pts[30], c, s).0;
    ((x(0) - x(16)).abs() / (face[0][0] - face[16][0]).abs() + (x(36) - x(39)).abs() / (face[36][0]
        - face[39][0]).abs() + (x(42) - x(45)).abs() / (face[42][0] - face[45][0]).abs()) / single::of(
        decimal::N3,
    )
}

/// A value over a ratio that is not next to zero.
pub open spec fn over(v: Single, ratio: Single) -> Single {
    if ratio.abs().gt(single::of(pnp::TINY_DEPTH)) {
        v / ratio
    } else {
        v
    }
}

/// A point of a face, upright, about the tip of the nose, and in the size of the solid face.
pub open spec fn normal_point(
    pts: Seq<[Single; 3]>,
    face: Seq<[Single; 3]>,
    c: Single,
    s: Single,
    i: int,
) -> Seq<Single> {
    let p = upright(pts[i], pts[30], c, s);
    seq![
        over(p.0, width_ratio(pts, face, c, s)),
        over(p.1, height_ratio(pts, face, c, s)),
        pts[i][2],
    ]
}

/// The line from the tip of the nose to its root, whose arc tangent `normal_angle` takes.
pub fn nose_line(pts: &[[Single; 3]; 70]) -> (r: (Single, Single))
    ensures
        r.0 == (pts[27][0] - pts[30][0]) - (pts[30][0] - pts[30][0]),
        r.1 == (pts[27][1] - pts[30][1]) - (pts[30][1] - pts[30][1]),
{
    (
        (pts[27][0] - pts[30][0]) - (pts[30][0] - pts[30][0]),
        (pts[27][1] - pts[30][1]) - (pts[30][1] - pts[30][1]),
    )
}

/// The angle that `normalize_pts3d` takes the cosine and sine of, from the arc tangent of the line
/// of the nose.
pub fn normal_angle(arc: Single) -> (r: Single)
    requires
        arc.is_nan() || arc.abs().lt(single::of(maths::TURN)),
    ensures
        r == geom::wrapped(arc) - maths::radians(single::of(decimal::N90)),
{
    geom::angle(arc) - maths::radians(single::of(decimal::N90))
}

/// Sets the points of a face upright, about the tip of the nose, and in the size of the solid face.
/// `c` and `s` are the cosine and sine of the angle that it is turned by.
pub fn normalize_pts3d(pts: &mut [[Single; 3]; 70], face_3d: &[[Single; 3]], c: Single, s: Single)
    requires
        face_3d@.len() >= 46,
    ensures
        forall|i: int|
            0 <= i < 70 ==> (#[trigger] final(pts)[i])@ == normal_point(
                old(pts)@,
                face_3d@,
                c,
                s,
                i,
            ),
{
    let ghost before = pts@;
    let nose: [Single; 3] = pts[30];
    let mut i: usize = 0;
    while i < 70
        invariant
            i <= 70,
            nose == before[30],
            forall|k: int|
                0 <= k < i ==> (#[trigger] pts[k])@ == seq![
                    upright(before[k], nose, c, s).0,
                    upright(before[k], nose, c, s).1,
                    before[k][2],
                ],
            forall|k: int| i <= k < 70 ==> #[trigger] pts[k] == before[k],
        decreases 70 - i,
    {
        let p: [Single; 3] = pts[i];
        let x: Single = p[0] - nose[0];
        let y: Single = p[1] - nose[1];
        let q: [Single; 3] = [x * c + y * s, x.negated() * s + y * c, p[2]];
        proof {
            assert(q@ =~= seq![
                upright(before[i as int], nose, c, s).0,
                upright(before[i as int], nose, c, s).1,
                before[i as int][2],
            ]);
        }
        pts[i] = q;
        i = i + 1;
    }
    let three: Single = single::of(decimal::N3);
    let ghost mid = pts@;
    assert forall|k: int| 0 <= k < 70 implies (#[trigger] mid[k])[0] == upright(before[k], nose, c, s).0
        && mid[k][1] == upright(before[k], nose, c, s).1 && mid[k][2] == before[k][2] by {
        assert(pts[k]@[0] == upright(before[k], nose, c, s).0);
        assert(pts[k]@[1] == upright(before[k], nose, c, s).1);
        assert(pts[k]@[2] == before[k][2]);
    }
    let mean_v: Single = ((pts[27][1] - pts[28][1]) / (face_3d[27][1] - face_3d[28][1]) + (pts[28][1]
        - pts[29][1]) / (face_3d[28][1] - face_3d[29][1]) + (pts[29][1] - pts[30][1]) / (face_3d[29][1]
        - face_3d[30][1])) / three;
    let mean_h: Single = ((pts[0][0] - pts[16][0]).abs() / (face_3d[0][0] - face_3d[16][0]).abs() + (
    pts[36][0] - pts[39][0]).abs() / (face_3d[36][0] - face_3d[39][0]).abs() + (pts[42][0]
        - pts[45][0]).abs() / (face_3d[42][0] - face_3d[45][0]).abs()) / three;
    proof {
        assert(mean_v == height_ratio(before, face_3d@, c, s));
        assert(mean_h == width_ratio(before, face_3d@, c, s));
    }
    let tall: bool = mean_v.abs().gt(single::of(pnp::TINY_DEPTH));
    let wide: bool = mean_h.abs().gt(single::of(pnp::TINY_DEPTH));
    let mut i: usize = 0;
    while i < 70
        invariant
            i <= 70,
            before == old(pts)@,
            nose == before[30],
            mean_v == height_ratio(before, face_3d@, c, s),
            mean_h == width_ratio(before, face_3d@, c, s),
            tall == mean_v.abs().gt(single::of(pnp::TINY_DEPTH)),
            wide == mean_h.abs().gt(single::of(pnp::TINY_DEPTH)),
            forall|k: int|
                0 <= k < 70 ==> (#[trigger] mid[k])[0] == upright(before[k], nose, c, s).0
                    && mid[k][1] == upright(before[k], nose, c, s).1 && mid[k][2] == before[k][2],
            forall|k: int|
                0 <= k < i ==> (#[trigger] pts[k])@ == normal_point(before, face_3d@, c, s, k),
            forall|k: int| i <= k < 70 ==> #[trigger] pts[k] == mid[k],
        decreases 70 - i,
    {
        let p: [Single; 3] = pts[i];
        let x: Single = if wide {
            p[0] / mean_h
        } else {
            p[0]
        };
        let y: Single = if tall {
            p[1] / mean_v
        } else {
            p[1]
        };
        let q: [Single; 3] = [x, y, p[2]];
        proof {
            assert(p == mid[i as int]);
            assert(q@ =~= normal_point(before, face_3d@, c, s, i as int));
        }
        pts[i] = q;
        i = i + 1;
    }
}

/// Whether a frame is good enough to adjust the solid face by.
pub open spec fn good_frame(conf: Single, pnp_error: Single) -> bool {
    !conf.lt(single::of(decimal::N0_4)) && !pnp_error.gt(single::of(decimal::N300))
}

/// Adjusts the solid face to a frame, unless the frame is poor or the face is fixed: with the
/// smallest network, or where the solid face is not to change. `drawn` holds a number between zero
/// and one for each coordinate, `cos` and `sin` belong to the angle of the rotation vector.
pub fn adjust_3d(
    face_3d: &mut Vec<[Single; 3]>,
    counts: &mut Vec<[Single; 2]>,
    lms: &[[Single; 3]],
    euler: [Single; 3],
    rotation: [Single; 3],
    cos: Single,
    sin: Single,
    translation: [Single; 3],
    cam: &Camera,
    conf: Single,
    pnp_error: Single,
    static_model: bool,
    model_type: i32,
    drawn: &[[Single; 3]],
)
    requires
        old(face_3d)@.len() >= 66,
        old(counts)@.len() == 66,
        lms@.len() >= 66,
        drawn@.len() >= 66,
    ensures
        final(face_3d)@.len() == old(face_3d)@.len(),
        final(counts)@.len() == 66,
        ({
            let p = plan(euler);
            let x = Trial {
                plan: p,
                drawn: drawn@,
                m: pnp::rotation_rows(rotation@, cos, sin),
                t: translation@,
                cam: *cam,
                lms: lms@,
            };
            if !good_frame(conf, pnp_error) || model_type == -1 || static_model || p == Plan::Skip {
                &&& final(face_3d)@ == old(face_3d)@
                &&& final(counts)@ == old(counts)@
            } else {
                &&& forall|i: int|
                    0 <= i < old(face_3d)@.len() ==> (#[trigger] final(face_3d)@[i])@ == point_after(
                        x,
                        old(face_3d)@,
                        old(counts)@,
                        i,
                    )
                &&& forall|i: int, c: int|
                    0 <= i < 66 && 0 <= c < 2 ==> #[trigger] final(counts)@[i][c] == count_after(
                        x,
                        old(face_3d)@,
                        old(counts)@,
                        i,
                        c,
                    )
            }
        }),
{
    if conf.lt(single::of(decimal::N0_4)) || pnp_error.gt(single::of(decimal::N300)) {
        return;
    }
    if model_type == -1 || static_model {
        return;
    }
    let p: Plan = plan(euler);
    if p == Plan::Skip {
        return;
    }
    let m: [[Single; 3]; 3] = rodrigues(rotation, cos, sin);
    try_shapes(face_3d, counts, lms, p, drawn, &m, translation, cam);
}

/// How far an eye is open, from its feature.
pub open spec fn openness(f: Single) -> Single {
    let one = single::of(single::ONE);
    one - f.negated().clamp(single::of(0), one)
}

/// Reads the features off the points of a face: none at level 0, all at level 2. Gives them and how
/// far the right and the left eye are open.
pub fn apply_features(
    pts: &[[Single; 3]; 70],
    level: i32,
    extractor: &mut FeatureExtractor,
    eye_conf: Option<Single>,
    now: Single,
    turns: &Turns,
) -> (r: Option<(FeatureVec, [Single; 2])>)
    ensures
        r is Some <==> level >= 1,
        level < 1 ==> *final(extractor) == *old(extractor),
        level >= 1 ==> {
            let (f, open) = r->0;
            &&& features::updated(
                *old(extractor),
                *final(extractor),
                f@,
                pts@,
                level == 2,
                eye_conf,
                now,
                *turns,
            )
            &&& open[0] == openness(f[1])
            &&& open[1] == openness(f[0])
        },
{
    if level < 1 {
        return None;
    }
    let f: FeatureVec = extractor.update_ex(pts.as_slice(), level == 2, eye_conf, now, turns);
    let one: Single = single::of(single::ONE);
    let z: Single = single::of(0);
    let open: [Single; 2] = [
        one - f[1].negated().clamp(z, one),
        one - f[0].negated().clamp(z, one),
    ];
    Some((f, open))
}

} // verus!
