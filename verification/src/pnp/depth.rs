//! The points of a face in space, from its landmarks and its pose.

use crate::geom;
use crate::ieee::decimal;
use crate::ieee::maths;
use crate::ieee::single;
use crate::ieee::single::Single;
use crate::pnp;
use crate::pnp::{rodrigues, safe_depth, times, try_inverse, Camera};
use vstd::prelude::*;

verus! {

/// What is known of a face once its pose is.
#[derive(Debug)]
pub struct DepthResult {
    pub success: bool,
    pub quaternion: [Single; 4],
    pub euler: [Single; 3],
    pub pnp_error: Single,
    pub pts_3d: [[Single; 3]; 70],
    pub lms: Vec<[Single; 3]>,
    pub rotation: [Single; 3],
    pub translation: [Single; 3],
}

/// The pairs whose arc tangents are the angles of a rotation matrix, and whether the third angle
/// counts.
pub open spec fn angle_pairs(m: Seq<Seq<Single>>) -> (Seq<(Single, Single)>, bool) {
    let sy = (m[0][0] * m[0][0] + m[1][0] * m[1][0]).sqrt();
    let free = sy.gt(single::of(decimal::N0_000001));
    (
        seq![
            if free {
                (m[2][1], m[2][2])
            } else {
                (m[1][2].negated(), m[1][1])
            },
            (m[2][0].negated(), sy),
            (m[1][0], m[0][0]),
        ],
        free,
    )
}

/// The pairs whose arc tangents `euler_from_rmat` takes.
pub fn euler_pairs(m: &[[Single; 3]; 3]) -> (r: [(Single, Single); 3])
    ensures
        r@ == angle_pairs(geom::rows(*m)).0,
{
    let sy: Single = (m[0][0] * m[0][0] + m[1][0] * m[1][0]).sqrt();
    let r: [(Single, Single); 3] = [
        if sy.gt(single::of(decimal::N0_000001)) {
            (m[2][1], m[2][2])
        } else {
            (m[1][2].negated(), m[1][1])
        },
        (m[2][0].negated(), sy),
        (m[1][0], m[0][0]),
    ];
    proof {
        assert(r@ =~= angle_pairs(geom::rows(*m)).0);
    }
    r
}

/// The angles of a rotation matrix in degrees, from the arc tangents of its pairs.
pub open spec fn euler_of(m: Seq<Seq<Single>>, arcs: Seq<Single>) -> Seq<Single> {
    seq![
        maths::degrees(arcs[0]),
        maths::degrees(arcs[1]),
        if angle_pairs(m).1 {
            maths::degrees(arcs[2])
        } else {
            single::of(0)
        },
    ]
}

/// The angles of a rotation matrix in degrees, from the arc tangents of its pairs.
pub fn euler_from_rmat(m: &[[Single; 3]; 3], arcs: [Single; 3]) -> (r: [Single; 3])
    ensures
        r@ == euler_of(geom::rows(*m), arcs@),
{
    let sy: Single = (m[0][0] * m[0][0] + m[1][0] * m[1][0]).sqrt();
    let r: [Single; 3] = [
        maths::degrees(arcs[0]),
        maths::degrees(arcs[1]),
        if sy.gt(single::of(decimal::N0_000001)) {
            maths::degrees(arcs[2])
        } else {
            single::of(0)
        },
    ];
    proof {
        assert(r@ =~= euler_of(geom::rows(*m), arcs@));
    }
    r
}

/// The landmarks with those of both pupils behind them.
pub open spec fn with_pupils(lms: Seq<[Single; 3]>, eyes: [[Single; 4]; 2], i: int, c: int) -> Single {
    if i < lms.len() {
        lms[i][c]
    } else {
        eyes[i - lms.len()][c + 1]
    }
}

/// The landmarks with those of both pupils behind them.
pub fn add_pupils(lms66: &[[Single; 3]], eyes: &[[Single; 4]; 2]) -> (r: Vec<[Single; 3]>)
    requires
        lms66@.len() + 2 <= usize::MAX,
    ensures
        r@.len() == lms66@.len() + 2,
        forall|i: int, c: int|
            0 <= i < r@.len() && 0 <= c < 3 ==> #[trigger] r@[i][c] == with_pupils(
                lms66@,
                *eyes,
                i,
                c,
            ),
{
    let mut r: Vec<[Single; 3]> = Vec::new();
    let mut i: usize = 0;
    while i < lms66.len()
        invariant
            i <= lms66@.len(),
            r@.len() == i,
            forall|k: int| 0 <= k < i ==> r@[k] == lms66@[k],
        decreases lms66@.len() - i,
    {
        r.push(lms66[i]);
        i = i + 1;
    }
    r.push([eyes[0][1], eyes[0][2], eyes[0][3]]);
    r.push([eyes[1][1], eyes[1][2], eyes[1][3]]);
    r
}

/// The solid points and the landmarks that a pose is fitted to. A point that the solid face does
/// not have is the origin.
pub fn contour(face_3d: &[[Single; 3]], lms: &[[Single; 3]], idx: &[usize]) -> (r: (
    Vec<[Single; 3]>,
    Vec<[Single; 2]>,
))
    requires
        forall|k: int| 0 <= k < idx@.len() ==> (#[trigger] idx@[k]) < lms@.len(),
    ensures
        r.0@.len() == idx@.len(),
        r.1@.len() == idx@.len(),
        forall|k: int, c: int|
            0 <= k < idx@.len() && 0 <= c < 3 ==> #[trigger] r.0@[k][c] == (if idx@[k] < face_3d@.len() {
                face_3d@[idx@[k] as int][c]
            } else {
                single::of(0)
            }),
        forall|k: int, c: int|
            0 <= k < idx@.len() && 0 <= c < 2 ==> #[trigger] r.1@[k][c] == lms@[idx@[k] as int][c],
{
    let z: Single = single::of(0);
    let mut obj: Vec<[Single; 3]> = Vec::new();
    let mut img: Vec<[Single; 2]> = Vec::new();
    let mut k: usize = 0;
    while k < idx.len()
        invariant
            k <= idx@.len(),
            z == single::of(0),
            forall|j: int| 0 <= j < idx@.len() ==> (#[trigger] idx@[j]) < lms@.len(),
            obj@.len() == k,
            img@.len() == k,
            forall|j: int, c: int|
                0 <= j < k && 0 <= c < 3 ==> #[trigger] obj@[j][c] == (if idx@[j] < face_3d@.len() {
                    face_3d@[idx@[j] as int][c]
                } else {
                    single::of(0)
                }),
            forall|j: int, c: int|
                0 <= j < k && 0 <= c < 2 ==> #[trigger] img@[j][c] == lms@[idx@[j] as int][c],
        decreases idx@.len() - k,
    {
        let i: usize = idx[k];
        if i < face_3d.len() {
            obj.push(face_3d[i]);
        } else {
            obj.push([z, z, z]);
        }
        let p: [Single; 3] = lms[i];
        img.push([p[0], p[1]]);
        k = k + 1;
    }
    (obj, img)
}

/// A pose: rotation matrix with its inverse, place, and the camera with its inverse.
#[derive(Clone, Copy, Debug)]
pub struct View3 {
    pub m: [[Single; 3]; 3],
    pub inv_m: [[Single; 3]; 3],
    pub t: [Single; 3],
    pub k: [[Single; 3]; 3],
    pub inv_k: [[Single; 3]; 3],
}

/// A point of the solid face in the camera, before it is divided by its depth.
#[verifier::opaque]
pub open spec fn in_camera(v: View3, p: Seq<Single>) -> Seq<Single> {
    pnp::mat_vec(geom::rows(v.k), pnp::vec_sum(pnp::mat_vec(geom::rows(v.m), p), v.t@))
}

fn to_camera(v: &View3, p: [Single; 3]) -> (r: [Single; 3])
    ensures
        r@ == in_camera(*v, p@),
{
    proof {
        reveal(in_camera);
    }
    let x: [Single; 3] = times(&v.m, p);
    let y: [Single; 3] = [x[0] + v.t[0], x[1] + v.t[1], x[2] + v.t[2]];
    proof {
        assert(y@ =~= pnp::vec_sum(pnp::mat_vec(geom::rows(v.m), p@), v.t@));
    }
    times(&v.k, y)
}

/// The point of the face that is seen at a place of the picture, at the given depth.
#[verifier::opaque]
pub open spec fn in_space(v: View3, row: Single, col: Single, depth: Single) -> Seq<Single> {
    let q = pnp::mat_vec(geom::rows(v.inv_k), seq![row * depth, col * depth, depth]);
    pnp::mat_vec(geom::rows(v.inv_m), seq![q[0] - v.t[0], q[1] - v.t[1], q[2] - v.t[2]])
}

fn to_space(v: &View3, row: Single, col: Single, depth: Single) -> (r: [Single; 3])
    ensures
        r@ == in_space(*v, row, col, depth),
{
    proof {
        reveal(in_space);
    }
    let p: [Single; 3] = [row * depth, col * depth, depth];
    proof {
        assert(p@ =~= seq![row * depth, col * depth, depth]);
    }
    let q: [Single; 3] = times(&v.inv_k, p);
    let y: [Single; 3] = [q[0] - v.t[0], q[1] - v.t[1], q[2] - v.t[2]];
    proof {
        assert(y@ =~= seq![q[0] - v.t[0], q[1] - v.t[1], q[2] - v.t[2]]);
    }
    times(&v.inv_m, y)
}

/// A landmark in space, at the depth of its solid point.
pub open spec fn landmark_in_space(v: View3, p: [Single; 3], solid: [Single; 3]) -> Seq<Single> {
    let z = in_camera(v, solid@)[2];
    in_space(
        v,
        p[0],
        p[1],
        if z.same(single::of(0)) {
            single::of(decimal::N0_000001)
        } else {
            z
        },
    )
}

/// The squared error of a landmark.
pub open spec fn landmark_error(v: View3, p: [Single; 3], solid: [Single; 3]) -> Single {
    let x = in_camera(v, solid@);
    let z = safe_depth(x[2]);
    let dr = p[0] - x[0] / z;
    let dc = p[1] - x[1] / z;
    dr * dr + dc * dc
}

fn error_of(v: &View3, p: [Single; 3], solid: [Single; 3]) -> (r: Single)
    ensures
        r == landmark_error(*v, p, solid),
{
    let x: [Single; 3] = to_camera(v, solid);
    let z: Single = safe_depth(x[2]);
    let dr: Single = p[0] - x[0] / z;
    let dc: Single = p[1] - x[1] / z;
    dr * dr + dc * dc
}

/// The sum of the squared errors of the first `n` landmarks.
pub open spec fn jaw_error(v: View3, lms: Seq<[Single; 3]>, face: Seq<[Single; 3]>, n: int) -> Single
    decreases n,
{
    if n <= 0 {
        single::of(0)
    } else {
        jaw_error(v, lms, face, n - 1) + landmark_error(v, lms[n - 1], face[n - 1])
    }
}

/// The error of a pose: over the jaw and the tip of the nose, as a mean over the `n` points that it
/// was fitted to.
pub open spec fn pose_error(v: View3, lms: Seq<[Single; 3]>, face: Seq<[Single; 3]>, n: int) -> Single {
    let e = jaw_error(v, lms, face, 17) + landmark_error(v, lms[30], face[30]);
    let e = if e.is_nan() {
        single::of(decimal::N9999999)
    } else {
        e
    };
    (e / (single::of(decimal::N2) * Single::from_int(n))).sqrt()
}

fn error_over(v: &View3, lms: &[[Single; 3]], face: &[[Single; 3]], n: usize) -> (r: Single)
    requires
        lms@.len() >= 31,
        face@.len() >= 31,
    ensures
        r == pose_error(*v, lms@, face@, n as int),
{
    let mut e: Single = single::of(0);
    let mut i: usize = 0;
    while i < 17
        invariant
            i <= 17,
            lms@.len() >= 31,
            face@.len() >= 31,
            e == jaw_error(*v, lms@, face@, i as int),
        decreases 17 - i,
    {
        e = e + error_of(v, lms[i], face[i]);
        i = i + 1;
    }
    e = e + error_of(v, lms[30], face[30]);
    if e.is_nan() {
        e = single::of(decimal::N9999999);
    }
    (e / (single::of(decimal::N2) * single::from_u64(n as u64))).sqrt()
}

/// The distance of two landmarks in the picture.
pub open spec fn dist2_spec(a: [Single; 3], b: [Single; 3]) -> Single {
    let dr = a[0] - b[0];
    let dc = a[1] - b[1];
    (dr * dr + dc * dc).sqrt()
}

/// The distance of two landmarks in the picture.
#[verifier::when_used_as_spec(dist2_spec)]
pub fn dist2(a: [Single; 3], b: [Single; 3]) -> (r: Single)
    ensures
        r == dist2_spec(a, b),
{
    let dr: Single = a[0] - b[0];
    let dc: Single = a[1] - b[1];
    (dr * dr + dc * dc).sqrt()
}

/// The distance of two points in space.
pub open spec fn dist3_of(a: Seq<Single>, b: Seq<Single>) -> Single {
    let x = a[0] - b[0];
    let y = a[1] - b[1];
    let z = a[2] - b[2];
    (x * x + y * y + z * z).sqrt()
}

/// The distance of two points in space.
pub fn dist3(a: [Single; 3], b: [Single; 3]) -> (r: Single)
    ensures
        r == dist3_of(a@, b@),
{
    let x: Single = a[0] - b[0];
    let y: Single = a[1] - b[1];
    let z: Single = a[2] - b[2];
    (x * x + y * y + z * z).sqrt()
}

/// The middle of an eyeball, from the corners of the eye.
#[verifier::opaque]
pub open spec fn eyeball(a: Seq<Single>, b: Seq<Single>) -> Seq<Single> {
    let two = single::of(decimal::N2);
    seq![
        (a[0] + b[0]) / two,
        (a[1] + b[1]) / two,
        (a[2] + b[2]) / two - single::of(decimal::N0_385) * dist3_of(a, b),
    ]
}

fn eyeball_of(a: [Single; 3], b: [Single; 3]) -> (r: [Single; 3])
    ensures
        r@ == eyeball(a@, b@),
{
    proof {
        reveal(eyeball);
    }
    let two: Single = single::of(decimal::N2);
    let r: [Single; 3] = [
        (a[0] + b[0]) / two,
        (a[1] + b[1]) / two,
        (a[2] + b[2]) / two - single::of(decimal::N0_385) * dist3(a, b),
    ];
    proof {
        assert(r@ =~= eyeball(a@, b@));
    }
    r
}

/// A pupil in space: at the depth of the point between the corners of the eye that divides them as
/// the pupil does in the picture. The origin where pupil and corners coincide.
#[verifier::opaque]
pub open spec fn pupil(
    v: View3,
    p: [Single; 3],
    corner_a: [Single; 3],
    corner_b: [Single; 3],
    a: Seq<Single>,
    b: Seq<Single>,
) -> Seq<Single> {
    let d1 = dist2(p, corner_a);
    let d2 = dist2(p, corner_b);
    let d = d1 + d2;
    if d.lt(single::of(pnp::TINY_DEPTH)) {
        seq![single::of(0), single::of(0), single::of(0)]
    } else {
        let between = seq![
            (a[0] * d1 + b[0] * d2) / d,
            (a[1] * d1 + b[1] * d2) / d,
            (a[2] * d1 + b[2] * d2) / d,
        ];
        in_space(v, p[0], p[1], in_camera(v, between)[2])
    }
}

fn pupil_of(
    v: &View3,
    p: [Single; 3],
    corner_a: [Single; 3],
    corner_b: [Single; 3],
    a: [Single; 3],
    b: [Single; 3],
) -> (r: [Single; 3])
    ensures
        r@ == pupil(*v, p, corner_a, corner_b, a@, b@),
{
    proof {
        reveal(pupil);
    }
    let d1: Single = dist2(p, corner_a);
    let d2: Single = dist2(p, corner_b);
    let d: Single = d1 + d2;
    if d.lt(single::of(pnp::TINY_DEPTH)) {
        let z: Single = single::of(0);
        let r: [Single; 3] = [z, z, z];
        proof {
            assert(r@ =~= seq![single::of(0), single::of(0), single::of(0)]);
        }
        return r;
    }
    let between: [Single; 3] = [
        (a[0] * d1 + b[0] * d2) / d,
        (a[1] * d1 + b[1] * d2) / d,
        (a[2] * d1 + b[2] * d2) / d,
    ];
    proof {
        assert(between@ =~= seq![
            (a[0] * d1 + b[0] * d2) / d,
            (a[1] * d1 + b[1] * d2) / d,
            (a[2] * d1 + b[2] * d2) / d,
        ]);
    }
    let depth: Single = to_camera(v, between)[2];
    to_space(v, p[0], p[1], depth)
}

/// A point, or the origin where one of its coordinates is not a number.
pub open spec fn cleaned(p: Seq<Single>) -> Seq<Single> {
    if p[0].is_nan() || p[1].is_nan() || p[2].is_nan() {
        seq![single::of(0), single::of(0), single::of(0)]
    } else {
        p
    }
}

fn clean(p: [Single; 3]) -> (r: [Single; 3])
    ensures
        r@ == cleaned(p@),
{
    if p[0].is_nan() || p[1].is_nan() || p[2].is_nan() {
        let z: Single = single::of(0);
        let r: [Single; 3] = [z, z, z];
        proof {
            assert(r@ =~= seq![single::of(0), single::of(0), single::of(0)]);
        }
        r
    } else {
        p
    }
}

/// Point `i` of a face in space: the landmarks, then both pupils, then both eyeballs.
pub open spec fn raw_point(v: View3, lms: Seq<[Single; 3]>, face: Seq<[Single; 3]>, i: int) -> Seq<Single> {
    let at = |k: int| landmark_in_space(v, lms[k], face[k]);
    if i < 66 {
        at(i)
    } else if i == 66 {
        pupil(v, lms[66], lms[36], lms[39], at(36), at(39))
    } else if i == 67 {
        pupil(v, lms[67], lms[42], lms[45], at(42), at(45))
    } else if i == 68 {
        eyeball(at(36), at(39))
    } else {
        eyeball(at(42), at(45))
    }
}

fn lift(v: &View3, lms: &[[Single; 3]], face: &[[Single; 3]]) -> (r: [[Single; 3]; 70])
    requires
        lms@.len() >= 68,
        face@.len() >= 66,
    ensures
        forall|i: int|
            0 <= i < 70 ==> (#[trigger] r[i])@ == cleaned(raw_point(*v, lms@, face@, i)),
{
    let z: Single = single::of(0);
    let mut pts: [[Single; 3]; 70] = [[z, z, z]; 70];
    let mut i: usize = 0;
    while i < 66
        invariant
            i <= 66,
            lms@.len() >= 68,
            face@.len() >= 66,
            forall|k: int|
                0 <= k < i ==> (#[trigger] pts[k])@ == landmark_in_space(*v, lms@[k], face@[k]),
        decreases 66 - i,
    {
        let p: [Single; 3] = lms[i];
        let mut depth: Single = to_camera(v, face[i])[2];
        if depth.same(single::of(0)) {
            depth = single::of(decimal::N0_000001);
        }
        pts[i] = to_space(v, p[0], p[1], depth);
        i = i + 1;
    }
    let p66: [Single; 3] = pupil_of(v, lms[66], lms[36], lms[39], pts[36], pts[39]);
    let p67: [Single; 3] = pupil_of(v, lms[67], lms[42], lms[45], pts[42], pts[45]);
    let p68: [Single; 3] = eyeball_of(pts[36], pts[39]);
    let p69: [Single; 3] = eyeball_of(pts[42], pts[45]);
    pts[66] = p66;
    pts[67] = p67;
    pts[68] = p68;
    pts[69] = p69;
    assert forall|k: int| 0 <= k < 70 implies (#[trigger] pts[k])@ == raw_point(*v, lms@, face@, k) by {}
    let ghost raw = pts;
    let mut i: usize = 0;
    while i < 70
        invariant
            i <= 70,
            forall|k: int| 0 <= k < 70 ==> (#[trigger] raw[k])@ == raw_point(*v, lms@, face@, k),
            forall|k: int| 0 <= k < i ==> (#[trigger] pts[k])@ == cleaned(raw[k]@),
            forall|k: int| i <= k < 70 ==> #[trigger] pts[k] == raw[k],
        decreases 70 - i,
    {
        pts[i] = clean(pts[i]);
        i = i + 1;
    }
    assert forall|k: int| 0 <= k < 70 implies (#[trigger] pts[k])@ == cleaned(
        raw_point(*v, lms@, face@, k),
    ) by {
        assert(raw[k]@ == raw_point(*v, lms@, face@, k));
    }
    pts
}

/// Whether `v` is the view of a pose.
pub open spec fn is_view(v: View3, r: Seq<Single>, cos: Single, sin: Single, t: Seq<Single>, cam: Camera) -> bool {
    &&& geom::rows(v.m) == pnp::rotation_rows(r, cos, sin)
    &&& pnp::inverse_of(geom::rows(v.m)) == Some(geom::rows(v.inv_m))
    &&& v.t@ == t
    &&& geom::rows(v.k) == cam.camera_rows()
    &&& geom::rows(v.inv_k) == cam.inverse_rows()
}

/// Whether `r` says that a face has no pose.
pub open spec fn is_failure(r: DepthResult, lms: Seq<[Single; 3]>) -> bool {
    let z = single::of(0);
    &&& !r.success
    &&& forall|i: int| 0 <= i < 4 ==> r.quaternion[i] == z
    &&& forall|i: int| 0 <= i < 3 ==> r.euler[i] == z && r.rotation[i] == z && r.translation[i] == z
    &&& r.pnp_error == single::of(decimal::N99999)
    &&& forall|i: int, c: int| 0 <= i < 70 && 0 <= c < 3 ==> #[trigger] r.pts_3d[i][c] == z
    &&& r.lms@ == lms
}

/// Whether `r` describes a face with the given view.
pub open spec fn is_success(
    r: DepthResult,
    v: View3,
    lms: Seq<[Single; 3]>,
    face: Seq<[Single; 3]>,
    fitted: int,
    arcs: Seq<Single>,
    rotation: Seq<Single>,
    translation: Seq<Single>,
) -> bool {
    &&& r.success
    &&& r.quaternion@ == geom::quaternion_of(geom::rows(v.m))
    &&& r.euler@ == euler_of(geom::rows(v.m), arcs)
    &&& r.pnp_error == pose_error(v, lms, face, fitted)
    &&& forall|i: int| 0 <= i < 70 ==> (#[trigger] r.pts_3d[i])@ == cleaned(raw_point(v, lms, face, i))
    &&& r.lms@ == lms
    &&& r.rotation@ == rotation
    &&& r.translation@ == translation
}

fn failure(lms: Vec<[Single; 3]>) -> (r: DepthResult)
    ensures
        is_failure(r, lms@),
{
    let z: Single = single::of(0);
    let row: [Single; 3] = [z, z, z];
    let mut pts: [[Single; 3]; 70] = [row; 70];
    let mut i: usize = 0;
    while i < 70
        invariant
            i <= 70,
            z == single::of(0),
            forall|c: int| 0 <= c < 3 ==> row[c] == z,
            forall|k: int| 0 <= k < i ==> #[trigger] pts[k] == row,
        decreases 70 - i,
    {
        pts[i] = row;
        i = i + 1;
    }
    DepthResult {
        success: false,
        quaternion: [z, z, z, z],
        euler: row,
        pnp_error: single::of(decimal::N99999),
        pts_3d: pts,
        lms,
        rotation: row,
        translation: row,
    }
}

/// What is known of a face from its landmarks, with the pupils behind them, and its pose, if it has
/// one: rotation vector with the cosine and sine of its angle, place, and the arc tangents of the
/// pairs of its matrix. `fitted` is the number of points that the pose was fitted to.
pub fn estimate_depth(
    lms: Vec<[Single; 3]>,
    face_3d: &[[Single; 3]],
    fitted: usize,
    cam: &Camera,
    pose: Option<([Single; 3], [Single; 3])>,
    cos: Single,
    sin: Single,
    arcs: [Single; 3],
) -> (r: DepthResult)
    requires
        lms@.len() >= 68,
        face_3d@.len() >= 66,
    ensures
        match pose {
            None => is_failure(r, lms@),
            Some(p) => match pnp::inverse_of(pnp::rotation_rows(p.0@, cos, sin)) {
                None => is_failure(r, lms@),
                Some(_) => exists|v: View3|
                    #![trigger is_view(v, p.0@, cos, sin, p.1@, *cam)]
                    is_view(v, p.0@, cos, sin, p.1@, *cam) && is_success(
                        r,
                        v,
                        lms@,
                        face_3d@,
                        fitted as int,
                        arcs@,
                        p.0@,
                        p.1@,
                    ),
            },
        },
{
    let (rotation, translation) = match pose {
        Some(p) => p,
        None => {
            return failure(lms);
        },
    };
    let m: [[Single; 3]; 3] = rodrigues(rotation, cos, sin);
    let inv_m: [[Single; 3]; 3] = match try_inverse(&m) {
        Some(x) => x,
        None => {
            return failure(lms);
        },
    };
    let v = View3 { m, inv_m, t: translation, k: cam.matrix(), inv_k: cam.inverse() };
    let pts_3d: [[Single; 3]; 70] = lift(&v, lms.as_slice(), face_3d);
    let pnp_error: Single = error_over(&v, lms.as_slice(), face_3d, fitted);
    assert(is_view(v, rotation@, cos, sin, translation@, *cam));
    DepthResult {
        success: true,
        quaternion: geom::matrix_to_quaternion(&m),
        euler: euler_from_rmat(&m, arcs),
        pnp_error,
        pts_3d,
        lms,
        rotation,
        translation,
    }
}

} // verus!
