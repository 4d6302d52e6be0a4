//! The solid face and its pose: camera, projection, fit, depth and the slow adjustment of the
//! solid face to the person.

use crate::geom;
use crate::ieee::decimal;
use crate::ieee::single;
use crate::ieee::single::Single;
use vstd::prelude::*;

pub mod adjust;
pub mod depth;
pub mod inverse;
pub mod linear;
pub mod seen;
pub mod solve;
pub mod space;
pub mod turn;
pub mod unproject;

pub use adjust::{adjust_3d, apply_features, normalize_pts3d};
pub use depth::{estimate_depth, euler_from_rmat, DepthResult};
pub use solve::{init_pose, PnpSolver};

verus! {

/// The words of the points of the solid face.
pub const FACE_3D: [[u32; 3]; 70] = [
    [0x3ee9_0cf5, 0x3e9a_0f03, 0xbf43_b1a6],
    [0x3ee5_e32d, 0x3e2b_00f5, 0xbf43_e069],
    [0x3edf_f707, 0x3cb9_97fc, 0xbf3d_409d],
    [0x3ed4_7f43, 0xbdb6_26f0, 0xbf3f_797c],
    [0x3ec7_3b35, 0xbe6d_f508, 0xbf34_6d03],
    [0x3eab_54a3, 0xbeb8_f7c7, 0xbf1d_9726],
    [0x3e87_06fa, 0xbeeb_8665, 0xbefb_a32a],
    [0x3e26_5070, 0xbf0e_db86, 0xbead_cbc2],
    [0x0000_0000, 0xbf1e_ff09, 0xbe93_184d],
    [0xbe26_5070, 0xbf0e_db86, 0xbead_cbc2],
    [0xbe87_06fa, 0xbeeb_8665, 0xbefb_a32a],
    [0xbeab_54a3, 0xbeb8_f7c7, 0xbf1d_9726],
    [0xbec7_3b35, 0xbe6d_f508, 0xbf34_6d03],
    [0xbed4_7f43, 0xbdb6_26f0, 0xbf3f_797c],
    [0xbedf_f707, 0x3cb9_97fc, 0xbf3d_409d],
    [0xbee5_e32d, 0x3e2b_00f5, 0xbf43_e069],
    [0xbee9_0cf5, 0x3e9a_0f03, 0xbf43_b1a6],
    [0x3ec5_642f, 0x3ece_3be0, 0xbe9e_bc65],
    [0x3ea4_f6f6, 0x3eed_caf7, 0xbe80_4925],
    [0x3e82_1915, 0x3eed_ac1f, 0xbe55_2c8a],
    [0x3e3f_5c46, 0x3ee4_e525, 0xbe14_c97a],
    [0x3df7_9073, 0x3ed8_ddaf, 0xbde2_d4a6],
    [0xbdf7_9073, 0x3ed8_ddaf, 0xbde2_d4a6],
    [0xbe3f_5c46, 0x3ee4_e525, 0xbe14_c97a],
    [0xbe82_1915, 0x3eed_ac1f, 0xbe55_2c8a],
    [0xbea4_f6f6, 0x3eed_caf7, 0xbe80_4925],
    [0xbec5_642f, 0x3ece_3be0, 0xbe9e_bc65],
    [0x0000_0000, 0x3e96_2fb1, 0xbe0c_e252],
    [0x0000_0000, 0x3e47_812d, 0xbd8d_a2c4],
    [0x0000_0000, 0x3dd4_ac2c, 0xbc15_f184],
    [0x0000_0000, 0x0000_0000, 0x0000_0000],
    [0x3da5_1f6e, 0xbd29_1118, 0xbe09_6183],
    [0x3d3e_372f, 0xbd6c_3cdb, 0xbdd2_ecc0],
    [0x0000_0000, 0xbd8c_ce70, 0xbdb9_6fd7],
    [0xbd3e_372f, 0xbd6c_3cdb, 0xbdd2_ecc0],
    [0xbda5_1f6e, 0xbd29_1118, 0xbe09_6183],
    [0x3ea1_be53, 0x3e98_bfb1, 0xbe91_f999],
    [0x3e8c_ede0, 0x3ea0_1d16, 0xbe7a_6d7a],
    [0x3e34_a0c3, 0x3e9f_b24c, 0xbe60_775f],
    [0x3e06_6116, 0x3e91_a316, 0xbe6f_dc63],
    [0x3e3c_8b40, 0x3e85_3642, 0xbe68_076a],
    [0x3e8f_11ea, 0x3e88_e3d0, 0xbe7e_676f],
    [0xbe06_6116, 0x3e91_a316, 0xbe6f_dc63],
    [0xbe34_a0c3, 0x3e9f_b24c, 0xbe60_775f],
    [0xbe8c_ede0, 0x3ea0_1d16, 0xbe7a_6d7a],
    [0xbea1_be53, 0x3e98_bfb1, 0xbe91_f999],
    [0xbe8f_11ea, 0x3e88_e3d0, 0xbe7e_676f],
    [0xbe3c_8b40, 0x3e85_3642, 0xbe68_076a],
    [0x3df8_203f, 0xbe56_0120, 0xbe24_75fa],
    [0x3d29_653b, 0xbe47_26de, 0xbdc4_ef79],
    [0x0000_0000, 0xbe52_1ac0, 0xbdaa_98c8],
    [0xbd29_653b, 0xbe47_26de, 0xbdc4_ef79],
    [0xbdf8_203f, 0xbe56_0120, 0xbe24_75fa],
    [0xbe07_804f, 0xbe94_eb56, 0xbe3f_8eb8],
    [0xbd83_5aad, 0xbea6_97ed, 0xbe22_bcfc],
    [0x0000_0000, 0xbeaf_ff07, 0xbde9_5207],
    [0x3d83_5aad, 0xbea6_97ed, 0xbe22_bcfc],
    [0x3e07_804f, 0xbe94_eb56, 0xbe3f_8eb8],
    [0x3e39_d64e, 0xbe79_13ba, 0xbe6c_d5f9],
    [0x3dac_07ef, 0xbe75_7892, 0xbe1e_fb8d],
    [0x0000_0000, 0xbe83_1a0a, 0xbdc2_afd7],
    [0xbdac_07ef, 0xbe75_7892, 0xbe1e_fb8d],
    [0xbe39_d64e, 0xbe79_13ba, 0xbe6c_d5f9],
    [0xbd97_a039, 0xbe80_5a6e, 0xbe35_9a50],
    [0x0000_0000, 0xbe87_a6fc, 0xbde6_17bd],
    [0x3d97_a039, 0xbe80_5a6e, 0xbe35_9a50],
    [0x3e84_1744, 0x3e8d_5a5c, 0xbe61_476b],
    [0xbe84_1744, 0x3e8d_5a5c, 0xbe61_476b],
    [0x3e84_1744, 0x3e8d_5a5c, 0xbea6_2e2b],
    [0xbe84_1744, 0x3e8d_5a5c, 0xbea6_2e2b],
];

/// The landmarks that the pose is fitted to.
pub const CONTOUR_PTS: [usize; 14] = [0, 1, 8, 15, 16, 27, 28, 29, 30, 31, 32, 33, 34, 35];

/// The landmarks that the pose is fitted to with the smallest network.
pub const CONTOUR_PTS_T: [usize; 8] = [0, 2, 8, 14, 16, 27, 30, 33];

/// The points of the solid face.
pub fn solid_face() -> (r: Vec<[Single; 3]>)
    ensures
        r@.len() == 70,
        forall|i: int, c: int|
            0 <= i < 70 && 0 <= c < 3 ==> #[trigger] r@[i][c] == single::of(FACE_3D[i][c]),
{
    let mut r: Vec<[Single; 3]> = Vec::new();
    let mut i: usize = 0;
    while i < 70
        invariant
            i <= 70,
            r@.len() == i,
            forall|k: int, c: int|
                0 <= k < i && 0 <= c < 3 ==> #[trigger] r@[k][c] == single::of(FACE_3D[k][c]),
        decreases 70 - i,
    {
        let p: [u32; 3] = FACE_3D[i];
        r.push([single::of(p[0]), single::of(p[1]), single::of(p[2])]);
        i = i + 1;
    }
    r
}

/// A product of a matrix, given by its rows, and a vector.
pub open spec fn mat_vec(m: Seq<Seq<Single>>, v: Seq<Single>) -> Seq<Single> {
    Seq::new(3, |i: int| (m[i][0] * v[0] + m[i][1] * v[1]) + m[i][2] * v[2])
}

/// A product of a matrix and a vector.
pub fn times(m: &[[Single; 3]; 3], v: [Single; 3]) -> (r: [Single; 3])
    ensures
        r@ == mat_vec(geom::rows(*m), v@),
{
    let r: [Single; 3] = [
        (m[0][0] * v[0] + m[0][1] * v[1]) + m[0][2] * v[2],
        (m[1][0] * v[0] + m[1][1] * v[1]) + m[1][2] * v[2],
        (m[2][0] * v[0] + m[2][1] * v[1]) + m[2][2] * v[2],
    ];
    proof {
        assert(r@ =~= mat_vec(geom::rows(*m), v@));
    }
    r
}

/// A sum of two vectors.
pub open spec fn vec_sum(a: Seq<Single>, b: Seq<Single>) -> Seq<Single> {
    seq![a[0] + b[0], a[1] + b[1], a[2] + b[2]]
}

/// The inverse of a matrix, given by its rows, by its cofactors; none where its determinant is
/// zero.
pub open spec fn inverse_of(m: Seq<Seq<Single>>) -> Option<Seq<Seq<Single>>> {
    let a = m[1][1] * m[2][2] - m[2][1] * m[1][2];
    let b = m[1][0] * m[2][2] - m[2][0] * m[1][2];
    let c = m[1][0] * m[2][1] - m[2][0] * m[1][1];
    let d = m[0][0] * a - m[0][1] * b + m[0][2] * c;
    if d.same(single::of(0)) {
        None
    } else {
        Some(
            seq![
                seq![
                    a / d,
                    (m[0][2] * m[2][1] - m[2][2] * m[0][1]) / d,
                    (m[0][1] * m[1][2] - m[1][1] * m[0][2]) / d,
                ],
                seq![
                    b.negated() / d,
                    (m[0][0] * m[2][2] - m[2][0] * m[0][2]) / d,
                    (m[0][2] * m[1][0] - m[1][2] * m[0][0]) / d,
                ],
                seq![
                    c / d,
                    (m[0][1] * m[2][0] - m[2][1] * m[0][0]) / d,
                    (m[0][0] * m[1][1] - m[1][0] * m[0][1]) / d,
                ],
            ],
        )
    }
}

/// The inverse of a matrix.
pub fn try_inverse(m: &[[Single; 3]; 3]) -> (r: Option<[[Single; 3]; 3]>)
    ensures
        match r {
            Some(x) => inverse_of(geom::rows(*m)) == Some(geom::rows(x)),
            None => inverse_of(geom::rows(*m)) is None,
        },
{
    let a: Single = m[1][1] * m[2][2] - m[2][1] * m[1][2];
    let b: Single = m[1][0] * m[2][2] - m[2][0] * m[1][2];
    let c: Single = m[1][0] * m[2][1] - m[2][0] * m[1][1];
    let d: Single = m[0][0] * a - m[0][1] * b + m[0][2] * c;
    if d.same(single::of(0)) {
        return None;
    }
    let x: [[Single; 3]; 3] = [
        [
            a / d,
            (m[0][2] * m[2][1] - m[2][2] * m[0][1]) / d,
            (m[0][1] * m[1][2] - m[1][1] * m[0][2]) / d,
        ],
        [
            b.negated() / d,
            (m[0][0] * m[2][2] - m[2][0] * m[0][2]) / d,
            (m[0][2] * m[1][0] - m[1][2] * m[0][0]) / d,
        ],
        [
            c / d,
            (m[0][1] * m[2][0] - m[2][1] * m[0][0]) / d,
            (m[0][0] * m[1][1] - m[1][0] * m[0][1]) / d,
        ],
    ];
    proof {
        let w = inverse_of(geom::rows(*m))->0;
        assert(x[0]@ =~= w[0]);
        assert(x[1]@ =~= w[1]);
        assert(x[2]@ =~= w[2]);
        assert(geom::rows(x) =~= w);
    }
    Some(x)
}

/// The rows of the matrix that changes nothing.
pub open spec fn identity_rows() -> Seq<Seq<Single>> {
    let z = single::of(0);
    let one = single::of(single::ONE);
    seq![seq![one, z, z], seq![z, one, z], seq![z, z, one]]
}

fn identity3() -> (r: [[Single; 3]; 3])
    ensures
        geom::rows(r) == identity_rows(),
{
    let z: Single = single::of(0);
    let one: Single = single::of(single::ONE);
    let r: [[Single; 3]; 3] = [[one, z, z], [z, one, z], [z, z, one]];
    proof {
        let w = identity_rows();
        assert(r[0]@ =~= w[0]);
        assert(r[1]@ =~= w[1]);
        assert(r[2]@ =~= w[2]);
        assert(geom::rows(r) =~= w);
    }
    r
}

/// A camera: its focal lengths and the middle of its picture.
#[derive(Clone, Copy, Debug, PartialEq, Eq, Structural)]
pub struct Camera {
    pub fx: Single,
    pub fy: Single,
    pub cx: Single,
    pub cy: Single,
}

impl Camera {
    /// The rows of the matrix of the camera.
    pub open spec fn camera_rows(self) -> Seq<Seq<Single>> {
        let z = single::of(0);
        seq![
            seq![self.fx, z, self.cx],
            seq![z, self.fy, self.cy],
            seq![z, z, single::of(single::ONE)],
        ]
    }

    /// The rows of the inverse of that matrix, or those that change nothing where it has none.
    pub open spec fn inverse_rows(self) -> Seq<Seq<Single>> {
        match inverse_of(self.camera_rows()) {
            Some(m) => m,
            None => identity_rows(),
        }
    }

    pub open spec fn from_frame_spec(width: u32, height: u32) -> Camera {
        Camera {
            fx: Single::from_int(width as int),
            fy: Single::from_int(width as int),
            cx: Single::from_int(width as int) / single::of(decimal::N2),
            cy: Single::from_int(height as int) / single::of(decimal::N2),
        }
    }

    /// A camera for frames of a size: its focal lengths are the width.
    #[verifier::when_used_as_spec(from_frame_spec)]
    pub fn from_frame(width: u32, height: u32) -> (r: Camera)
        ensures
            r == Camera::from_frame_spec(width, height),
    {
        let w: Single = single::from_u64(width as u64);
        let h: Single = single::from_u64(height as u64);
        let two: Single = single::of(decimal::N2);
        Camera { fx: w, fy: w, cx: w / two, cy: h / two }
    }

    /// The matrix of the camera.
    pub fn matrix(&self) -> (r: [[Single; 3]; 3])
        ensures
            geom::rows(r) == self.camera_rows(),
    {
        let z: Single = single::of(0);
        let r: [[Single; 3]; 3] = [
            [self.fx, z, self.cx],
            [z, self.fy, self.cy],
            [z, z, single::of(single::ONE)],
        ];
        proof {
            let w = self.camera_rows();
            assert(r[0]@ =~= w[0]);
            assert(r[1]@ =~= w[1]);
            assert(r[2]@ =~= w[2]);
            assert(geom::rows(r) =~= w);
        }
        r
    }

    /// The inverse of the matrix of the camera, or the one that changes nothing where it has none.
    pub fn inverse(&self) -> (r: [[Single; 3]; 3])
        ensures
            geom::rows(r) == self.inverse_rows(),
    {
        match try_inverse(&self.matrix()) {
            Some(m) => m,
            None => identity3(),
        }
    }
}

/// The angle of a rotation vector.
pub open spec fn turn_angle(r: Seq<Single>) -> Single {
    (r[0] * r[0] + r[1] * r[1] + r[2] * r[2]).sqrt()
}

/// The angle of a rotation vector, whose cosine and sine `rodrigues` takes.
pub fn rotation_angle(r: [Single; 3]) -> (a: Single)
    ensures
        a == turn_angle(r@),
{
    (r[0] * r[0] + r[1] * r[1] + r[2] * r[2]).sqrt()
}

/// The rows of the matrix of a rotation vector, with the cosine and sine of its angle.
pub open spec fn rotation_rows(r: Seq<Single>, c: Single, s: Single) -> Seq<Seq<Single>> {
    let a = turn_angle(r);
    if a.lt(single::of(TINY_ANGLE)) {
        identity_rows()
    } else {
        let x = r[0] / a;
        let y = r[1] / a;
        let z = r[2] / a;
        let oc = single::of(single::ONE) - c;
        seq![
            seq![c + x * x * oc, x * y * oc - z * s, x * z * oc + y * s],
            seq![y * x * oc + z * s, c + y * y * oc, y * z * oc - x * s],
            seq![z * x * oc - y * s, z * y * oc + x * s, c + z * z * oc],
        ]
    }
}

/// The word of the angle below which nothing turns.
pub const TINY_ANGLE: u32 = 0x2b8c_bccc;

/// The word of the depth that stands for one that is closer to zero.
pub const TINY_DEPTH: u32 = 0x322b_cc77;

/// The matrix of a rotation vector, with the cosine and sine of its angle.
pub fn rodrigues(r: [Single; 3], c: Single, s: Single) -> (m: [[Single; 3]; 3])
    ensures
        geom::rows(m) == rotation_rows(r@, c, s),
{
    let a: Single = rotation_angle(r);
    if a.lt(single::of(TINY_ANGLE)) {
        return identity3();
    }
    let x: Single = r[0] / a;
    let y: Single = r[1] / a;
    let z: Single = r[2] / a;
    let oc: Single = single::of(single::ONE) - c;
    let m: [[Single; 3]; 3] = [
        [c + x * x * oc, x * y * oc - z * s, x * z * oc + y * s],
        [y * x * oc + z * s, c + y * y * oc, y * z * oc - x * s],
        [z * x * oc - y * s, z * y * oc + x * s, c + z * z * oc],
    ];
    proof {
        let w = rotation_rows(r@, c, s);
        assert(m[0]@ =~= w[0]);
        assert(m[1]@ =~= w[1]);
        assert(m[2]@ =~= w[2]);
        assert(geom::rows(m) =~= w);
    }
    m
}

/// A depth that can be divided by.
pub open spec fn safe_depth_spec(z: Single) -> Single {
    if z.abs().lt(single::of(TINY_DEPTH)) {
        single::of(TINY_DEPTH)
    } else {
        z
    }
}

/// A depth that can be divided by.
#[verifier::when_used_as_spec(safe_depth_spec)]
pub fn safe_depth(z: Single) -> (r: Single)
    ensures
        r == safe_depth_spec(z),
{
    if z.abs().lt(single::of(TINY_DEPTH)) {
        single::of(TINY_DEPTH)
    } else {
        z
    }
}

/// Where a camera sees a point that is turned and moved.
#[verifier::opaque]
pub open spec fn projected(p: Seq<Single>, m: Seq<Seq<Single>>, t: Seq<Single>, cam: Camera) -> Seq<Single> {
    let x = vec_sum(mat_vec(m, p), t);
    let z = safe_depth(x[2]);
    seq![cam.fx * x[0] / z + cam.cx, cam.fy * x[1] / z + cam.cy]
}

/// Where a camera sees a point that is turned and moved.
pub fn project(p: [Single; 3], m: &[[Single; 3]; 3], t: [Single; 3], cam: &Camera) -> (r: [Single; 2])
    ensures
        r@ == projected(p@, geom::rows(*m), t@, *cam),
{
    proof {
        reveal(projected);
    }
    let x: [Single; 3] = times(m, p);
    let z: Single = safe_depth(x[2] + t[2]);
    let r: [Single; 2] = [
        cam.fx * (x[0] + t[0]) / z + cam.cx,
        cam.fy * (x[1] + t[1]) / z + cam.cy,
    ];
    proof {
        assert(r@ =~= projected(p@, geom::rows(*m), t@, *cam));
    }
    r
}

/// Where a camera sees points that are turned, by a rotation vector with the cosine and sine of
/// its angle, and moved.
pub fn project_points(
    pts: &[[Single; 3]],
    rvec: [Single; 3],
    cos: Single,
    sin: Single,
    tvec: [Single; 3],
    cam: &Camera,
) -> (r: Vec<[Single; 2]>)
    ensures
        r@.len() == pts@.len(),
        forall|i: int|
            0 <= i < pts@.len() ==> (#[trigger] r@[i])@ == projected(
                pts@[i]@,
                rotation_rows(rvec@, cos, sin),
                tvec@,
                *cam,
            ),
{
    let m: [[Single; 3]; 3] = rodrigues(rvec, cos, sin);
    let mut r: Vec<[Single; 2]> = Vec::new();
    let mut i: usize = 0;
    while i < pts.len()
        invariant
            i <= pts@.len(),
            r@.len() == i,
            geom::rows(m) == rotation_rows(rvec@, cos, sin),
            forall|k: int|
                0 <= k < i ==> (#[trigger] r@[k])@ == projected(
                    pts@[k]@,
                    rotation_rows(rvec@, cos, sin),
                    tvec@,
                    *cam,
                ),
        decreases pts@.len() - i,
    {
        r.push(project(pts[i], &m, tvec, cam));
        i = i + 1;
    }
    r
}

} // verus!
