//! The pose that makes the solid face fit the landmarks, by Gauss and Newton's method.
//!
//! A round asks for the cosines and sines of seven angles, gives six linear equations, takes their
//! solution and moves on.

use crate::ieee::convert;
use crate::ieee::decimal;
use crate::ieee::double;
use crate::ieee::double::Double;
use crate::ieee::maths::hypot;
use crate::ieee::single;
use crate::ieee::single::Single;
use crate::pnp;
use crate::pnp::{project_points, rotation_angle, Camera};
use vstd::prelude::*;

verus! {

/// Rounds at most.
pub const ROUNDS: u32 = 25;

/// The fit of a pose: three numbers of the rotation vector, then three of the place.
#[derive(Clone, Copy, Debug)]
pub struct PnpSolver {
    pub params: [Double; 6],
    pub round: u32,
}

/// The rotation vector of a pose.
pub open spec fn rvec_of(p: Seq<Double>) -> Seq<Single> {
    seq![convert::to_single(p[0]), convert::to_single(p[1]), convert::to_single(p[2])]
}

/// The place of a pose.
pub open spec fn tvec_of(p: Seq<Double>) -> Seq<Single> {
    seq![convert::to_single(p[3]), convert::to_single(p[4]), convert::to_single(p[5])]
}

fn rvec(p: &[Double; 6]) -> (r: [Single; 3])
    ensures
        r@ == rvec_of(p@),
{
    let r: [Single; 3] = [
        convert::to_single(p[0]),
        convert::to_single(p[1]),
        convert::to_single(p[2]),
    ];
    proof {
        assert(r@ =~= rvec_of(p@));
    }
    r
}

fn tvec(p: &[Double; 6]) -> (r: [Single; 3])
    ensures
        r@ == tvec_of(p@),
{
    let r: [Single; 3] = [
        convert::to_single(p[3]),
        convert::to_single(p[4]),
        convert::to_single(p[5]),
    ];
    proof {
        assert(r@ =~= tvec_of(p@));
    }
    r
}

/// How far landmark `i / 2` is from where the pose puts it, in its row for even `i` and in its
/// column for odd `i`. `c` and `s` are the cosine and sine of the angle of the pose.
#[verifier::opaque]
pub open spec fn residual(
    p: Seq<Double>,
    c: Single,
    s: Single,
    obj: Seq<[Single; 3]>,
    img: Seq<[Single; 2]>,
    cam: Camera,
    i: int,
) -> Double {
    let q = pnp::projected(
        obj[i / 2]@,
        pnp::rotation_rows(rvec_of(p), c, s),
        tvec_of(p),
        cam,
    );
    convert::to_double(img[i / 2][i % 2]) - convert::to_double(q[i % 2])
}

/// How far the landmarks are from where the pose puts them.
pub fn residuals(
    p: &[Double; 6],
    c: Single,
    s: Single,
    obj: &[[Single; 3]],
    img: &[[Single; 2]],
    cam: &Camera,
) -> (r: Vec<Double>)
    requires
        obj@.len() == img@.len(),
        obj@.len() <= 0xffff,
    ensures
        r@.len() == 2 * obj@.len(),
        forall|i: int|
            0 <= i < r@.len() ==> #[trigger] r@[i] == residual(p@, c, s, obj@, img@, *cam, i),
{
    let proj: Vec<[Single; 2]> = project_points(obj, rvec(p), c, s, tvec(p), cam);
    let mut r: Vec<Double> = Vec::new();
    let mut k: usize = 0;
    while k < obj.len()
        invariant
            k <= obj@.len(),
            obj@.len() == img@.len(),
            obj@.len() == proj@.len(),
            obj@.len() <= 0xffff,
            r@.len() == 2 * k,
            forall|i: int|
                0 <= i < obj@.len() ==> (#[trigger] proj@[i])@ == pnp::projected(
                    obj@[i]@,
                    pnp::rotation_rows(rvec_of(p@), c, s),
                    tvec_of(p@),
                    *cam,
                ),
            forall|i: int|
                0 <= i < r@.len() ==> #[trigger] r@[i] == residual(p@, c, s, obj@, img@, *cam, i),
        decreases obj@.len() - k,
    {
        let q: [Single; 2] = proj[k];
        let m: [Single; 2] = img[k];
        proof {
            reveal(residual);
            let n = 2 * k as int;
            assert(n / 2 == k && n % 2 == 0 && (n + 1) / 2 == k && (n + 1) % 2 == 1);
            assert(proj@[k as int]@ == q@);
        }
        r.push(convert::to_double(m[0]) - convert::to_double(q[0]));
        r.push(convert::to_double(m[1]) - convert::to_double(q[1]));
        k = k + 1;
    }
    r
}

/// A pose with parameter `k` moved a little; unmoved for `k` out of range.
pub open spec fn nudged(p: Seq<Double>, k: int) -> Seq<Double> {
    if 0 <= k < 6 {
        p.update(k, p[k] + double::of(decimal::DN0_000001))
    } else {
        p
    }
}

fn nudge(p: &[Double; 6], k: usize) -> (r: [Double; 6])
    ensures
        r@ == nudged(p@, k as int),
{
    let mut r: [Double; 6] = *p;
    if k < 6 {
        r[k] = p[k] + double::of(decimal::DN0_000001);
    }
    proof {
        assert(r@ =~= nudged(p@, k as int));
    }
    r
}

/// The cosine and sine of an angle.
#[derive(Clone, Copy, Debug, PartialEq, Eq, Structural)]
pub struct CosSin {
    pub cos: Single,
    pub sin: Single,
}

/// The derivative of residual `i` with respect to parameter `k`.
#[verifier::opaque]
pub open spec fn slope(
    p: Seq<Double>,
    trig: Seq<CosSin>,
    obj: Seq<[Single; 3]>,
    img: Seq<[Single; 2]>,
    cam: Camera,
    i: int,
    k: int,
) -> Double {
    let moved = residual(nudged(p, k), trig[k].cos, trig[k].sin, obj, img, cam, i);
    let here = residual(p, trig[6].cos, trig[6].sin, obj, img, cam, i);
    (moved - here) / double::of(decimal::DN0_000001)
}

/// The sum over the first `n` residuals of the slopes to `k` times the residuals.
pub open spec fn pull(
    p: Seq<Double>,
    trig: Seq<CosSin>,
    obj: Seq<[Single; 3]>,
    img: Seq<[Single; 2]>,
    cam: Camera,
    k: int,
    n: int,
) -> Double
    decreases n,
{
    if n <= 0 {
        double::of(0)
    } else {
        pull(p, trig, obj, img, cam, k, n - 1) + slope(p, trig, obj, img, cam, n - 1, k) * residual(
            p,
            trig[6].cos,
            trig[6].sin,
            obj,
            img,
            cam,
            n - 1,
        )
    }
}

/// The sum over the first `n` residuals of the products of the slopes to `k` and to `m`.
pub open spec fn gram(
    p: Seq<Double>,
    trig: Seq<CosSin>,
    obj: Seq<[Single; 3]>,
    img: Seq<[Single; 2]>,
    cam: Camera,
    k: int,
    m: int,
    n: int,
) -> Double
    decreases n,
{
    if n <= 0 {
        double::of(0)
    } else {
        gram(p, trig, obj, img, cam, k, m, n - 1) + slope(p, trig, obj, img, cam, n - 1, k) * slope(
            p,
            trig,
            obj,
            img,
            cam,
            n - 1,
            m,
        )
    }
}

/// Six linear equations: the rows of their matrix, and their right-hand sides.
#[derive(Debug)]
pub struct Equations {
    pub a: Vec<Vec<Double>>,
    pub b: Vec<Double>,
}

/// The mean of coordinate `c` of the first `n` points, times their number.
pub open spec fn coord_sum<const N: usize>(v: Seq<[Single; N]>, c: int, n: int) -> Single
    decreases n,
{
    if n <= 0 {
        single::of(0)
    } else {
        coord_sum(v, c, n - 1) + v[n - 1][c]
    }
}

/// The sum of the distances of the first `n` points from `(x, y)`.
pub open spec fn distance_sum<const N: usize>(v: Seq<[Single; N]>, x: Single, y: Single, n: int) -> Single
    decreases n,
{
    if n <= 0 {
        single::of(0)
    } else {
        distance_sum(v, x, y, n - 1) + hypot(v[n - 1][0] - x, v[n - 1][1] - y)
    }
}

/// The place of a face that looks straight ahead: its depth from the sizes of the solid face and
/// of the picture of it, its direction from the middle of the picture.
pub open spec fn first_place(obj: Seq<[Single; 3]>, img: Seq<[Single; 2]>, cam: Camera) -> Seq<Single> {
    let len = obj.len() as int;
    let n = Single::from_int(len);
    let (ox, oy) = (coord_sum(obj, 0, len) / n, coord_sum(obj, 1, len) / n);
    let (ix, iy) = (coord_sum(img, 0, len) / n, coord_sum(img, 1, len) / n);
    let size = distance_sum(obj, ox, oy, len);
    let shown = distance_sum(img, ix, iy, len);
    let s = (shown / size.max(single::of(decimal::N0_000001))).max(single::of(single::ONE));
    let z = (cam.fx / s).abs().max(single::of(decimal::N0_5));
    seq![(ix - cam.cx) * z / cam.fx, (iy - cam.cy) * z / cam.fy, z]
}

/// A first pose: straight ahead.
pub fn init_pose(obj: &[[Single; 3]], img: &[[Single; 2]], cam: &Camera) -> (r: (
    [Single; 3],
    [Single; 3],
))
    requires
        obj@.len() == img@.len(),
    ensures
        r.0@ == seq![single::of(0), single::of(0), single::of(0)],
        r.1@ == first_place(obj@, img@, *cam),
{
    let z: Single = single::of(0);
    let n: Single = single::from_u64(obj.len() as u64);
    let (mut ox, mut oy, mut ix, mut iy): (Single, Single, Single, Single) = (z, z, z, z);
    let mut k: usize = 0;
    while k < obj.len()
        invariant
            k <= obj@.len(),
            obj@.len() == img@.len(),
            ox == coord_sum(obj@, 0, k as int),
            oy == coord_sum(obj@, 1, k as int),
            ix == coord_sum(img@, 0, k as int),
            iy == coord_sum(img@, 1, k as int),
        decreases obj@.len() - k,
    {
        ox = ox + obj[k][0];
        oy = oy + obj[k][1];
        ix = ix + img[k][0];
        iy = iy + img[k][1];
        k = k + 1;
    }
    let (ox, oy, ix, iy): (Single, Single, Single, Single) = (ox / n, oy / n, ix / n, iy / n);
    let (mut size, mut shown): (Single, Single) = (z, z);
    let mut k: usize = 0;
    while k < obj.len()
        invariant
            k <= obj@.len(),
            obj@.len() == img@.len(),
            size == distance_sum(obj@, ox, oy, k as int),
            shown == distance_sum(img@, ix, iy, k as int),
        decreases obj@.len() - k,
    {
        size = size + hypot(obj[k][0] - ox, obj[k][1] - oy);
        shown = shown + hypot(img[k][0] - ix, img[k][1] - iy);
        k = k + 1;
    }
    let s: Single = (shown / size.max(single::of(decimal::N0_000001))).max(single::of(single::ONE));
    let d: Single = (cam.fx / s).abs().max(single::of(decimal::N0_5));
    let t: [Single; 3] = [(ix - cam.cx) * d / cam.fx, (iy - cam.cy) * d / cam.fy, d];
    let r: [Single; 3] = [z, z, z];
    proof {
        assert(t@ =~= first_place(obj@, img@, *cam));
        assert(r@ =~= seq![single::of(0), single::of(0), single::of(0)]);
    }
    (r, t)
}

/// The parameters of a pose that a fit starts from: in front of the camera by at least a half.
pub open spec fn start_params(r: Seq<Single>, t: Seq<Single>) -> Seq<Double> {
    seq![
        convert::to_double(r[0]),
        convert::to_double(r[1]),
        convert::to_double(r[2]),
        convert::to_double(t[0]),
        convert::to_double(t[1]),
        convert::to_double(t[2].abs().max(single::of(decimal::N0_5))),
    ]
}

/// The sum of the squared errors of the first `n` points of a pose.
pub open spec fn squared_errors(
    p: Seq<Double>,
    trig: CosSin,
    obj: Seq<[Single; 3]>,
    img: Seq<[Single; 2]>,
    cam: Camera,
    n: int,
) -> Single
    decreases n,
{
    if n <= 0 {
        single::of(0)
    } else {
        let q = pnp::projected(
            obj[n - 1]@,
            pnp::rotation_rows(rvec_of(p), trig.cos, trig.sin),
            tvec_of(p),
            cam,
        );
        let dx = q[0] - img[n - 1][0];
        let dy = q[1] - img[n - 1][1];
        squared_errors(p, trig, obj, img, cam, n - 1) + (dx * dx + dy * dy)
    }
}

/// Whether a pose that was fitted cannot be: too close to the camera, too far away, or too far
/// from the landmarks.
pub open spec fn implausible(p: Seq<Double>, error: Single) -> bool {
    let far = (p[3] * p[3] + p[4] * p[4] + p[5] * p[5]).sqrt();
    ||| p[5].abs().lt(double::of(decimal::DN0_1))
    ||| far.gt(double::of(decimal::DN1000000))
    ||| error.gt(single::of(decimal::N250))
}

impl PnpSolver {
    /// Starts a fit: from the given pose, or from one that looks straight ahead. None for fewer
    /// than four points, or where there are not as many of them on both sides.
    pub fn start(
        obj: &[[Single; 3]],
        img: &[[Single; 2]],
        cam: &Camera,
        guess: Option<([Single; 3], [Single; 3])>,
    ) -> (r: Option<PnpSolver>)
        ensures
            r is Some <==> obj@.len() >= 4 && obj@.len() == img@.len(),
            r is Some ==> {
                &&& r->0.round == 0
                &&& r->0.params@ == (match guess {
                    Some(g) => start_params(g.0@, g.1@),
                    None => start_params(
                        seq![single::of(0), single::of(0), single::of(0)],
                        first_place(obj@, img@, *cam),
                    ),
                })
            },
    {
        if obj.len() < 4 || obj.len() != img.len() {
            return None;
        }
        let (r, t) = match guess {
            Some(g) => g,
            None => init_pose(obj, img, cam),
        };
        let params: [Double; 6] = [
            convert::to_double(r[0]),
            convert::to_double(r[1]),
            convert::to_double(r[2]),
            convert::to_double(t[0]),
            convert::to_double(t[1]),
            convert::to_double(t[2].abs().max(single::of(decimal::N0_5))),
        ];
        proof {
            assert(params@ =~= start_params(r@, t@));
        }
        Some(PnpSolver { params, round: 0 })
    }

    /// The angles whose cosines and sines the equations take: of the pose with each parameter moved
    /// a little, and of the pose itself.
    pub fn angles(&self) -> (r: [Single; 7])
        ensures
            forall|k: int|
                0 <= k < 7 ==> #[trigger] r[k] == pnp::turn_angle(rvec_of(nudged(self.params@, k))),
    {
        let p = &self.params;
        [
            rotation_angle(rvec(&nudge(p, 0))),
            rotation_angle(rvec(&nudge(p, 1))),
            rotation_angle(rvec(&nudge(p, 2))),
            rotation_angle(rvec(&nudge(p, 3))),
            rotation_angle(rvec(&nudge(p, 4))),
            rotation_angle(rvec(&nudge(p, 5))),
            rotation_angle(rvec(&nudge(p, 6))),
        ]
    }

    /// The equations of a round.
    pub fn equations(
        &self,
        obj: &[[Single; 3]],
        img: &[[Single; 2]],
        cam: &Camera,
        trig: &[CosSin; 7],
    ) -> (r: Equations)
        requires
            obj@.len() == img@.len(),
            obj@.len() <= 0xffff,
        ensures
            r.a@.len() == 6,
            r.b@.len() == 6,
            forall|k: int| 0 <= k < 6 ==> (#[trigger] r.a@[k])@.len() == 6,
            forall|k: int, m: int|
                0 <= k < 6 && 0 <= m < 6 ==> #[trigger] r.a@[k]@[m] == ({
                    let g = gram(
                        self.params@,
                        trig@,
                        obj@,
                        img@,
                        *cam,
                        k,
                        m,
                        2 * obj@.len() as int,
                    );
                    if k == m {
                        g + double::of(decimal::DN0_0001)
                    } else {
                        g
                    }
                }),
            forall|k: int|
                0 <= k < 6 ==> #[trigger] r.b@[k] == pull(
                    self.params@,
                    trig@,
                    obj@,
                    img@,
                    *cam,
                    k,
                    2 * obj@.len() as int,
                ),
    {
        let n: usize = 2 * obj.len();
        let p = &self.params;
        let r: Vec<Double> = residuals(p, trig[6].cos, trig[6].sin, obj, img, cam);
        let mut j: Vec<Vec<Double>> = Vec::new();
        let mut k: usize = 0;
        while k < 6
            invariant
                k <= 6,
                n == 2 * obj@.len(),
                obj@.len() == img@.len(),
                obj@.len() <= 0xffff,
                r@.len() == n,
                p@ == self.params@,
                forall|i: int|
                    0 <= i < n ==> #[trigger] r@[i] == residual(
                        p@,
                        trig[6].cos,
                        trig[6].sin,
                        obj@,
                        img@,
                        *cam,
                        i,
                    ),
                j@.len() == k,
                forall|q: int| 0 <= q < k ==> (#[trigger] j@[q])@.len() == n,
                forall|q: int, i: int|
                    0 <= q < k && 0 <= i < n ==> #[trigger] j@[q]@[i] == slope(
                        p@,
                        trig@,
                        obj@,
                        img@,
                        *cam,
                        i,
                        q,
                    ),
            decreases 6 - k,
        {
            let moved: Vec<Double> = residuals(
                &nudge(p, k),
                trig[k].cos,
                trig[k].sin,
                obj,
                img,
                cam,
            );
            let mut col: Vec<Double> = Vec::new();
            let mut i: usize = 0;
            while i < n
                invariant
                    i <= n,
                    k < 6,
                    r@.len() == n,
                    moved@.len() == n,
                    col@.len() == i,
                    forall|i: int|
                        0 <= i < n ==> #[trigger] r@[i] == residual(
                            p@,
                            trig[6].cos,
                            trig[6].sin,
                            obj@,
                            img@,
                            *cam,
                            i,
                        ),
                    forall|i: int|
                        0 <= i < n ==> #[trigger] moved@[i] == residual(
                            nudged(p@, k as int),
                            trig[k as int].cos,
                            trig[k as int].sin,
                            obj@,
                            img@,
                            *cam,
                            i,
                        ),
                    forall|q: int|
                        0 <= q < i ==> #[trigger] col@[q] == slope(
                            p@,
                            trig@,
                            obj@,
                            img@,
                            *cam,
                            q,
                            k as int,
                        ),
                decreases n - i,
            {
                proof {
                    reveal(slope);
                }
                col.push((moved[i] - r[i]) / double::of(decimal::DN0_000001));
                i = i + 1;
            }
            j.push(col);
            k = k + 1;
        }
        let mut a: Vec<Vec<Double>> = Vec::new();
        let mut b: Vec<Double> = Vec::new();
        let mut k: usize = 0;
        while k < 6
            invariant
                k <= 6,
                n == 2 * obj@.len(),
                r@.len() == n,
                p@ == self.params@,
                forall|i: int|
                    0 <= i < n ==> #[trigger] r@[i] == residual(
                        p@,
                        trig[6].cos,
                        trig[6].sin,
                        obj@,
                        img@,
                        *cam,
                        i,
                    ),
                j@.len() == 6,
                forall|q: int| 0 <= q < 6 ==> (#[trigger] j@[q])@.len() == n,
                forall|q: int, i: int|
                    0 <= q < 6 && 0 <= i < n ==> #[trigger] j@[q]@[i] == slope(
                        p@,
                        trig@,
                        obj@,
                        img@,
                        *cam,
                        i,
                        q,
                    ),
                a@.len() == k,
                b@.len() == k,
                forall|q: int| 0 <= q < k ==> (#[trigger] a@[q])@.len() == 6,
                forall|q: int, m: int|
                    0 <= q < k && 0 <= m < 6 ==> #[trigger] a@[q]@[m] == ({
                        let g = gram(p@, trig@, obj@, img@, *cam, q, m, n as int);
                        if q == m {
                            g + double::of(decimal::DN0_0001)
                        } else {
                            g
                        }
                    }),
                forall|q: int|
                    0 <= q < k ==> #[trigger] b@[q] == pull(
                        p@,
                        trig@,
                        obj@,
                        img@,
                        *cam,
                        q,
                        n as int,
                    ),
            decreases 6 - k,
        {
            let mut row: Vec<Double> = Vec::new();
            let mut m: usize = 0;
            while m < 6
                invariant
                    m <= 6,
                    k < 6,
                    n == 2 * obj@.len(),
                    j@.len() == 6,
                    forall|q: int| 0 <= q < 6 ==> (#[trigger] j@[q])@.len() == n,
                    forall|q: int, i: int|
                        0 <= q < 6 && 0 <= i < n ==> #[trigger] j@[q]@[i] == slope(
                            p@,
                            trig@,
                            obj@,
                            img@,
                            *cam,
                            i,
                            q,
                        ),
                    row@.len() == m,
                    forall|q: int|
                        0 <= q < m ==> #[trigger] row@[q] == ({
                            let g = gram(p@, trig@, obj@, img@, *cam, k as int, q, n as int);
                            if k == q {
                                g + double::of(decimal::DN0_0001)
                            } else {
                                g
                            }
                        }),
                decreases 6 - m,
            {
                let mut g: Double = double::of(0);
                let mut i: usize = 0;
                while i < n
                    invariant
                        i <= n,
                        k < 6,
                        m < 6,
                        j@.len() == 6,
                        forall|q: int| 0 <= q < 6 ==> (#[trigger] j@[q])@.len() == n,
                        forall|q: int, i: int|
                            0 <= q < 6 && 0 <= i < n ==> #[trigger] j@[q]@[i] == slope(
                                p@,
                                trig@,
                                obj@,
                                img@,
                                *cam,
                                i,
                                q,
                            ),
                        g == gram(p@, trig@, obj@, img@, *cam, k as int, m as int, i as int),
                    decreases n - i,
                {
                    g = g + j[k][i] * j[m][i];
                    i = i + 1;
                }
                row.push(
                    if k == m {
                        g + double::of(decimal::DN0_0001)
                    } else {
                        g
                    },
                );
                m = m + 1;
            }
            let mut s: Double = double::of(0);
            let mut i: usize = 0;
            while i < n
                invariant
                    i <= n,
                    k < 6,
                    r@.len() == n,
                    j@.len() == 6,
                    forall|q: int| 0 <= q < 6 ==> (#[trigger] j@[q])@.len() == n,
                    forall|i: int|
                        0 <= i < n ==> #[trigger] r@[i] == residual(
                            p@,
                            trig[6].cos,
                            trig[6].sin,
                            obj@,
                            img@,
                            *cam,
                            i,
                        ),
                    forall|q: int, i: int|
                        0 <= q < 6 && 0 <= i < n ==> #[trigger] j@[q]@[i] == slope(
                            p@,
                            trig@,
                            obj@,
                            img@,
                            *cam,
                            i,
                            q,
                        ),
                    s == pull(p@, trig@, obj@, img@, *cam, k as int, i as int),
                decreases n - i,
            {
                s = s + j[k][i] * r[i];
                i = i + 1;
            }
            a.push(row);
            b.push(s);
            k = k + 1;
        }
        Equations { a, b }
    }

    /// Takes the solution of a round's equations, if they had one: a step of Gauss and Newton goes
    /// against it, as the slopes are those of the residuals. Says whether another round is due: not
    /// without a solution, nor where it has become tiny, nor after the last round.
    pub fn step(&mut self, dx: Option<[Double; 6]>) -> (more: bool)
        requires
            old(self).round < ROUNDS,
        ensures
            final(self).round == old(self).round + 1,
            match dx {
                None => !more && final(self).params@ == old(self).params@,
                Some(d) => {
                    &&& forall|k: int|
                        0 <= k < 6 ==> #[trigger] final(self).params[k] == old(self).params[k] - d[k]
                    &&& more == (!step_length(d@).lt(double::of(decimal::DN0_00000001))
                        && final(self).round < ROUNDS)
                },
            },
    {
        self.round = self.round + 1;
        match dx {
            None => false,
            Some(d) => {
                let p: [Double; 6] = self.params;
                self.params = [
                    p[0] - d[0],
                    p[1] - d[1],
                    p[2] - d[2],
                    p[3] - d[3],
                    p[4] - d[4],
                    p[5] - d[5],
                ];
                let sum: Double = double::of(0) + d[0] * d[0] + d[1] * d[1] + d[2] * d[2] + d[3] * d[3]
                    + d[4] * d[4] + d[5] * d[5];
                !sum.sqrt().lt(double::of(decimal::DN0_00000001)) && self.round < ROUNDS
            },
        }
    }

    /// The angle of the fitted pose, whose cosine and sine `finish` takes.
    pub fn angle(&self) -> (r: Single)
        ensures
            r == pnp::turn_angle(rvec_of(self.params@)),
    {
        rotation_angle(rvec(&self.params))
    }

    /// The fitted pose as rotation vector and place, or the one that looks straight ahead where the
    /// fitted one cannot be.
    pub fn finish(&self, obj: &[[Single; 3]], img: &[[Single; 2]], cam: &Camera, trig: CosSin) -> (r: (
        [Single; 3],
        [Single; 3],
    ))
        requires
            obj@.len() == img@.len(),
        ensures
            ({
                let len = img@.len() as int;
                let error = (squared_errors(self.params@, trig, obj@, img@, *cam, len)
                    / Single::from_int(
                    if len < 1 {
                        1
                    } else {
                        len
                    },
                )).sqrt();
                if implausible(self.params@, error) {
                    &&& r.0@ == seq![single::of(0), single::of(0), single::of(0)]
                    &&& r.1@ == first_place(obj@, img@, *cam)
                } else {
                    &&& r.0@ == rvec_of(self.params@)
                    &&& r.1@ == tvec_of(self.params@)
                }
            }),
    {
        let p = &self.params;
        let far: Double = (p[3] * p[3] + p[4] * p[4] + p[5] * p[5]).sqrt();
        let proj: Vec<[Single; 2]> = project_points(obj, rvec(p), trig.cos, trig.sin, tvec(p), cam);
        let mut e: Single = single::of(0);
        let mut i: usize = 0;
        while i < img.len()
            invariant
                i <= img@.len(),
                obj@.len() == img@.len(),
                proj@.len() == img@.len(),
                p@ == self.params@,
                forall|k: int|
                    0 <= k < obj@.len() ==> (#[trigger] proj@[k])@ == pnp::projected(
                        obj@[k]@,
                        pnp::rotation_rows(rvec_of(p@), trig.cos, trig.sin),
                        tvec_of(p@),
                        *cam,
                    ),
                e == squared_errors(p@, trig, obj@, img@, *cam, i as int),
            decreases img@.len() - i,
        {
            let q: [Single; 2] = proj[i];
            let m: [Single; 2] = img[i];
            proof {
                assert(proj@[i as int]@ == q@);
            }
            let dx: Single = q[0] - m[0];
            let dy: Single = q[1] - m[1];
            e = e + (dx * dx + dy * dy);
            i = i + 1;
        }
        let n: u64 = if img.len() < 1 {
            1
        } else {
            img.len() as u64
        };
        let e: Single = (e / single::from_u64(n)).sqrt();
        if p[5].abs().lt(double::of(decimal::DN0_1)) || far.gt(double::of(decimal::DN1000000)) || e.gt(
            single::of(decimal::N250),
        ) {
            init_pose(obj, img, cam)
        } else {
            (rvec(p), tvec(p))
        }
    }
}

/// The length of a step.
pub open spec fn step_length(d: Seq<Double>) -> Double {
    (double::of(0) + d[0] * d[0] + d[1] * d[1] + d[2] * d[2] + d[3] * d[3] + d[4] * d[4] + d[5] * d[5]).sqrt()
}

} // verus!
