//! Where points lie in the camera and in space, as real numbers.

use crate::geom;
use crate::ieee::near;
use crate::ieee::near::{real_of, roughly, size};
use crate::ieee::single::Single;
use crate::pnp;
use crate::pnp::depth::{in_camera, View3};
use crate::pnp::linear;
use crate::pnp::linear::{dot, image, reals};
use vstd::prelude::*;

verus! {

/// What a view has to be: entries of a rotation and its inverse of at most `g`, a camera of which two rows are
/// at most `f` and the third is at most one, an inverse of which two columns are at most `2 / f` and the
/// third is at most two, and a place of at most `s`.
pub open spec fn is_sized(v: View3, g: real, f: real, s: real) -> bool {
    &&& 1real <= g <= 1000real
    &&& 1real <= f <= 1000000real
    &&& 1real <= s <= 1000000real
    &&& forall|i: int, j: int|
        0 <= i < 3 && 0 <= j < 3 ==> (#[trigger] v.m[i][j]).is_finite() && size(real_of(v.m[i][j])) <= g
    &&& forall|i: int, j: int|
        0 <= i < 3 && 0 <= j < 3 ==> (#[trigger] v.inv_m[i][j]).is_finite() && size(real_of(v.inv_m[i][j]))
            <= g
    &&& forall|i: int, j: int|
        0 <= i < 3 && 0 <= j < 3 ==> (#[trigger] v.k[i][j]).is_finite() && size(real_of(v.k[i][j])) <= (if i
            == 2 {
            1real
        } else {
            f
        })
    &&& forall|i: int, j: int|
        0 <= i < 3 && 0 <= j < 3 ==> (#[trigger] v.inv_k[i][j]).is_finite() && size(real_of(v.inv_k[i][j]))
            <= (if j == 2 {
            2real
        } else {
            2real * (1real / f)
        })
    &&& forall|j: int| 0 <= j < 3 ==> (#[trigger] v.t[j]).is_finite() && size(real_of(v.t[j])) <= s
}

/// A point turned and moved, as real numbers.
pub open spec fn moved(v: View3, p: Seq<Single>) -> Seq<real> {
    let x = image(geom::rows(v.m), reals(p));
    seq![x[0] + real_of(v.t[0]), x[1] + real_of(v.t[1]), x[2] + real_of(v.t[2])]
}

/// A point of the face in the camera is what the camera makes of the point turned by the rotation and moved
/// to the place of the head, but for rounding: rows and columns before they are divided by the depth, and
/// the depth. The point is at most `s / (3 g)` in size.
pub proof fn lemma_in_camera(v: View3, p: Seq<Single>, g: real, f: real, s: real)
    requires
        is_sized(v, g, f, s),
        forall|j: int| 0 <= j < 3 ==> (#[trigger] p[j]).is_finite() && 3real * g * size(real_of(p[j])) <= s,
    ensures
        ({
            let x = in_camera(v, p);
            let y = image(geom::rows(v.k), moved(v, p));
            &&& x.len() == 3
            &&& roughly(x[0], y[0], 6real * (f * s), 14real)
            &&& roughly(x[1], y[1], 6real * (f * s), 14real)
            &&& roughly(x[2], y[2], 6real * s, 14real)
        }),
        forall|j: int| 0 <= j < 3 ==> size(#[trigger] moved(v, p)[j]) <= 2real * s,
{
    reveal(in_camera);
    let (m, k) = (geom::rows(v.m), geom::rows(v.k));
    let q = s / (3real * g);
    let tg = 3real * g;
    linear::lemma_quotient(s, tg);
    linear::lemma_order(q, tg, 0real);
    assert(tg * q == 3real * (g * q)) by (nonlinear_arith)
        requires
            tg == 3real * g,
    ;
    assert(g * q == s / 3real);
    assert(q >= 1real / 10000real) by (nonlinear_arith)
        requires
            q * tg == s,
            3real <= tg <= 3000real,
            s >= 1real,
    ;
    assert forall|j: int| 0 <= j < 3 implies roughly(#[trigger] p[j], reals(p)[j], q, 0real) by {
        let z = size(real_of(p[j]));
        assert(z <= q) by (nonlinear_arith)
            requires
                tg * z <= q * tg,
                tg >= 3real,
        ;
        near::lemma_itself(p[j], q);
        assert(j == 0 || j == 1 || j == 2);
    }
    let (ga, qa) = (seq![g, g, g], seq![q, q, q]);
    let w = s / 3real;
    let mp = pnp::mat_vec(m, p);
    let z = pnp::vec_sum(mp, v.t@);
    let ideal = moved(v, p);
    assert forall|i: int| 0 <= i < 3 implies roughly(#[trigger] z[i], ideal[i], 2real * s, 8real) by {
        assert forall|j: int| 0 <= j < 3 implies (#[trigger] m[i][j]).is_finite() && size(real_of(m[i][j])) <= ga[j] by {
            assert(m[i][j] == v.m[i][j]);
        }
        assert forall|j: int| 0 <= j < 3 implies roughly(#[trigger] p[j], reals(p)[j], qa[j], 0real) by {}
        linear::lemma_row(m[i], p, reals(p), ga, qa, w, 0real);
        let d = dot(m[i], reals(p));
        assert(3real * w == s && 0real + 6real == 6real);
        let t = v.t[i];
        assert(t.is_finite());
        near::lemma_itself(t, s);
        near::lemma_looser(t, real_of(t), s, 0real, s, 6real);
        near::lemma_add(mp[i], d, s, t, real_of(t), s, 6real);
        assert(z[i] == mp[i] + t);
        assert(i == 0 || i == 1 || i == 2);
    }
    assert forall|j: int| 0 <= j < 3 implies size(#[trigger] ideal[j]) <= 2real * s by {
        assert(roughly(z[j], ideal[j], 2real * s, 8real));
    }
    let b = seq![2real * s, 2real * s, 2real * s];
    let (fa, oa) = (seq![f, f, f], seq![1real, 1real, 1real]);
    let fs = f * s;
    linear::lemma_products(1real, f, 1real, s);
    linear::lemma_products(f, 1000000real, s, 1000000real);
    assert(f * (2real * s) == 2real * fs) by (nonlinear_arith)
        requires
            fs == f * s,
    ;
    assert(1real * (2real * s) == 2real * s);
    assert forall|i: int| 0 <= i < 2 implies roughly(
        (#[trigger] k[i])[0] * z[0] + k[i][1] * z[1] + k[i][2] * z[2],
        dot(k[i], ideal),
        3real * (2real * fs),
        14real,
    ) by {
        assert forall|j: int| 0 <= j < 3 implies (#[trigger] k[i][j]).is_finite() && size(real_of(k[i][j])) <= fa[j] by {
            assert(k[i][j] == v.k[i][j]);
        }
        linear::lemma_row(k[i], z, ideal, fa, b, 2real * fs, 8real);
    }
    assert forall|j: int| 0 <= j < 3 implies (#[trigger] k[2][j]).is_finite() && size(real_of(k[2][j])) <= oa[j] by {
        assert(k[2][j] == v.k[2][j]);
    }
    linear::lemma_row(k[2], z, ideal, oa, b, 2real * s, 8real);
    let x = in_camera(v, p);
    assert(x[0] == k[0][0] * z[0] + k[0][1] * z[1] + k[0][2] * z[2]);
    assert(x[1] == k[1][0] * z[0] + k[1][1] * z[1] + k[1][2] * z[2]);
    assert(x[2] == k[2][0] * z[0] + k[2][1] * z[1] + k[2][2] * z[2]);
}

/// A quotient times its divisor is the dividend, but for rounding.
pub proof fn lemma_divided_back(x: Single, z: Single, v: real, m: real)
    requires
        roughly(x, v, m, 14real),
        z.is_finite(),
        1real / 1000real <= size(real_of(z)) <= 1000000000000real,
        1real <= m <= 1000000000000000real,
    ensures
        roughly(x / z * z, v, m, 19real),
{
    let rz = real_of(z);
    let n = size(rz);
    near::lemma_itself(z, n);
    let k = m / n;
    linear::lemma_quotient(m, n);
    assert(k > 0real) by (nonlinear_arith)
        requires
            k * n == m,
            n > 0real,
            m > 0real,
    ;
    assert(k <= 1000000000000000000real) by (nonlinear_arith)
        requires
            k * n == m,
            n >= 1real / 1000real,
            m <= 1000000000000000real,
            k > 0real,
    ;
    assert(k >= 1real / 1000000000000real) by (nonlinear_arith)
        requires
            k * n == m,
            n <= 1000000000000real,
            m >= 1real,
            k > 0real,
    ;
    near::lemma_over(x, v, m, 14real, z, rz, 0real);
    near::lemma_times(x / z, v / rz, k, 17real, z, rz, n, 0real);
    linear::lemma_quotient(v, rz);
}

} // verus!
