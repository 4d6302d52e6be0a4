//! From places in the picture back into space.

use crate::geom;
use crate::ieee::decimal;
use crate::ieee::near;
use crate::ieee::near::{eps, real_of, roughly, size};
use crate::ieee::single;
use crate::ieee::single::Single;
use crate::ieee::words;
use crate::pnp;
use crate::pnp::depth::{
    cleaned, dist3_of, eyeball, in_camera, in_space, is_success, landmark_in_space, raw_point, DepthResult, View3,
};
use crate::pnp::linear;
use crate::pnp::linear::{dot, image, reals, undoes};
use crate::pnp::space::{is_sized, lemma_divided_back, lemma_in_camera, moved};
use vstd::arithmetic::power2::*;
use vstd::prelude::*;

verus! {

/// Unprojecting undoes projecting: a point of the face that is seen at its place in the picture and at its depth
/// is that point, but for rounding and for how far the inverses of rotation and camera undo them.
pub proof fn lemma_unprojecting_undoes_projecting(
    v: View3,
    p: Seq<Single>,
    g: real,
    f: real,
    s: real,
    d: real,
)
    requires
        is_sized(v, g, f, s),
        p.len() == 3,
        forall|j: int| 0 <= j < 3 ==> (#[trigger] p[j]).is_finite() && 3real * g * size(real_of(p[j])) <= s,
        undoes(geom::rows(v.inv_m), geom::rows(v.m), d),
        undoes(geom::rows(v.inv_k), geom::rows(v.k), d),
        0real <= d,
        size(real_of(in_camera(v, p)[2])) >= 1real / 1000real,
    ensures
        ({
            let x = in_camera(v, p);
            let r = in_space(v, x[0] / x[2], x[1] / x[2], x[2]);
            &&& r.len() == 3
            &&& forall|i: int|
                0 <= i < 3 ==> (#[trigger] r[i]).is_finite() && size(real_of(r[i]) - real_of(p[i])) <= 4000real
                    * eps() * (g * s) + 19real * d * (g * s)
        }),
{
    reveal(in_space);
    lemma_in_camera(v, p, g, f, s);
    let x = in_camera(v, p);
    let z = moved(v, p);
    let y = image(geom::rows(v.k), z);
    let (ik, im) = (geom::rows(v.inv_k), geom::rows(v.inv_m));
    let fs = f * s;
    linear::lemma_products(1real, f, 1real, s);
    linear::lemma_products(f, 1000000real, s, 1000000real);
    assert(14real * eps() * (6real * s) <= s) by (nonlinear_arith)
        requires
            eps() == 1real / 16777216real,
            s >= 1real,
    ;
    lemma_divided_back(x[0], x[2], y[0], 6real * fs);
    lemma_divided_back(x[1], x[2], y[1], 6real * fs);
    near::lemma_looser(x[2], y[2], 6real * s, 14real, 6real * s, 19real);
    let q = seq![x[0] / x[2] * x[2], x[1] / x[2] * x[2], x[2]];
    let h = 1real / f;
    let (a, b) = (seq![2real * h, 2real * h, 2real], seq![6real * fs, 6real * fs, 6real * s]);
    linear::lemma_quotient(1real, f);
    linear::lemma_order(h, f, s);
    assert(2real * h * (6real * fs) == 12real * (h * fs)) by (nonlinear_arith);
    assert(1real * s == s && 2real * (6real * s) == 12real * s);
    let u = pnp::mat_vec(ik, q);
    let e = seq![u[0] - v.t[0], u[1] - v.t[1], u[2] - v.t[2]];
    let back = seq![dot(ik[0], y) - real_of(v.t[0]), dot(ik[1], y) - real_of(v.t[1]), dot(ik[2], y) - real_of(v.t[2])];
    assert forall|j: int| 0 <= j < 3 implies roughly(#[trigger] q[j], y[j], b[j], 19real) by {
        assert(j == 0 || j == 1 || j == 2);
    }
    assert forall|i: int| 0 <= i < 3 implies roughly(#[trigger] e[i], back[i], 37real * s, 27real) by {
        assert forall|j: int| 0 <= j < 3 implies (#[trigger] ik[i][j]).is_finite() && size(real_of(ik[i][j])) <= a[j] by {
            assert(ik[i][j] == v.inv_k[i][j]);
        }
        linear::lemma_row(ik[i], q, y, a, b, 12real * s, 19real);
        let t = v.t[i];
        assert(t.is_finite());
        near::lemma_itself(t, s);
        near::lemma_looser(t, real_of(t), s, 0real, s, 25real);
        near::lemma_less(u[i], dot(ik[i], y), 3real * (12real * s), t, real_of(t), s, 25real);
        assert(i == 0 || i == 1 || i == 2);
    }
    let gs = g * s;
    let (ga, ea) = (seq![g, g, g], seq![37real * s, 37real * s, 37real * s]);
    linear::lemma_products(1real, g, 1real, s);
    linear::lemma_products(g, 1000real, s, 1000000real);
    assert(g * (37real * s) == 37real * gs) by (nonlinear_arith)
        requires
            gs == g * s,
    ;
    let r = in_space(v, x[0] / x[2], x[1] / x[2], x[2]);
    let turned = image(geom::rows(v.m), reals(p));
    let ds = d * s;
    let dd = 6real * ds;
    linear::lemma_products(0real, d, 0real, s);
    assert(3real * d * (2real * s) == dd) by (nonlinear_arith)
        requires
            dd == 6real * ds,
            ds == d * s,
    ;
    assert forall|i: int| 0 <= i < 3 implies size(#[trigger] back[i] - turned[i]) <= dd by {
        linear::lemma_undone(ik, geom::rows(v.k), z, 2real * s, d, i);
        assert(z[i] == turned[i] + real_of(v.t[i]));
        assert(i == 0 || i == 1 || i == 2);
    }
    let sp = s / 3real;
    assert forall|i: int| 0 <= i < 3 implies (#[trigger] r[i]).is_finite() && size(real_of(r[i]) - real_of(p[i]))
        <= 4000real * eps() * gs + 19real * d * gs by {
        assert forall|j: int| 0 <= j < 3 implies (#[trigger] im[i][j]).is_finite() && size(real_of(im[i][j])) <= ga[j] by {
            assert(im[i][j] == v.inv_m[i][j]);
        }
        linear::lemma_row(im[i], e, back, ga, ea, 37real * gs, 27real);
        assert(r[i] == (im[i][0] * e[0] + im[i][1] * e[1]) + im[i][2] * e[2]);
        assert(33real * eps() * (3real * (37real * gs)) <= 4000real * eps() * gs) by (nonlinear_arith)
            requires
                eps() == 1real / 16777216real,
                gs >= 1real,
        ;
        assert forall|j: int| 0 <= j < 3 implies size(#[trigger] reals(p)[j]) <= sp by {
            let w = size(real_of(p[j]));
            assert(p[j].is_finite());
            let tw = 3real * w;
            assert(3real * g * w == g * tw) by (nonlinear_arith)
                requires
                    tw == 3real * w,
            ;
            assert(tw <= g * tw) by (nonlinear_arith)
                requires
                    g >= 1real,
                    tw >= 0real,
            ;
            assert(j == 0 || j == 1 || j == 2);
        }
        linear::lemma_undone(im, geom::rows(v.m), reals(p), sp, d, i);
        assert(size(real_of(im[i][0])) <= g && size(real_of(im[i][1])) <= g && size(real_of(im[i][2])) <= g) by {
            assert(im[i][0].is_finite() && im[i][1].is_finite() && im[i][2].is_finite());
        }
        assert(size(back[0] - turned[0]) <= dd && size(back[1] - turned[1]) <= dd && size(back[2] - turned[2]) <= dd);
        linear::lemma_near_rows(im[i], back, turned, g, dd);
        let gds = g * ds;
        assert(ds <= gds) by (nonlinear_arith)
            requires
                gds == g * ds,
                g >= 1real,
                ds >= 0real,
        ;
        assert(g * dd == 6real * gds) by (nonlinear_arith)
            requires
                dd == 6real * ds,
                gds == g * ds,
        ;
        assert(3real * d * sp == ds) by (nonlinear_arith)
            requires
                sp == s / 3real,
                ds == d * s,
        ;
        linear::lemma_order(d, g, s);
        linear::lemma_order(g, d, s);
        linear::lemma_order(d, gs, 0real);
        assert(19real * d * gs == 19real * (d * gs)) by (nonlinear_arith);
        assert(reals(p)[i] == real_of(p[i])) by {
            assert(i == 0 || i == 1 || i == 2);
        }
    }
}

/// A landmark that is the projection of its solid point lies in space where that point does, but for rounding.
pub proof fn lemma_projected_landmark(
    v: View3,
    lm: [Single; 3],
    solid: [Single; 3],
    g: real,
    f: real,
    s: real,
    d: real,
)
    requires
        is_sized(v, g, f, s),
        forall|j: int| 0 <= j < 3 ==> (#[trigger] solid@[j]).is_finite() && 3real * g * size(real_of(solid@[j])) <= s,
        undoes(geom::rows(v.inv_m), geom::rows(v.m), d),
        undoes(geom::rows(v.inv_k), geom::rows(v.k), d),
        0real <= d,
        size(real_of(in_camera(v, solid@)[2])) >= 1real / 1000real,
        lm[0] == in_camera(v, solid@)[0] / in_camera(v, solid@)[2],
        lm[1] == in_camera(v, solid@)[1] / in_camera(v, solid@)[2],
    ensures
        ({
            let r = landmark_in_space(v, lm, solid);
            &&& r.len() == 3
            &&& forall|i: int|
                0 <= i < 3 ==> (#[trigger] r[i]).is_finite() && size(real_of(r[i]) - real_of(solid@[i]))
                    <= 4000real * eps() * (g * s) + 19real * d * (g * s)
        }),
{
    lemma_unprojecting_undoes_projecting(v, solid@, g, f, s, d);
    lemma_in_camera(v, solid@, g, f, s);
    words::lemma_nothing();
    let z = in_camera(v, solid@)[2];
    near::lemma_real_order(z, single::of(0));
    near::lemma_real_order(single::of(0), z);
}

/// Of a face whose pose was found, each landmark that is the projection of its solid point gives that point back as
/// its point in space, but for rounding.
pub proof fn lemma_points_of_face(
    r: DepthResult,
    v: View3,
    lms: Seq<[Single; 3]>,
    face: Seq<[Single; 3]>,
    fitted: int,
    arcs: Seq<Single>,
    rotation: Seq<Single>,
    translation: Seq<Single>,
    i: int,
    g: real,
    f: real,
    s: real,
    d: real,
)
    requires
        is_success(r, v, lms, face, fitted, arcs, rotation, translation),
        0 <= i < 66,
        is_sized(v, g, f, s),
        forall|j: int| 0 <= j < 3 ==> (#[trigger] face[i]@[j]).is_finite() && 3real * g * size(real_of(face[i]@[j])) <= s,
        undoes(geom::rows(v.inv_m), geom::rows(v.m), d),
        undoes(geom::rows(v.inv_k), geom::rows(v.k), d),
        0real <= d,
        size(real_of(in_camera(v, face[i]@)[2])) >= 1real / 1000real,
        lms[i][0] == in_camera(v, face[i]@)[0] / in_camera(v, face[i]@)[2],
        lms[i][1] == in_camera(v, face[i]@)[1] / in_camera(v, face[i]@)[2],
    ensures
        forall|j: int|
            0 <= j < 3 ==> size(real_of(#[trigger] r.pts_3d[i]@[j]) - real_of(face[i]@[j])) <= 4000real * eps() * (g
                * s) + 19real * d * (g * s),
{
    lemma_projected_landmark(v, lms[i], face[i], g, f, s, d);
    let q = landmark_in_space(v, lms[i], face[i]);
    assert(q[0].is_finite() && q[1].is_finite() && q[2].is_finite());
    assert(r.pts_3d[i]@ == cleaned(raw_point(v, lms, face, i)));
}

/// The middle of an eyeball lies between the corners of the eye, and behind them by 0.385 of the distance between them;
/// but for rounding.
pub proof fn lemma_eyeball(a: Seq<Single>, b: Seq<Single>, m: real)
    requires
        forall|j: int|
            0 <= j < 3 ==> (#[trigger] a[j]).is_finite() && size(real_of(a[j])) <= m,
        forall|j: int|
            0 <= j < 3 ==> (#[trigger] b[j]).is_finite() && size(real_of(b[j])) <= m,
        dist3_of(a, b).is_finite(),
        size(real_of(dist3_of(a, b))) <= 4real * m,
        1real / 1000000real <= m <= 1000000000000real,
    ensures
        ({
            let r = eyeball(a, b);
            &&& r.len() == 3
            &&& roughly(r[0], (real_of(a[0]) + real_of(b[0])) / 2real, m, 5real)
            &&& roughly(r[1], (real_of(a[1]) + real_of(b[1])) / 2real, m, 5real)
            &&& roughly(
                r[2],
                (real_of(a[2]) + real_of(b[2])) / 2real - 385real / 1000real * real_of(dist3_of(a, b)),
                3real * m,
                7real,
            )
        }),
{
    reveal(eyeball);
    lemma_between(a[0], b[0], m);
    lemma_between(a[1], b[1], m);
    lemma_between(a[2], b[2], m);
    let k = single::of(decimal::N0_385);
    let d = dist3_of(a, b);
    let v = 385real / 1000real;
    lemma_behind();
    near::lemma_itself(d, 4real * m);
    let n = v * (4real * m);
    assert(n == 1540real / 1000real * m) by (nonlinear_arith)
        requires
            n == v * (4real * m),
            v == 385real / 1000real,
    ;
    near::lemma_times(k, v, v, 1real, d, real_of(d), 4real * m, 0real);
    let two = single::of(decimal::N2);
    let (c, vc) = ((a[2] + b[2]) / two, (real_of(a[2]) + real_of(b[2])) / 2real);
    near::lemma_looser(k * d, v * real_of(d), n, 3real, 2real * m, 5real);
    near::lemma_less(c, vc, m, k * d, v * real_of(d), 2real * m, 5real);
    near::lemma_looser(c - k * d, vc - v * real_of(d), m + 2real * m, 7real, 3real * m, 7real);
}

proof fn lemma_behind()
    ensures
        roughly(single::of(decimal::N0_385), 385real / 1000real, 385real / 1000real, 1real),
{
    lemma2_to64();
    lemma_pow2_adds(12, 13);
    let v = 12918456real / 33554432real;
    words::lemma_word_value(decimal::N0_385, 124, 0xc5_1eb8, 25, 33554432real, v);
    assert(1real * eps() * (385real / 1000real) == 385real / 16777216000real);
}

/// The middle of two numbers.
proof fn lemma_between(x: Single, y: Single, m: real)
    requires
        x.is_finite() && y.is_finite(),
        size(real_of(x)) <= m && size(real_of(y)) <= m,
        1real / 1000000real <= m <= 1000000000000real,
    ensures
        roughly((x + y) / single::of(decimal::N2), (real_of(x) + real_of(y)) / 2real, m, 5real),
{
    let two = single::of(decimal::N2);
    words::lemma_words();
    near::lemma_itself(two, 2real);
    near::lemma_itself(x, m);
    near::lemma_itself(y, m);
    near::lemma_add(x, real_of(x), m, y, real_of(y), m, 0real);
    near::lemma_over(x + y, real_of(x) + real_of(y), m + m, 2real, two, 2real, 0real);
    assert((m + m) / 2real == m);
}

} // verus!
