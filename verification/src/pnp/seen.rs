//! Where a camera sees points, as real numbers.

use crate::ieee::near;
use crate::ieee::near::{eps, real_of, roughly, size};
use crate::ieee::single;
use crate::ieee::single::Single;
use crate::ieee::words;
use crate::pnp;
use crate::pnp::linear;
use crate::pnp::linear::{dot, reals};
use crate::pnp::{Camera, TINY_DEPTH};
use vstd::arithmetic::power2::*;
use vstd::prelude::*;

verus! {

/// Whether a point that is turned and moved, and the camera that looks at it, have numbers of some size: entries
/// of the rotation of at most `g`, a place and a turned point of at most `s`, a camera of at most `f`.
pub open spec fn can_be_looked_at(
    p: Seq<Single>,
    m: Seq<Seq<Single>>,
    t: Seq<Single>,
    cam: Camera,
    g: real,
    f: real,
    s: real,
) -> bool {
    &&& 1real <= g <= 1000real
    &&& 1real <= f <= 1000000real
    &&& 1real <= s <= 1000000real
    &&& forall|i: int, j: int|
        0 <= i < 3 && 0 <= j < 3 ==> (#[trigger] m[i][j]).is_finite() && size(real_of(m[i][j])) <= g
    &&& forall|j: int| 0 <= j < 3 ==> (#[trigger] t[j]).is_finite() && size(real_of(t[j])) <= s
    &&& forall|j: int| 0 <= j < 3 ==> (#[trigger] p[j]).is_finite() && 3real * g * size(real_of(p[j])) <= s
    &&& cam.fx.is_finite() && cam.fy.is_finite() && cam.cx.is_finite() && cam.cy.is_finite()
    &&& size(real_of(cam.fx)) <= f && size(real_of(cam.fy)) <= f
    &&& size(real_of(cam.cx)) <= f && size(real_of(cam.cy)) <= f
}

/// A point that is turned and moved.
pub open spec fn placed(p: Seq<Single>, m: Seq<Seq<Single>>, t: Seq<Single>, i: int) -> real {
    dot(m[i], reals(p)) + real_of(t[i])
}

/// A coordinate of a point that is turned and moved.
proof fn lemma_placed(p: Seq<Single>, m: Seq<Seq<Single>>, t: Seq<Single>, cam: Camera, g: real, f: real, s: real, i: int)
    requires
        can_be_looked_at(p, m, t, cam, g, f, s),
        0 <= i < 3,
    ensures
        roughly(pnp::vec_sum(pnp::mat_vec(m, p), t)[i], placed(p, m, t, i), 2real * s, 8real),
{
    let tg = 3real * g;
    let q = s / tg;
    linear::lemma_quotient(s, tg);
    linear::lemma_order(q, tg, 0real);
    assert(tg * q == 3real * (g * q)) by (nonlinear_arith)
        requires
            tg == 3real * g,
    ;
    assert(q >= 1real / 10000real) by (nonlinear_arith)
        requires
            q * tg == s,
            3real <= tg <= 3000real,
            s >= 1real,
    ;
    assert forall|j: int| 0 <= j < 3 implies roughly(#[trigger] p[j], reals(p)[j], q, 0real) by {
        let z = size(real_of(p[j]));
        assert(z <= q) by (nonlinear_arith)
            requires
                tg * z <= q * tg,
                tg >= 3real,
        ;
        near::lemma_itself(p[j], q);
        assert(j == 0 || j == 1 || j == 2);
    }
    let (ga, qa) = (seq![g, g, g], seq![q, q, q]);
    assert forall|j: int| 0 <= j < 3 implies (#[trigger] m[i][j]).is_finite() && size(real_of(m[i][j])) <= ga[j] by {}
    assert forall|j: int| 0 <= j < 3 implies roughly(#[trigger] p[j], reals(p)[j], qa[j], 0real) by {}
    let w = s / 3real;
    linear::lemma_row(m[i], p, reals(p), ga, qa, w, 0real);
    assert(3real * w == s && 0real + 6real == 6real);
    let x = pnp::mat_vec(m, p);
    near::lemma_itself(t[i], s);
    near::lemma_looser(t[i], real_of(t[i]), s, 0real, s, 6real);
    near::lemma_add(x[i], dot(m[i], reals(p)), s, t[i], real_of(t[i]), s, 6real);
    assert(i == 0 || i == 1 || i == 2);
}

/// A camera sees a point where the line to it crosses the picture, but for rounding: the point, turned and moved, is
/// divided by its depth, stretched by the focal lengths, and moved to the middle of the picture. The depth is
/// at least a hundredth of `s`.
pub proof fn lemma_projected(
    p: Seq<Single>,
    m: Seq<Seq<Single>>,
    t: Seq<Single>,
    cam: Camera,
    g: real,
    f: real,
    s: real,
)
    requires
        can_be_looked_at(p, m, t, cam, g, f, s),
        s <= 100real * size(placed(p, m, t, 2)),
    ensures
        ({
            let r = pnp::projected(p, m, t, cam);
            let z = placed(p, m, t, 2);
            let k = s / size(z);
            let slack = (16real * k + 20real) * eps() * (2real * (f * k) + f);
            &&& r.len() == 2
            &&& r[0].is_finite() && r[1].is_finite()
            &&& size(real_of(r[0]) - (real_of(cam.fx) * placed(p, m, t, 0) / z + real_of(cam.cx))) <= slack
            &&& size(real_of(r[1]) - (real_of(cam.fy) * placed(p, m, t, 1) / z + real_of(cam.cy))) <= slack
        }),
{
    reveal(pnp::projected);
    let x = pnp::vec_sum(pnp::mat_vec(m, p), t);
    lemma_placed(p, m, t, cam, g, f, s, 0);
    lemma_placed(p, m, t, cam, g, f, s, 1);
    lemma_placed(p, m, t, cam, g, f, s, 2);
    let v = placed(p, m, t, 2);
    let n = size(v);
    let k = s / n;
    let e = eps();
    linear::lemma_quotient(s, n);
    assert(0real < k <= 100real) by (nonlinear_arith)
        requires
            k * n == s,
            s <= 100real * n,
            s >= 1real,
            n > 0real,
    ;
    assert(k >= 1real / 2real) by (nonlinear_arith)
        requires
            k * n == s,
            n <= 2real * s,
            k > 0real,
            s >= 1real,
    ;
    let c = 16real * k;
    assert(c * e * n == 16real * e * s) by (nonlinear_arith)
        requires
            c == 16real * k,
            k * n == s,
    ;
    assert(8real * e * (2real * s) == 16real * e * s) by (nonlinear_arith);
    assert(roughly(x[2], v, n, c));
    lemma_far(x[2], v, s);
    lemma_seen(cam.fx, cam.cx, x[0], placed(p, m, t, 0), x[2], v, f, s);
    lemma_seen(cam.fy, cam.cy, x[1], placed(p, m, t, 1), x[2], v, f, s);
}

/// A depth that is not close to nothing is divided by as it is.
proof fn lemma_far(z: Single, v: real, s: real)
    requires
        roughly(z, v, 2real * s, 8real),
        s <= 100real * size(v),
        1real <= s,
    ensures
        pnp::safe_depth(z) == z,
{
    let e = eps();
    assert(8real * e * (2real * s) <= s / 1000real) by (nonlinear_arith)
        requires
            e == 1real / 16777216real,
            s >= 1real,
    ;
    let tiny = single::of(TINY_DEPTH);
    lemma2_to64();
    near::lemma_opposite(z);
    words::lemma_nothing();
    near::lemma_real_order(z, single::of(0));
    assert(z.abs() == z || z.abs() == z.negated());
    lemma_tiny_depth();
    near::lemma_real_order(z.abs(), tiny);
    near::lemma_real_order(single::of(0), z.abs());
}

proof fn lemma_tiny_depth()
    ensures
        single::of(TINY_DEPTH).is_finite(),
        real_of(single::of(TINY_DEPTH)) <= 1real / 1000real,
{
    lemma2_to64();
    lemma_pow2_adds(10, 23);
    words::lemma_word_value(0x3a80_0000, 116, 0x80_0000, 33, 8589934592real, 8388608real / 8589934592real);
    near::lemma_real_order(single::of(TINY_DEPTH), single::of(0x3a80_0000));
}

/// One coordinate of the place where a point is seen.
proof fn lemma_seen(fx: Single, cx: Single, x: Single, vx: real, z: Single, vz: real, f: real, s: real)
    requires
        fx.is_finite() && cx.is_finite(),
        size(real_of(fx)) <= f,
        size(real_of(cx)) <= f,
        1real <= f <= 1000000real,
        1real <= s <= 1000000real,
        roughly(x, vx, 2real * s, 8real),
        vz != 0real,
        1real / 2real <= s / size(vz) <= 100real,
        roughly(z, vz, size(vz), 16real * (s / size(vz))),
    ensures
        ({
            let k = s / size(vz);
            let r = fx * x / z + cx;
            &&& r.is_finite()
            &&& size(real_of(r) - (real_of(fx) * vx / vz + real_of(cx))) <= (16real * k + 20real) * eps() * (2real
                * (f * k) + f)
        }),
{
    let n = size(vz);
    let k = s / n;
    linear::lemma_quotient(s, n);
    let (rf, rc) = (real_of(fx), real_of(cx));
    near::lemma_itself(fx, f);
    near::lemma_itself(cx, f);
    let fs = f * (2real * s);
    linear::lemma_products(1real, f, 1real, 2real * s);
    linear::lemma_products(f, 1000000real, 2real * s, 2000000real);
    near::lemma_times(fx, rf, f, 0real, x, vx, 2real * s, 8real);
    let q = fs / n;
    linear::lemma_quotient(fs, n);
    let fk = f * k;
    assert(fs == (2real * fk) * n) by {
        linear::lemma_order(f, k, n);
        linear::lemma_order(2real, fk, n);
        assert(f * (2real * s) == 2real * (f * s)) by (nonlinear_arith);
    }
    assert(q == 2real * fk) by (nonlinear_arith)
        requires
            q * n == (2real * fk) * n,
            n > 0real,
    ;
    linear::lemma_products(1real, f, 1real / 2real, k);
    linear::lemma_products(f, 1000000real, k, 100real);
    let c = 16real * k;
    near::lemma_over(fx * x, rf * vx, fs, 10real, z, vz, c);
    near::lemma_looser(cx, rc, f, 0real, f, c + 13real);
    let w = 2real * fk;
    near::lemma_looser(fx * x / z, rf * vx / vz, w, 10real + c + 3real, w, c + 13real);
    near::lemma_add(fx * x / z, rf * vx / vz, w, cx, rc, f, c + 13real);
    let (d, h, e) = (c + 15real, w + f, eps());
    assert(d * e * h <= (c + 20real) * e * h) by (nonlinear_arith)
        requires
            d == c + 15real,
            e == 1real / 16777216real,
            h >= 0real,
    ;
}

} // verus!
