//! Inverses of matrices, as real numbers.

use crate::ieee::near;
use crate::ieee::near::{eps, real_of, roughly, size};
use crate::ieee::single;
use crate::ieee::single::Single;
use crate::ieee::words;
use crate::pnp;
use crate::pnp::linear;
use crate::pnp::linear::{off_identity, undoes};
use vstd::prelude::*;

verus! {

/// The determinant of a matrix.
pub open spec fn determinant(m00: real, m01: real, m02: real, m10: real, m11: real, m12: real, m20: real, m21: real, m22: real) -> real {
    m00 * (m11 * m22 - m21 * m12) - m01 * (m10 * m22 - m20 * m12) + m02 * (m10 * m21 - m20 * m11)
}

/// A product of three.
spec fn tri(x: real, y: real, z: real) -> real {
    x * (y * z)
}

/// Three factors in any order.
proof fn lemma_tri(x: real, y: real, z: real)
    ensures
        tri(x, y, z) == tri(x, z, y),
        tri(x, y, z) == tri(y, x, z),
        tri(x, y, z) == tri(y, z, x),
        tri(x, y, z) == tri(z, x, y),
        tri(x, y, z) == tri(z, y, x),
{
    linear::lemma_order(y, z, x);
    linear::lemma_order(z, y, x);
    linear::lemma_order(x, y, z);
    linear::lemma_order(y, x, z);
    linear::lemma_order(x, z, y);
    linear::lemma_order(z, x, y);
}

/// A difference of two products, times a third number.
proof fn lemma_minor_times(p: real, q: real, r: real, s: real, t: real)
    ensures
        (p * q - r * s) * t == tri(p, q, t) - tri(r, s, t),
        (-(p * q - r * s)) * t == tri(r, s, t) - tri(p, q, t),
        t * (p * q - r * s) == tri(p, q, t) - tri(r, s, t),
{
    let (a, b) = (p * q, r * s);
    assert((a - b) * t == a * t - b * t && (-(a - b)) * t == b * t - a * t && t * (a - b) == a * t - b * t)
        by (nonlinear_arith);
    linear::lemma_order(p, q, t);
    linear::lemma_order(r, s, t);
}

/// The cofactors of a matrix, over its determinant, undo it.
proof fn lemma_cofactors(m00: real, m01: real, m02: real, m10: real, m11: real, m12: real, m20: real, m21: real, m22: real)
    ensures
        (m11 * m22 - m21 * m12) * m00 + (m02 * m21 - m22 * m01) * m10 + (m01 * m12 - m11 * m02) * m20 == determinant(m00, m01, m02, m10, m11, m12, m20, m21, m22),
        (m11 * m22 - m21 * m12) * m01 + (m02 * m21 - m22 * m01) * m11 + (m01 * m12 - m11 * m02) * m21 == 0real,
        (m11 * m22 - m21 * m12) * m02 + (m02 * m21 - m22 * m01) * m12 + (m01 * m12 - m11 * m02) * m22 == 0real,
        (-(m10 * m22 - m20 * m12)) * m00 + (m00 * m22 - m20 * m02) * m10 + (m02 * m10 - m12 * m00) * m20 == 0real,
        (-(m10 * m22 - m20 * m12)) * m01 + (m00 * m22 - m20 * m02) * m11 + (m02 * m10 - m12 * m00) * m21 == determinant(m00, m01, m02, m10, m11, m12, m20, m21, m22),
        (-(m10 * m22 - m20 * m12)) * m02 + (m00 * m22 - m20 * m02) * m12 + (m02 * m10 - m12 * m00) * m22 == 0real,
        (m10 * m21 - m20 * m11) * m00 + (m01 * m20 - m21 * m00) * m10 + (m00 * m11 - m10 * m01) * m20 == 0real,
        (m10 * m21 - m20 * m11) * m01 + (m01 * m20 - m21 * m00) * m11 + (m00 * m11 - m10 * m01) * m21 == 0real,
        (m10 * m21 - m20 * m11) * m02 + (m01 * m20 - m21 * m00) * m12 + (m00 * m11 - m10 * m01) * m22 == determinant(m00, m01, m02, m10, m11, m12, m20, m21, m22),
{
    lemma_tri(m00, m10, m21);
    lemma_tri(m00, m10, m22);
    lemma_tri(m00, m11, m20);
    lemma_tri(m00, m11, m21);
    lemma_tri(m00, m11, m22);
    lemma_tri(m00, m12, m20);
    lemma_tri(m00, m12, m21);
    lemma_tri(m00, m12, m22);
    lemma_tri(m01, m10, m20);
    lemma_tri(m01, m10, m21);
    lemma_tri(m01, m10, m22);
    lemma_tri(m01, m11, m20);
    lemma_tri(m01, m11, m22);
    lemma_tri(m01, m12, m20);
    lemma_tri(m01, m12, m21);
    lemma_tri(m01, m12, m22);
    lemma_tri(m02, m10, m20);
    lemma_tri(m02, m10, m21);
    lemma_tri(m02, m10, m22);
    lemma_tri(m02, m11, m20);
    lemma_tri(m02, m11, m21);
    lemma_tri(m02, m11, m22);
    lemma_tri(m02, m12, m20);
    lemma_tri(m02, m12, m21);
    lemma_minor_times(m11, m22, m21, m12, m00);
    lemma_minor_times(m02, m21, m22, m01, m10);
    lemma_minor_times(m01, m12, m11, m02, m20);
    lemma_minor_times(m11, m22, m21, m12, m01);
    lemma_minor_times(m02, m21, m22, m01, m11);
    lemma_minor_times(m01, m12, m11, m02, m21);
    lemma_minor_times(m11, m22, m21, m12, m02);
    lemma_minor_times(m02, m21, m22, m01, m12);
    lemma_minor_times(m01, m12, m11, m02, m22);
    lemma_minor_times(m10, m22, m20, m12, m00);
    lemma_minor_times(m00, m22, m20, m02, m10);
    lemma_minor_times(m02, m10, m12, m00, m20);
    lemma_minor_times(m10, m22, m20, m12, m01);
    lemma_minor_times(m00, m22, m20, m02, m11);
    lemma_minor_times(m02, m10, m12, m00, m21);
    lemma_minor_times(m10, m22, m20, m12, m02);
    lemma_minor_times(m00, m22, m20, m02, m12);
    lemma_minor_times(m02, m10, m12, m00, m22);
    lemma_minor_times(m10, m21, m20, m11, m00);
    lemma_minor_times(m01, m20, m21, m00, m10);
    lemma_minor_times(m00, m11, m10, m01, m20);
    lemma_minor_times(m10, m21, m20, m11, m01);
    lemma_minor_times(m01, m20, m21, m00, m11);
    lemma_minor_times(m00, m11, m10, m01, m21);
    lemma_minor_times(m10, m21, m20, m11, m02);
    lemma_minor_times(m01, m20, m21, m00, m12);
    lemma_minor_times(m00, m11, m10, m01, m22);
}

/// A difference of two products of entries.
proof fn lemma_minor(p: Single, q: Single, r: Single, s: Single, g: real, g2: real)
    requires
        p.is_finite() && q.is_finite() && r.is_finite() && s.is_finite(),
        size(real_of(p)) <= g && size(real_of(q)) <= g && size(real_of(r)) <= g && size(real_of(s)) <= g,
        g2 == g * g,
        1real <= g2 <= 1000000real,
    ensures
        roughly(p * q - r * s, real_of(p) * real_of(q) - real_of(r) * real_of(s), 2real * g2, 4real),
{
    near::lemma_itself(p, g);
    near::lemma_itself(q, g);
    near::lemma_itself(r, g);
    near::lemma_itself(s, g);
    near::lemma_times(p, real_of(p), g, 0real, q, real_of(q), g, 0real);
    near::lemma_times(r, real_of(r), g, 0real, s, real_of(s), g, 0real);
    near::lemma_less(p * q, real_of(p) * real_of(q), g2, r * s, real_of(r) * real_of(s), g2, 2real);
}

/// The sum of an entry of a row of the inverse times those of a column, where the row's entries lie close to those
/// that sum up to `e`.
proof fn lemma_close_sum(x: Seq<real>, y: Seq<real>, z: Seq<real>, e: real, h: real, g: real)
    requires
        size(x[0] - y[0]) <= h && size(x[1] - y[1]) <= h && size(x[2] - y[2]) <= h,
        size(z[0]) <= g && size(z[1]) <= g && size(z[2]) <= g,
        y[0] * z[0] + y[1] * z[1] + y[2] * z[2] == e,
    ensures
        size(x[0] * z[0] + x[1] * z[1] + x[2] * z[2] - e) <= 3real * (h * g),
{
    lemma_close_term(x[0], y[0], z[0], h, g);
    lemma_close_term(x[1], y[1], z[1], h, g);
    lemma_close_term(x[2], y[2], z[2], h, g);
}

proof fn lemma_close_term(x: real, y: real, z: real, h: real, g: real)
    requires
        size(x - y) <= h,
        size(z) <= g,
    ensures
        size(x * z - y * z) <= h * g,
{
    let e = x - y;
    assert(size(e * z) <= h * g) by (nonlinear_arith)
        requires
            size(e) <= h,
            size(z) <= g,
    ;
    assert(x * z - y * z == e * z) by (nonlinear_arith)
        requires
            e == x - y,
    ;
}

/// Three quotients by the same number, times three others, are the quotient of the sum.
proof fn lemma_over_sum(a: real, b: real, c: real, d: real, x: real, y: real, z: real, e: real)
    requires
        d != 0real,
        a * x + b * y + c * z == e * d,
    ensures
        a / d * x + b / d * y + c / d * z == e,
{
    lemma_slide(a, d, x);
    lemma_slide(b, d, y);
    lemma_slide(c, d, z);
    let s = a / d * x + b / d * y + c / d * z;
    let (p, q, r) = (a / d * x, b / d * y, c / d * z);
    assert((p + q + r) * d == p * d + q * d + r * d) by (nonlinear_arith);
    assert(s == e) by (nonlinear_arith)
        requires
            s * d == e * d,
            d != 0real,
    ;
}

proof fn lemma_slide(a: real, d: real, x: real)
    requires
        d != 0real,
    ensures
        a / d * x * d == a * x,
{
    let q = a / d;
    linear::lemma_quotient(a, d);
    linear::lemma_order(q, x, d);
    linear::lemma_order(x, d, q);
    linear::lemma_order(q, d, x);
    assert(q * x * d == q * d * x) by (nonlinear_arith);
}

/// The determinant of a matrix, given by its rows.
pub open spec fn determinant_of(m: Seq<Seq<Single>>) -> real {
    determinant(
        real_of(m[0][0]),
        real_of(m[0][1]),
        real_of(m[0][2]),
        real_of(m[1][0]),
        real_of(m[1][1]),
        real_of(m[1][2]),
        real_of(m[2][0]),
        real_of(m[2][1]),
        real_of(m[2][2]),
    )
}

/// An inverse undoes its matrix, but for rounding: where the entries are at most `g`, and the determinant is at least a
/// thirtieth of `g^3`, there is an inverse, and its product with the matrix changes nothing.
pub proof fn lemma_inverse_undoes(m: Seq<Seq<Single>>, g: real)
    requires
        forall|i: int, j: int|
            0 <= i < 3 && 0 <= j < 3 ==> (#[trigger] m[i][j]).is_finite() && size(real_of(m[i][j])) <= g,
        1real <= g <= 1000real,
        g * (g * g) <= 30real * size(determinant_of(m)),
    ensures
        pnp::inverse_of(m) is Some,
        ({
            let k = g * (g * g) / size(determinant_of(m));
            undoes(pnp::inverse_of(m)->0, m, 6real * k * ((60real * k + 7real) * eps()))
        }),
{
    let g2 = g * g;
    let g3 = g * g2;
    let det = determinant_of(m);
    let n = size(det);
    let e = eps();
    assert(m[0][0].is_finite() && m[0][1].is_finite() && m[0][2].is_finite());
    assert(m[1][0].is_finite() && m[1][1].is_finite() && m[1][2].is_finite());
    assert(m[2][0].is_finite() && m[2][1].is_finite() && m[2][2].is_finite());
    linear::lemma_products(1real, g, 1real, g);
    linear::lemma_products(g, 1000real, g, 1000real);
    linear::lemma_products(1real, g, 1real, g2);
    linear::lemma_products(g, 1000real, g2, 1000000real);
    let k = g3 / n;
    linear::lemma_quotient(g3, n);
    assert(k > 0real) by (nonlinear_arith)
        requires
            k * n == g3,
            g3 >= 1real,
            n > 0real,
    ;
    assert(k <= 30real) by (nonlinear_arith)
        requires
            k * n == g3,
            g3 <= 30real * n,
            n > 0real,
    ;
    let a = m[1][1] * m[2][2] - m[2][1] * m[1][2];
    let b = m[1][0] * m[2][2] - m[2][0] * m[1][2];
    let c = m[1][0] * m[2][1] - m[2][0] * m[1][1];
    let ra = real_of(m[1][1]) * real_of(m[2][2]) - real_of(m[2][1]) * real_of(m[1][2]);
    let rb = real_of(m[1][0]) * real_of(m[2][2]) - real_of(m[2][0]) * real_of(m[1][2]);
    let rc = real_of(m[1][0]) * real_of(m[2][1]) - real_of(m[2][0]) * real_of(m[1][1]);
    lemma_minor(m[1][1], m[2][2], m[2][1], m[1][2], g, g2);
    lemma_minor(m[1][0], m[2][2], m[2][0], m[1][2], g, g2);
    lemma_minor(m[1][0], m[2][1], m[2][0], m[1][1], g, g2);
    near::lemma_itself(m[0][0], g);
    near::lemma_itself(m[0][1], g);
    near::lemma_itself(m[0][2], g);
    let t = 2real * g2;
    assert(g * t == 2real * g3) by (nonlinear_arith)
        requires
            t == 2real * g2,
            g3 == g * g2,
    ;
    let (r0, r1, r2) = (real_of(m[0][0]), real_of(m[0][1]), real_of(m[0][2]));
    near::lemma_times(m[0][0], r0, g, 0real, a, ra, t, 4real);
    near::lemma_times(m[0][1], r1, g, 0real, b, rb, t, 4real);
    near::lemma_times(m[0][2], r2, g, 0real, c, rc, t, 4real);
    let u = 2real * g3;
    near::lemma_less(m[0][0] * a, r0 * ra, u, m[0][1] * b, r1 * rb, u, 6real);
    near::lemma_looser(m[0][2] * c, r2 * rc, u, 6real, u, 8real);
    near::lemma_add(m[0][0] * a - m[0][1] * b, r0 * ra - r1 * rb, u + u, m[0][2] * c, r2 * rc, u, 8real);
    let d = m[0][0] * a - m[0][1] * b + m[0][2] * c;
    assert(det == r0 * ra - r1 * rb + r2 * rc);
    let ck = 60real * k;
    assert(10real * e * (u + u + u) == 60real * e * g3) by (nonlinear_arith)
        requires
            u == 2real * g3,
    ;
    assert(ck * e * n == 60real * e * g3) by (nonlinear_arith)
        requires
            ck == 60real * k,
            k * n == g3,
    ;
    assert(roughly(d, det, n, ck));
    assert(60real * e * g3 <= n / 1000real) by (nonlinear_arith)
        requires
            e == 1real / 16777216real,
            g3 <= 30real * n,
            n > 0real,
    ;
    words::lemma_nothing();
    near::lemma_real_order(d, single::of(0));
    near::lemma_real_order(single::of(0), d);
    assert(!d.same(single::of(0)));
    let inv = pnp::inverse_of(m)->0;
    let h = t / n;
    linear::lemma_quotient(t, n);
    assert(g * h == 2real * k) by {
        linear::lemma_order(g, h, n);
        linear::lemma_order(g, t, 0real);
        assert((2real * k) * n == 2real * (k * n)) by (nonlinear_arith);
        assert(g * h == 2real * k) by (nonlinear_arith)
            requires
                (g * h) * n == (2real * k) * n,
                n > 0real,
        ;
    }
    assert(h > 0real) by (nonlinear_arith)
        requires
            h * n == t,
            t >= 2real,
            n > 0real,
    ;
    assert(h >= 1real / 1000000000000real) by (nonlinear_arith)
        requires
            h * n == t,
            t >= 2real,
            n <= 6000000000real,
            h > 0real,
    ;
    assert(h <= 60real) by (nonlinear_arith)
        requires
            g * h == 2real * k,
            k <= 30real,
            g >= 1real,
            h >= 0real,
    ;
    let w = (60real * k + 7real) * e * h;
    lemma_minor(m[1][1], m[2][2], m[2][1], m[1][2], g, g2);
    near::lemma_over(m[1][1] * m[2][2] - m[2][1] * m[1][2], real_of(m[1][1]) * real_of(m[2][2]) - real_of(m[2][1]) * real_of(m[1][2]), t, 4real, d, det, ck);
    assert(size(real_of(inv[0][0]) - (real_of(m[1][1]) * real_of(m[2][2]) - real_of(m[2][1]) * real_of(m[1][2])) / det) <= w && inv[0][0].is_finite());
    lemma_minor(m[0][2], m[2][1], m[2][2], m[0][1], g, g2);
    near::lemma_over(m[0][2] * m[2][1] - m[2][2] * m[0][1], real_of(m[0][2]) * real_of(m[2][1]) - real_of(m[2][2]) * real_of(m[0][1]), t, 4real, d, det, ck);
    assert(size(real_of(inv[0][1]) - (real_of(m[0][2]) * real_of(m[2][1]) - real_of(m[2][2]) * real_of(m[0][1])) / det) <= w && inv[0][1].is_finite());
    lemma_minor(m[0][1], m[1][2], m[1][1], m[0][2], g, g2);
    near::lemma_over(m[0][1] * m[1][2] - m[1][1] * m[0][2], real_of(m[0][1]) * real_of(m[1][2]) - real_of(m[1][1]) * real_of(m[0][2]), t, 4real, d, det, ck);
    assert(size(real_of(inv[0][2]) - (real_of(m[0][1]) * real_of(m[1][2]) - real_of(m[1][1]) * real_of(m[0][2])) / det) <= w && inv[0][2].is_finite());
    near::lemma_turned(b, rb, t, 4real);
    near::lemma_over(b.negated(), -rb, t, 4real, d, det, ck);
    assert(size(real_of(inv[1][0]) - (-rb) / det) <= w && inv[1][0].is_finite());
    lemma_minor(m[0][0], m[2][2], m[2][0], m[0][2], g, g2);
    near::lemma_over(m[0][0] * m[2][2] - m[2][0] * m[0][2], real_of(m[0][0]) * real_of(m[2][2]) - real_of(m[2][0]) * real_of(m[0][2]), t, 4real, d, det, ck);
    assert(size(real_of(inv[1][1]) - (real_of(m[0][0]) * real_of(m[2][2]) - real_of(m[2][0]) * real_of(m[0][2])) / det) <= w && inv[1][1].is_finite());
    lemma_minor(m[0][2], m[1][0], m[1][2], m[0][0], g, g2);
    near::lemma_over(m[0][2] * m[1][0] - m[1][2] * m[0][0], real_of(m[0][2]) * real_of(m[1][0]) - real_of(m[1][2]) * real_of(m[0][0]), t, 4real, d, det, ck);
    assert(size(real_of(inv[1][2]) - (real_of(m[0][2]) * real_of(m[1][0]) - real_of(m[1][2]) * real_of(m[0][0])) / det) <= w && inv[1][2].is_finite());
    lemma_minor(m[1][0], m[2][1], m[2][0], m[1][1], g, g2);
    near::lemma_over(m[1][0] * m[2][1] - m[2][0] * m[1][1], real_of(m[1][0]) * real_of(m[2][1]) - real_of(m[2][0]) * real_of(m[1][1]), t, 4real, d, det, ck);
    assert(size(real_of(inv[2][0]) - (real_of(m[1][0]) * real_of(m[2][1]) - real_of(m[2][0]) * real_of(m[1][1])) / det) <= w && inv[2][0].is_finite());
    lemma_minor(m[0][1], m[2][0], m[2][1], m[0][0], g, g2);
    near::lemma_over(m[0][1] * m[2][0] - m[2][1] * m[0][0], real_of(m[0][1]) * real_of(m[2][0]) - real_of(m[2][1]) * real_of(m[0][0]), t, 4real, d, det, ck);
    assert(size(real_of(inv[2][1]) - (real_of(m[0][1]) * real_of(m[2][0]) - real_of(m[2][1]) * real_of(m[0][0])) / det) <= w && inv[2][1].is_finite());
    lemma_minor(m[0][0], m[1][1], m[1][0], m[0][1], g, g2);
    near::lemma_over(m[0][0] * m[1][1] - m[1][0] * m[0][1], real_of(m[0][0]) * real_of(m[1][1]) - real_of(m[1][0]) * real_of(m[0][1]), t, 4real, d, det, ck);
    assert(size(real_of(inv[2][2]) - (real_of(m[0][0]) * real_of(m[1][1]) - real_of(m[1][0]) * real_of(m[0][1])) / det) <= w && inv[2][2].is_finite());
    lemma_cofactors(
        real_of(m[0][0]),
        real_of(m[0][1]),
        real_of(m[0][2]),
        real_of(m[1][0]),
        real_of(m[1][1]),
        real_of(m[1][2]),
        real_of(m[2][0]),
        real_of(m[2][1]),
        real_of(m[2][2]),
    );
    let slack = 6real * k * ((60real * k + 7real) * e);
    assert(3real * (w * g) == slack) by {
        let f = (60real * k + 7real) * e;
        linear::lemma_order(f, h, g);
        linear::lemma_order(h, g, 0real);
        linear::lemma_order(f, 2real * k, 0real);
        assert(3real * (2real * k * f) == 6real * k * f) by (nonlinear_arith);
    }
    assert(1real * det == det) by (nonlinear_arith);
    lemma_over_sum(
        real_of(m[1][1]) * real_of(m[2][2]) - real_of(m[2][1]) * real_of(m[1][2]),
        real_of(m[0][2]) * real_of(m[2][1]) - real_of(m[2][2]) * real_of(m[0][1]),
        real_of(m[0][1]) * real_of(m[1][2]) - real_of(m[1][1]) * real_of(m[0][2]),
        det,
        real_of(m[0][0]),
        real_of(m[1][0]),
        real_of(m[2][0]),
        1real,
    );
    lemma_close_sum(
        seq![real_of(inv[0][0]), real_of(inv[0][1]), real_of(inv[0][2])],
        seq![(real_of(m[1][1]) * real_of(m[2][2]) - real_of(m[2][1]) * real_of(m[1][2])) / det, (real_of(m[0][2]) * real_of(m[2][1]) - real_of(m[2][2]) * real_of(m[0][1])) / det, (real_of(m[0][1]) * real_of(m[1][2]) - real_of(m[1][1]) * real_of(m[0][2])) / det],
        seq![real_of(m[0][0]), real_of(m[1][0]), real_of(m[2][0])],
        1real,
        w,
        g,
    );
    assert(size(off_identity(inv, m, 0, 0)) <= slack);
    assert(0real * det == 0real) by (nonlinear_arith);
    lemma_over_sum(
        real_of(m[1][1]) * real_of(m[2][2]) - real_of(m[2][1]) * real_of(m[1][2]),
        real_of(m[0][2]) * real_of(m[2][1]) - real_of(m[2][2]) * real_of(m[0][1]),
        real_of(m[0][1]) * real_of(m[1][2]) - real_of(m[1][1]) * real_of(m[0][2]),
        det,
        real_of(m[0][1]),
        real_of(m[1][1]),
        real_of(m[2][1]),
        0real,
    );
    lemma_close_sum(
        seq![real_of(inv[0][0]), real_of(inv[0][1]), real_of(inv[0][2])],
        seq![(real_of(m[1][1]) * real_of(m[2][2]) - real_of(m[2][1]) * real_of(m[1][2])) / det, (real_of(m[0][2]) * real_of(m[2][1]) - real_of(m[2][2]) * real_of(m[0][1])) / det, (real_of(m[0][1]) * real_of(m[1][2]) - real_of(m[1][1]) * real_of(m[0][2])) / det],
        seq![real_of(m[0][1]), real_of(m[1][1]), real_of(m[2][1])],
        0real,
        w,
        g,
    );
    assert(size(off_identity(inv, m, 0, 1)) <= slack);
    assert(0real * det == 0real) by (nonlinear_arith);
    lemma_over_sum(
        real_of(m[1][1]) * real_of(m[2][2]) - real_of(m[2][1]) * real_of(m[1][2]),
        real_of(m[0][2]) * real_of(m[2][1]) - real_of(m[2][2]) * real_of(m[0][1]),
        real_of(m[0][1]) * real_of(m[1][2]) - real_of(m[1][1]) * real_of(m[0][2]),
        det,
        real_of(m[0][2]),
        real_of(m[1][2]),
        real_of(m[2][2]),
        0real,
    );
    lemma_close_sum(
        seq![real_of(inv[0][0]), real_of(inv[0][1]), real_of(inv[0][2])],
        seq![(real_of(m[1][1]) * real_of(m[2][2]) - real_of(m[2][1]) * real_of(m[1][2])) / det, (real_of(m[0][2]) * real_of(m[2][1]) - real_of(m[2][2]) * real_of(m[0][1])) / det, (real_of(m[0][1]) * real_of(m[1][2]) - real_of(m[1][1]) * real_of(m[0][2])) / det],
        seq![real_of(m[0][2]), real_of(m[1][2]), real_of(m[2][2])],
        0real,
        w,
        g,
    );
    assert(size(off_identity(inv, m, 0, 2)) <= slack);
    assert(0real * det == 0real) by (nonlinear_arith);
    lemma_over_sum(
        -rb,
        real_of(m[0][0]) * real_of(m[2][2]) - real_of(m[2][0]) * real_of(m[0][2]),
        real_of(m[0][2]) * real_of(m[1][0]) - real_of(m[1][2]) * real_of(m[0][0]),
        det,
        real_of(m[0][0]),
        real_of(m[1][0]),
        real_of(m[2][0]),
        0real,
    );
    lemma_close_sum(
        seq![real_of(inv[1][0]), real_of(inv[1][1]), real_of(inv[1][2])],
        seq![(-rb) / det, (real_of(m[0][0]) * real_of(m[2][2]) - real_of(m[2][0]) * real_of(m[0][2])) / det, (real_of(m[0][2]) * real_of(m[1][0]) - real_of(m[1][2]) * real_of(m[0][0])) / det],
        seq![real_of(m[0][0]), real_of(m[1][0]), real_of(m[2][0])],
        0real,
        w,
        g,
    );
    assert(size(off_identity(inv, m, 1, 0)) <= slack);
    assert(1real * det == det) by (nonlinear_arith);
    lemma_over_sum(
        -rb,
        real_of(m[0][0]) * real_of(m[2][2]) - real_of(m[2][0]) * real_of(m[0][2]),
        real_of(m[0][2]) * real_of(m[1][0]) - real_of(m[1][2]) * real_of(m[0][0]),
        det,
        real_of(m[0][1]),
        real_of(m[1][1]),
        real_of(m[2][1]),
        1real,
    );
    lemma_close_sum(
        seq![real_of(inv[1][0]), real_of(inv[1][1]), real_of(inv[1][2])],
        seq![(-rb) / det, (real_of(m[0][0]) * real_of(m[2][2]) - real_of(m[2][0]) * real_of(m[0][2])) / det, (real_of(m[0][2]) * real_of(m[1][0]) - real_of(m[1][2]) * real_of(m[0][0])) / det],
        seq![real_of(m[0][1]), real_of(m[1][1]), real_of(m[2][1])],
        1real,
        w,
        g,
    );
    assert(size(off_identity(inv, m, 1, 1)) <= slack);
    assert(0real * det == 0real) by (nonlinear_arith);
    lemma_over_sum(
        -rb,
        real_of(m[0][0]) * real_of(m[2][2]) - real_of(m[2][0]) * real_of(m[0][2]),
        real_of(m[0][2]) * real_of(m[1][0]) - real_of(m[1][2]) * real_of(m[0][0]),
        det,
        real_of(m[0][2]),
        real_of(m[1][2]),
        real_of(m[2][2]),
        0real,
    );
    lemma_close_sum(
        seq![real_of(inv[1][0]), real_of(inv[1][1]), real_of(inv[1][2])],
        seq![(-rb) / det, (real_of(m[0][0]) * real_of(m[2][2]) - real_of(m[2][0]) * real_of(m[0][2])) / det, (real_of(m[0][2]) * real_of(m[1][0]) - real_of(m[1][2]) * real_of(m[0][0])) / det],
        seq![real_of(m[0][2]), real_of(m[1][2]), real_of(m[2][2])],
        0real,
        w,
        g,
    );
    assert(size(off_identity(inv, m, 1, 2)) <= slack);
    assert(0real * det == 0real) by (nonlinear_arith);
    lemma_over_sum(
        real_of(m[1][0]) * real_of(m[2][1]) - real_of(m[2][0]) * real_of(m[1][1]),
        real_of(m[0][1]) * real_of(m[2][0]) - real_of(m[2][1]) * real_of(m[0][0]),
        real_of(m[0][0]) * real_of(m[1][1]) - real_of(m[1][0]) * real_of(m[0][1]),
        det,
        real_of(m[0][0]),
        real_of(m[1][0]),
        real_of(m[2][0]),
        0real,
    );
    lemma_close_sum(
        seq![real_of(inv[2][0]), real_of(inv[2][1]), real_of(inv[2][2])],
        seq![(real_of(m[1][0]) * real_of(m[2][1]) - real_of(m[2][0]) * real_of(m[1][1])) / det, (real_of(m[0][1]) * real_of(m[2][0]) - real_of(m[2][1]) * real_of(m[0][0])) / det, (real_of(m[0][0]) * real_of(m[1][1]) - real_of(m[1][0]) * real_of(m[0][1])) / det],
        seq![real_of(m[0][0]), real_of(m[1][0]), real_of(m[2][0])],
        0real,
        w,
        g,
    );
    assert(size(off_identity(inv, m, 2, 0)) <= slack);
    assert(0real * det == 0real) by (nonlinear_arith);
    lemma_over_sum(
        real_of(m[1][0]) * real_of(m[2][1]) - real_of(m[2][0]) * real_of(m[1][1]),
        real_of(m[0][1]) * real_of(m[2][0]) - real_of(m[2][1]) * real_of(m[0][0]),
        real_of(m[0][0]) * real_of(m[1][1]) - real_of(m[1][0]) * real_of(m[0][1]),
        det,
        real_of(m[0][1]),
        real_of(m[1][1]),
        real_of(m[2][1]),
        0real,
    );
    lemma_close_sum(
        seq![real_of(inv[2][0]), real_of(inv[2][1]), real_of(inv[2][2])],
        seq![(real_of(m[1][0]) * real_of(m[2][1]) - real_of(m[2][0]) * real_of(m[1][1])) / det, (real_of(m[0][1]) * real_of(m[2][0]) - real_of(m[2][1]) * real_of(m[0][0])) / det, (real_of(m[0][0]) * real_of(m[1][1]) - real_of(m[1][0]) * real_of(m[0][1])) / det],
        seq![real_of(m[0][1]), real_of(m[1][1]), real_of(m[2][1])],
        0real,
        w,
        g,
    );
    assert(size(off_identity(inv, m, 2, 1)) <= slack);
    assert(1real * det == det) by (nonlinear_arith);
    lemma_over_sum(
        real_of(m[1][0]) * real_of(m[2][1]) - real_of(m[2][0]) * real_of(m[1][1]),
        real_of(m[0][1]) * real_of(m[2][0]) - real_of(m[2][1]) * real_of(m[0][0]),
        real_of(m[0][0]) * real_of(m[1][1]) - real_of(m[1][0]) * real_of(m[0][1]),
        det,
        real_of(m[0][2]),
        real_of(m[1][2]),
        real_of(m[2][2]),
        1real,
    );
    lemma_close_sum(
        seq![real_of(inv[2][0]), real_of(inv[2][1]), real_of(inv[2][2])],
        seq![(real_of(m[1][0]) * real_of(m[2][1]) - real_of(m[2][0]) * real_of(m[1][1])) / det, (real_of(m[0][1]) * real_of(m[2][0]) - real_of(m[2][1]) * real_of(m[0][0])) / det, (real_of(m[0][0]) * real_of(m[1][1]) - real_of(m[1][0]) * real_of(m[0][1])) / det],
        seq![real_of(m[0][2]), real_of(m[1][2]), real_of(m[2][2])],
        1real,
        w,
        g,
    );
    assert(size(off_identity(inv, m, 2, 2)) <= slack);
    assert forall|i: int, j: int| 0 <= i < 3 && 0 <= j < 3 implies size(#[trigger] off_identity(inv, m, i, j)) <= slack by {
        assert(i == 0 || i == 1 || i == 2);
        assert(j == 0 || j == 1 || j == 2);
    }
}

} // verus!
