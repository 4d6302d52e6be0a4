//! Products of matrices and vectors, as real numbers.

use crate::ieee::near;
use crate::ieee::near::{real_of, roughly, size};
use crate::ieee::single::Single;
use crate::ieee::words;
use vstd::prelude::*;

verus! {

/// A quotient times its divisor is the dividend.
pub proof fn lemma_quotient(a: real, b: real)
    requires
        b != 0real,
    ensures
        a / b * b == a,
{
    assert(a / b * b == a) by (nonlinear_arith)
        requires
            b != 0real,
    ;
}

/// Larger factors give larger products.
pub proof fn lemma_products(a: real, b: real, c: real, d: real)
    requires
        0real <= a <= b,
        0real <= c <= d,
    ensures
        0real <= a * c <= b * d,
{
    assert(a * c <= b * c && 0real <= a * c) by (nonlinear_arith)
        requires
            0real <= a <= b,
            0real <= c,
    ;
    assert(b * c <= b * d) by (nonlinear_arith)
        requires
            0real <= b,
            c <= d,
    ;
}

/// The factors of a product in another order.
pub proof fn lemma_order(a: real, b: real, c: real)
    ensures
        a * b == b * a,
        (a * b) * c == a * (b * c),
{
    assert(a * b == b * a) by (nonlinear_arith);
    assert((a * b) * c == a * (b * c)) by (nonlinear_arith);
}

/// The real numbers that three numbers stand for.
pub open spec fn reals(v: Seq<Single>) -> Seq<real> {
    seq![real_of(v[0]), real_of(v[1]), real_of(v[2])]
}

/// A product of a row and a vector.
pub open spec fn dot(r: Seq<Single>, x: Seq<real>) -> real {
    real_of(r[0]) * x[0] + real_of(r[1]) * x[1] + real_of(r[2]) * x[2]
}

/// A product of a matrix, given by its rows, and a vector.
pub open spec fn image(m: Seq<Seq<Single>>, x: Seq<real>) -> Seq<real> {
    seq![dot(m[0], x), dot(m[1], x), dot(m[2], x)]
}

/// The entry of a product of two matrices, less that of the matrix that changes nothing.
pub open spec fn off_identity(n: Seq<Seq<Single>>, m: Seq<Seq<Single>>, i: int, j: int) -> real {
    real_of(n[i][0]) * real_of(m[0][j]) + real_of(n[i][1]) * real_of(m[1][j]) + real_of(n[i][2]) * real_of(
        m[2][j],
    ) - (if i == j {
        1real
    } else {
        0real
    })
}

/// Whether `n` undoes `m`, but for `d`.
pub open spec fn undoes(n: Seq<Seq<Single>>, m: Seq<Seq<Single>>, d: real) -> bool {
    forall|i: int, j: int|
        0 <= i < 3 && 0 <= j < 3 ==> size(#[trigger] off_identity(n, m, i, j)) <= d
}

/// A product of two numbers that is at most `w`.
proof fn lemma_entry(m: Single, v: Single, x: real, a: real, b: real, w: real, c: real)
    requires
        m.is_finite(),
        size(real_of(m)) <= a,
        roughly(v, x, b, c),
        near::floor() <= a * b <= w,
        0real <= c <= 1000real,
        w <= words::most(),
    ensures
        roughly(m * v, real_of(m) * x, w, c + 2real),
{
    near::lemma_itself(m, a);
    near::lemma_times(m, real_of(m), a, 0real, v, x, b, c);
    assert(0real + c + 2real == c + 2real);
    near::lemma_looser(m * v, real_of(m) * x, a * b, c + 2real, w, c + 2real);
}

/// A product of three numbers with three others, of which each is at most `w`.
pub proof fn lemma_row(
    m: Seq<Single>,
    v: Seq<Single>,
    x: Seq<real>,
    a: Seq<real>,
    b: Seq<real>,
    w: real,
    c: real,
)
    requires
        forall|j: int| 0 <= j < 3 ==> (#[trigger] m[j]).is_finite() && size(real_of(m[j])) <= a[j],
        forall|j: int| 0 <= j < 3 ==> roughly(#[trigger] v[j], x[j], b[j], c),
        near::floor() <= a[0] * b[0] <= w,
        near::floor() <= a[1] * b[1] <= w,
        near::floor() <= a[2] * b[2] <= w,
        0real <= c <= 1000real,
        w <= words::most(),
    ensures
        roughly((m[0] * v[0] + m[1] * v[1]) + m[2] * v[2], dot(m, x), 3real * w, c + 6real),
{
    lemma_entry(m[0], v[0], x[0], a[0], b[0], w, c);
    lemma_entry(m[1], v[1], x[1], a[1], b[1], w, c);
    lemma_entry(m[2], v[2], x[2], a[2], b[2], w, c);
    let (p0, p1, p2) = (m[0] * v[0], m[1] * v[1], m[2] * v[2]);
    let (v0, v1, v2) = (real_of(m[0]) * x[0], real_of(m[1]) * x[1], real_of(m[2]) * x[2]);
    near::lemma_add(p0, v0, w, p1, v1, w, c + 2real);
    near::lemma_looser(p2, v2, w, c + 2real, w, c + 4real);
    near::lemma_add(p0 + p1, v0 + v1, w + w, p2, v2, w, c + 4real);
}

/// One matrix after another, and the entries of their product.
proof fn lemma_twice(n: Seq<Single>, a: Seq<Single>, b: Seq<Single>, c: Seq<Single>, x: Seq<real>)
    ensures
        real_of(n[0]) * dot(a, x) + real_of(n[1]) * dot(b, x) + real_of(n[2]) * dot(c, x) == (real_of(n[0])
            * real_of(a[0]) + real_of(n[1]) * real_of(b[0]) + real_of(n[2]) * real_of(c[0])) * x[0] + (real_of(
            n[0],
        ) * real_of(a[1]) + real_of(n[1]) * real_of(b[1]) + real_of(n[2]) * real_of(c[1])) * x[1] + (real_of(
            n[0],
        ) * real_of(a[2]) + real_of(n[1]) * real_of(b[2]) + real_of(n[2]) * real_of(c[2])) * x[2],
{
    let (n0, n1, n2) = (real_of(n[0]), real_of(n[1]), real_of(n[2]));
    let (a0, a1, a2) = (real_of(a[0]), real_of(a[1]), real_of(a[2]));
    let (b0, b1, b2) = (real_of(b[0]), real_of(b[1]), real_of(b[2]));
    let (c0, c1, c2) = (real_of(c[0]), real_of(c[1]), real_of(c[2]));
    let (x0, x1, x2) = (x[0], x[1], x[2]);
    lemma_spread(n0, a0, a1, a2, x0, x1, x2);
    lemma_spread(n1, b0, b1, b2, x0, x1, x2);
    lemma_spread(n2, c0, c1, c2, x0, x1, x2);
    lemma_gather(n0 * a0, n1 * b0, n2 * c0, x0);
    lemma_gather(n0 * a1, n1 * b1, n2 * c1, x1);
    lemma_gather(n0 * a2, n1 * b2, n2 * c2, x2);
}

proof fn lemma_spread(n: real, a: real, b: real, c: real, x: real, y: real, z: real)
    ensures
        n * (a * x + b * y + c * z) == (n * a) * x + (n * b) * y + (n * c) * z,
{
    let (p, q, r) = (a * x, b * y, c * z);
    assert(n * (p + q + r) == n * p + n * q + n * r) by (nonlinear_arith);
    lemma_order(n, a, x);
    lemma_order(n, b, y);
    lemma_order(n, c, z);
}

proof fn lemma_gather(a: real, b: real, c: real, x: real)
    ensures
        (a + b + c) * x == a * x + b * x + c * x,
{
    assert((a + b + c) * x == a * x + b * x + c * x) by (nonlinear_arith);
}

/// A matrix that undoes another gives back what went in, but for `3 d` times its size.
pub proof fn lemma_undone(n: Seq<Seq<Single>>, m: Seq<Seq<Single>>, x: Seq<real>, b: real, d: real, i: int)
    requires
        undoes(n, m, d),
        0 <= i < 3,
        x.len() == 3,
        forall|j: int| 0 <= j < 3 ==> size(#[trigger] x[j]) <= b,
    ensures
        size(dot(n[i], image(m, x)) - x[i]) <= 3real * d * b,
{
    lemma_twice(n[i], m[0], m[1], m[2], x);
    let (e0, e1, e2) = (off_identity(n, m, i, 0), off_identity(n, m, i, 1), off_identity(n, m, i, 2));
    let (x0, x1, x2) = (x[0], x[1], x[2]);
    lemma_share(e0, x0, d, b);
    lemma_share(e1, x1, d, b);
    lemma_share(e2, x2, d, b);
    lemma_step(e0, x0);
    lemma_step(e1, x1);
    lemma_step(e2, x2);
    assert(3real * d * b == d * b + d * b + d * b) by (nonlinear_arith);
    assert(i == 0 || i == 1 || i == 2);
}

proof fn lemma_share(e: real, x: real, d: real, b: real)
    requires
        size(e) <= d,
        size(x) <= b,
    ensures
        size(e * x) <= d * b,
{
    assert(size(e * x) <= d * b) by (nonlinear_arith)
        requires
            size(e) <= d,
            size(x) <= b,
    ;
}

proof fn lemma_step(e: real, x: real)
    ensures
        (e + 1real) * x == e * x + x,
{
    assert((e + 1real) * x == e * x + x) by (nonlinear_arith);
}

/// Products of a row with vectors that hardly differ.
pub proof fn lemma_near_rows(m: Seq<Single>, x: Seq<real>, y: Seq<real>, g: real, d: real)
    requires
        size(real_of(m[0])) <= g && size(real_of(m[1])) <= g && size(real_of(m[2])) <= g,
        size(x[0] - y[0]) <= d && size(x[1] - y[1]) <= d && size(x[2] - y[2]) <= d,
    ensures
        size(dot(m, x) - dot(m, y)) <= 3real * (g * d),
{
    lemma_apart(real_of(m[0]), x[0], y[0], g, d);
    lemma_apart(real_of(m[1]), x[1], y[1], g, d);
    lemma_apart(real_of(m[2]), x[2], y[2], g, d);
}

proof fn lemma_apart(m: real, x: real, y: real, g: real, d: real)
    requires
        size(m) <= g,
        size(x - y) <= d,
    ensures
        size(m * x - m * y) <= g * d,
{
    let e = x - y;
    lemma_share(m, e, g, d);
    assert(m * x - m * y == m * e) by (nonlinear_arith)
        requires
            e == x - y,
    ;
}

} // verus!
