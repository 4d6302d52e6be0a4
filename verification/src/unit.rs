//! How long a quaternion is once it was divided by its length.

use crate::filter;
use crate::filter::{norm_of, TINY_NORM};
use crate::geom;
use crate::ieee::binary;
use crate::ieee::decimal;
use crate::ieee::facts;
use crate::ieee::order;
use crate::ieee::order::val;
use crate::ieee::round;
use crate::ieee::single;
use crate::ieee::single::Single;
use crate::quat;
use vstd::arithmetic::power2::*;
use vstd::prelude::*;

verus! {

/// One, in units of the smallest number.
pub open spec fn unit() -> int {
    pow2(149) as int
}

/// The slack of rounding numbers below four, in units of the smallest number.
pub open spec fn grain() -> int {
    pow2(126) as int
}

/// Whether a number lies between minus four and four.
pub open spec fn small(x: Single) -> bool {
    x.is_finite() && -4 * unit() < val(x) < 4 * unit()
}

/// Whether each number of a quaternion lies between minus four and four.
pub open spec fn all_small(q: Seq<Single>) -> bool {
    &&& q.len() == 4
    &&& forall|i: int| 0 <= i < 4 ==> small(#[trigger] q[i])
}

/// The sum of the four squares, in squares of the smallest number.
pub open spec fn squares(q: Seq<Single>) -> int {
    val(q[0]) * val(q[0]) + val(q[1]) * val(q[1]) + val(q[2]) * val(q[2]) + val(q[3]) * val(q[3])
}

/// Whether a quaternion has length one within a ten-thousandth: the sum of its squares differs from
/// one by no more than a six-thousandth.
pub open spec fn is_unit(q: Seq<Single>) -> bool {
    let whole = unit() * unit();
    &&& q.len() == 4
    &&& 6000 * (squares(q) - whole) <= whole
    &&& 6000 * (whole - squares(q)) <= whole
}

proof fn lemma_scale()
    ensures
        unit() == 0x80_0000 * grain(),
        grain() > 0x1_0000,
        pow2(151) == 4 * unit(),
        pow2(152) == 8 * unit(),
        pow2(153) == 16 * unit(),
        pow2(154) == 32 * unit(),
        pow2(155) == 64 * unit(),
        pow2(156) == 128 * unit(),
        pow2(127) == 2 * grain(),
        pow2(128) == 4 * grain(),
        pow2(129) == 8 * grain(),
        pow2(130) == 16 * grain(),
        pow2(131) == 32 * grain(),
        pow2(132) == 64 * grain(),
{
    lemma2_to64();
    lemma_pow2_adds(23, 126);
    lemma_pow2_adds(17, 109);
    lemma_pow2_pos(109);
    lemma_pow2_unfold(127);
    lemma_pow2_unfold(128);
    lemma_pow2_unfold(129);
    lemma_pow2_unfold(130);
    lemma_pow2_unfold(131);
    lemma_pow2_unfold(132);
    lemma_pow2_unfold(150);
    lemma_pow2_unfold(151);
    lemma_pow2_unfold(152);
    lemma_pow2_unfold(153);
    lemma_pow2_unfold(154);
    lemma_pow2_unfold(155);
    lemma_pow2_unfold(156);
}

/// The square of a small number.
proof fn lemma_square_close(x: Single)
    requires
        small(x),
    ensures
        (x * x).is_finite(),
        !(x * x).minus(),
        0 <= val(x * x) <= 16 * unit() + 4 * grain(),
        val(x * x) * unit() - val(x) * val(x) <= 4 * (unit() * grain()),
        val(x) * val(x) - val(x * x) * unit() <= 4 * (unit() * grain()),
{
    let (u, g) = (unit(), grain());
    let v = val(x);
    lemma_scale();
    assert(0 <= v * v < 16 * u * u) by (nonlinear_arith)
        requires
            -4 * u < v < 4 * u,
    ;
    assert(pow2(153) * pow2(149) == 16 * u * u) by (nonlinear_arith)
        requires
            pow2(153) == 16 * u,
            pow2(149) == u,
    ;
    order::lemma_product_close(x, x, 153);
    let p = val(x * x);
    assert(2 * (p * u - v * v) <= 8 * (u * g) && 2 * (v * v - p * u) <= 8 * (u * g)) by (nonlinear_arith)
        requires
            2 * (p * pow2(149) - v * v) <= pow2(149) * pow2(129),
            2 * (v * v - p * pow2(149)) <= pow2(149) * pow2(129),
            pow2(129) == 8 * g,
            pow2(149) == u,
    ;
    order::lemma_val_sign(x * x);
    assert(p <= 16 * u + 4 * g) by (nonlinear_arith)
        requires
            p * u - v * v <= 4 * (u * g),
            v * v < 16 * u * u,
            u > 0,
    ;
}

/// The square root of a number.
proof fn lemma_root_close(s: Single) -> (r: int)
    requires
        s.is_finite(),
        0 <= val(s) <= 65 * unit(),
        !s.minus(),
    ensures
        0 <= r <= 9 * unit(),
        r * r <= val(s) * unit() < (r + 1) * (r + 1),
        s.sqrt().is_finite(),
        !s.sqrt().minus(),
        -9 * grain() <= val(s.sqrt()) - r <= 9 * grain(),
{
    let f = single::layout();
    let u = pow2(149);
    lemma_scale();
    lemma2_to64();
    reveal(Single::sqrt_spec);
    assert(f.top * pow2(23) == 0x7f80_0000);
    let n = binary::value(s.mag(), f) * u;
    let r = binary::isqrt(n);
    binary::lemma_isqrt(n, 0);
    assert(n <= 65 * u * u) by (nonlinear_arith)
        requires
            n == binary::value(s.mag(), f) * u,
            binary::value(s.mag(), f) <= 65 * u,
    ;
    assert(r <= 9 * u) by (nonlinear_arith)
        requires
            r * r <= n,
            n <= 65 * u * u,
            u > 0,
            r >= 0,
    ;
    let m = 2 * r + (if r * r == n {
        0nat
    } else {
        1nat
    });
    order::lemma_nearest_close(m, 2, 153);
    assert(131 * pow2(23) < 0x7f80_0000);
    let w = round::nearest(m, 2, 24);
    assert(2 * (round::units(w, 24) * 2 - m) <= 2 * pow2(129));
    assert(2 * (m - round::units(w, 24) * 2) <= 2 * pow2(129));
    r as int
}

/// The quotient of a small number by one of nearly a half or more.
proof fn lemma_quotient_close(x: Single, n: Single)
    requires
        small(x),
        n.is_finite(),
        !n.minus(),
        2048 * val(n) >= 1023 * unit(),
    ensures
        (x / n).is_finite(),
        val(x / n) * val(n) - val(x) * unit() <= 4 * (val(n) * grain()),
        val(x) * unit() - val(x / n) * val(n) <= 4 * (val(n) * grain()),
        !x.minus() ==> !(x / n).minus(),
{
    let f = single::layout();
    let u = pow2(149);
    lemma_scale();
    lemma2_to64();
    reveal(Single::spec_euclidean_or_real_div);
    assert(f.inf() == 0x7f80_0000);
    let b = binary::value(x.mag(), f);
    let d = binary::value(n.mag(), f);
    assert(n.mag() > 0) by {
        assert(round::units(0, 24) == 0);
    }
    assert(b * u < pow2(153) * d) by (nonlinear_arith)
        requires
            0 <= b < 4 * u,
            2048 * d >= 1023 * u,
            pow2(153) == 16 * u,
            u > 0,
    ;
    order::lemma_nearest_close(b * u, d, 153);
    assert(131 * pow2(23) < 0x7f80_0000);
    let a = round::units(round::nearest(b * u, d, 24), 24);
    assert(2 * (a * d - b * u) <= 8 * (d * grain()) && 2 * (b * u - a * d) <= 8 * (d * grain()))
        by (nonlinear_arith)
        requires
            2 * (a * d - b * u) <= d * pow2(129),
            2 * (b * u - a * d) <= d * pow2(129),
            pow2(129) == 8 * grain(),
    ;
    assert((-(a as int)) * d == -(a * d) && (-(b as int)) * u == -(b * u)) by (nonlinear_arith);
}

/// How far the square of a quotient is from what it stands for.
proof fn lemma_squared_quotient(a: int, b: int, n: int, u: int, g: int)
    requires
        -4 * u <= b <= 4 * u,
        0 < n <= 10 * u,
        0 < g,
        100 * g <= u,
        a * n - b * u <= 4 * (n * g),
        b * u - a * n <= 4 * (n * g),
    ensures
        (a * a) * (n * n) - (b * b) * (u * u) <= 36 * (n * g * (u * u)),
        (b * b) * (u * u) - (a * a) * (n * n) <= 36 * (n * g * (u * u)),
{
    let (x, y, e) = (a * n, b * u, 4 * (n * g));
    assert(x * x == (a * a) * (n * n) && y * y == (b * b) * (u * u)) by (nonlinear_arith)
        requires
            x == a * n,
            y == b * u,
    ;
    let uu = u * u;
    assert(-4 * uu <= y <= 4 * uu && 0 <= e) by (nonlinear_arith)
        requires
            y == b * u,
            uu == u * u,
            e == 4 * (n * g),
            -4 * u <= b <= 4 * u,
            0 < n,
            0 < g,
            0 <= u,
    ;
    assert(e <= uu) by (nonlinear_arith)
        requires
            e == 4 * (n * g),
            uu == u * u,
            0 < n <= 10 * u,
            100 * g <= u,
            0 < g,
    ;
    let d = x - y;
    assert(x * x - y * y == d * (2 * y + d)) by (nonlinear_arith)
        requires
            d == x - y,
    ;
    assert(-(e * (9 * uu)) <= d * (2 * y + d) <= e * (9 * uu)) by (nonlinear_arith)
        requires
            -e <= d <= e,
            -9 * uu <= 2 * y + d <= 9 * uu,
            0 <= e,
    ;
    assert(e * (9 * uu) == 36 * (n * g * (u * u))) by (nonlinear_arith)
        requires
            e == 4 * (n * g),
            uu == u * u,
    ;
}

/// A rounded sum of the rounded squares against the squares.
proof fn lemma_total(q: Seq<Single>, s: Single)
    requires
        all_small(q),
        ({
            let total = val(q[0] * q[0]) + val(q[1] * q[1]) + val(q[2] * q[2]) + val(q[3] * q[3]);
            -64 * grain() <= val(s) - total <= 64 * grain()
        }),
    ensures
        val(s) <= 65 * unit(),
        val(s) * unit() - squares(q) <= 80 * (unit() * grain()),
        squares(q) - val(s) * unit() <= 80 * (unit() * grain()),
{
    let (u, g) = (unit(), grain());
    lemma_scale();
    lemma_square_close(q[0]);
    lemma_square_close(q[1]);
    lemma_square_close(q[2]);
    lemma_square_close(q[3]);
    let (v0, v1, v2, v3) = (
        val(q[0] * q[0]),
        val(q[1] * q[1]),
        val(q[2] * q[2]),
        val(q[3] * q[3]),
    );
    let total = v0 + v1 + v2 + v3;
    let su = val(s) * u;
    assert(su - total * u <= 64 * (u * g) && total * u - su <= 64 * (u * g)) by (nonlinear_arith)
        requires
            su == val(s) * u,
            -64 * g <= val(s) - total <= 64 * g,
            u > 0,
    ;
    assert(total * u == v0 * u + v1 * u + v2 * u + v3 * u) by (nonlinear_arith)
        requires
            total == v0 + v1 + v2 + v3,
    ;
}

/// The root of the sum of the squares, however they were added, against the squares.
proof fn lemma_norm_close(q: Seq<Single>, s: Single) -> (n: int)
    requires
        all_small(q),
        s.is_finite(),
        !s.minus(),
        ({
            let total = val(q[0] * q[0]) + val(q[1] * q[1]) + val(q[2] * q[2]) + val(q[3] * q[3]);
            -64 * grain() <= val(s) - total <= 64 * grain()
        }),
    ensures
        s.sqrt().is_finite(),
        !s.sqrt().minus(),
        n == val(s.sqrt()),
        0 <= n <= 10 * unit(),
        n * n - squares(q) <= 244 * (unit() * grain()),
        squares(q) - n * n <= 244 * (unit() * grain()),
{
    let (u, g) = (unit(), grain());
    lemma_scale();
    lemma_total(q, s);
    let su = val(s) * u;
    order::lemma_val_sign(s);
    let r = lemma_root_close(s);
    let n = val(s.sqrt());
    order::lemma_val_sign(s.sqrt());
    let e = n - r;
    assert(n * n - su <= 164 * (u * g) && su - n * n <= 164 * (u * g)) by (nonlinear_arith)
        requires
            n == r + e,
            -9 * g <= e <= 9 * g,
            0 <= r <= 9 * u,
            r * r <= su < (r + 1) * (r + 1),
            u == 0x80_0000 * g,
            g > 0x1_0000,
    ;
    n
}

/// Squares added one after the other.
proof fn lemma_sum_in_turn(q: Seq<Single>)
    requires
        all_small(q),
    ensures
        ({
            let s = q[0] * q[0] + q[1] * q[1] + q[2] * q[2] + q[3] * q[3];
            let total = val(q[0] * q[0]) + val(q[1] * q[1]) + val(q[2] * q[2]) + val(q[3] * q[3]);
            &&& s.is_finite() && !s.minus()
            &&& -64 * grain() <= val(s) - total <= 64 * grain()
        }),
{
    lemma_scale();
    lemma_square_close(q[0]);
    lemma_square_close(q[1]);
    lemma_square_close(q[2]);
    lemma_square_close(q[3]);
    let (a, b, c, d) = (q[0] * q[0], q[1] * q[1], q[2] * q[2], q[3] * q[3]);
    order::lemma_sum_close(a, b, 155);
    order::lemma_plain_sum(a, b);
    let x = a + b;
    order::lemma_sum_close(x, c, 155);
    order::lemma_plain_sum(x, c);
    let y = x + c;
    order::lemma_sum_close(y, d, 156);
    order::lemma_plain_sum(y, d);
}

/// Squares added in pairs.
proof fn lemma_sum_in_pairs(q: Seq<Single>)
    requires
        all_small(q),
    ensures
        ({
            let s = quat::dot_of(q, q);
            let total = val(q[0] * q[0]) + val(q[1] * q[1]) + val(q[2] * q[2]) + val(q[3] * q[3]);
            &&& s.is_finite() && !s.minus()
            &&& -64 * grain() <= val(s) - total <= 64 * grain()
        }),
{
    lemma_scale();
    lemma_square_close(q[0]);
    lemma_square_close(q[1]);
    lemma_square_close(q[2]);
    lemma_square_close(q[3]);
    let (a, b, c, d) = (q[0] * q[0], q[1] * q[1], q[2] * q[2], q[3] * q[3]);
    order::lemma_sum_close(a, c, 155);
    order::lemma_plain_sum(a, c);
    order::lemma_sum_close(b, d, 155);
    order::lemma_plain_sum(b, d);
    order::lemma_sum_close(a + c, b + d, 156);
    order::lemma_plain_sum(a + c, b + d);
}

/// A quaternion divided by a number close to its length.
proof fn lemma_divided(q: Seq<Single>, m: Single, r: Seq<Single>)
    requires
        all_small(q),
        m.is_finite(),
        !m.minus(),
        1023 * unit() <= 2048 * val(m) <= 20480 * unit(),
        val(m) * val(m) - squares(q) <= 244 * (unit() * grain()),
        squares(q) - val(m) * val(m) <= 244 * (unit() * grain()),
        r.len() == 4,
        forall|i: int| 0 <= i < 4 ==> #[trigger] r[i] == q[i] / m,
    ensures
        is_unit(r),
        forall|i: int| 0 <= i < 4 ==> (#[trigger] r[i]).is_finite(),
{
    let (u, g) = (unit(), grain());
    lemma_scale();
    let n = val(m);
    assert forall|i: int| 0 <= i < 4 implies {
        let (x, y) = (val(#[trigger] r[i]), val(q[i]));
        &&& r[i].is_finite()
        &&& (x * x) * (n * n) - (y * y) * (u * u) <= 36 * (n * g * (u * u))
        &&& (y * y) * (u * u) - (x * x) * (n * n) <= 36 * (n * g * (u * u))
    } by {
        lemma_quotient_close(q[i], m);
        lemma_squared_quotient(val(r[i]), val(q[i]), n, u, g);
    }
    let (sr, sq) = (squares(r), squares(q));
    let (x0, x1, x2, x3) = (val(r[0]), val(r[1]), val(r[2]), val(r[3]));
    let (y0, y1, y2, y3) = (val(q[0]), val(q[1]), val(q[2]), val(q[3]));
    let (nn, uu, k) = (n * n, u * u, n * g * (u * u));
    assert(sr * nn == (x0 * x0) * nn + (x1 * x1) * nn + (x2 * x2) * nn + (x3 * x3) * nn) by (nonlinear_arith)
        requires
            sr == x0 * x0 + x1 * x1 + x2 * x2 + x3 * x3,
    ;
    assert(sq * uu == (y0 * y0) * uu + (y1 * y1) * uu + (y2 * y2) * uu + (y3 * y3) * uu) by (nonlinear_arith)
        requires
            sq == y0 * y0 + y1 * y1 + y2 * y2 + y3 * y3,
    ;
    assert(sr * nn - sq * uu <= 144 * k && sq * uu - sr * nn <= 144 * k);
    let ug = u * g;
    let nug = nn * ug;
    assert(1023 * k <= 2048 * nug) by (nonlinear_arith)
        requires
            k == n * g * (u * u),
            nug == n * n * (u * g),
            1023 * u <= 2048 * n,
            u > 0,
            g > 0,
            n > 0,
    ;
    assert(1000 * uu <= 4010 * nn) by (nonlinear_arith)
        requires
            uu == u * u,
            nn == n * n,
            1023 * u <= 2048 * n,
            u > 0,
            n > 0,
    ;
    assert(ug > 0 && nn > 0) by (nonlinear_arith)
        requires
            ug == u * g,
            nn == n * n,
            u > 0,
            g > 0,
            n > 0,
    ;
    assert(1000 * (ug * uu) <= 4010 * nug) by (nonlinear_arith)
        requires
            nug == nn * ug,
            1000 * uu <= 4010 * nn,
            ug > 0,
    ;
    let e = sq - nn;
    assert(sq * uu - nn * uu == e * uu) by (nonlinear_arith)
        requires
            e == sq - nn,
    ;
    assert(-244 * (ug * uu) <= e * uu <= 244 * (ug * uu)) by (nonlinear_arith)
        requires
            -244 * ug <= e <= 244 * ug,
            uu >= 0,
    ;
    let d = sr - uu;
    assert(d * nn == sr * nn - nn * uu) by (nonlinear_arith)
        requires
            d == sr - uu,
    ;
    assert(d * nn <= 1300 * nug && -(d * nn) <= 1300 * nug);
    assert(d <= 1300 * ug && -d <= 1300 * ug) by (nonlinear_arith)
        requires
            d * nn <= 1300 * nug,
            -(d * nn) <= 1300 * nug,
            nug == nn * ug,
            nn > 0,
    ;
    assert(uu == 0x80_0000 * ug) by (nonlinear_arith)
        requires
            u == 0x80_0000 * g,
            uu == u * u,
            ug == u * g,
    ;
}

/// A quaternion whose numbers lie between minus four and four, and whose length is at least a half
/// but for rounding, has length one once it was divided by its length, as `filter::euler_to_quat`
/// does.
pub proof fn lemma_unit_length(q: Seq<Single>)
    requires
        all_small(q),
        2048 * val(norm_of(q)) >= 1023 * unit(),
    ensures
        is_unit(q.map_values(|v: Single| v / norm_of(q))),
{
    lemma_scale();
    lemma_sum_in_turn(q);
    let s = q[0] * q[0] + q[1] * q[1] + q[2] * q[2] + q[3] * q[3];
    let n = lemma_norm_close(q, s);
    lemma_tiny();
    assert(norm_of(q) == s.sqrt());
    lemma_divided(q, norm_of(q), q.map_values(|v: Single| v / norm_of(q)));
}

/// The least length by which a quaternion is divided is far below a half.
proof fn lemma_tiny()
    ensures
        single::of(TINY_NORM).is_finite(),
        2048 * val(single::of(TINY_NORM)) < 1023 * unit(),
{
    lemma_scale();
    lemma2_to64();
    order::lemma_units_at(124, pow2(23));
    assert(124 * pow2(23) + pow2(23) == 0x3e80_0000);
    lemma_pow2_adds(23, 124);
    lemma_pow2_unfold(148);
    lemma_pow2_unfold(149);
    order::lemma_units_below(TINY_NORM as nat, 0x3e80_0000);
}

/// A quaternion whose numbers lie between minus four and four, and whose squares make up a quarter
/// or more but for rounding, has length one once it was divided by its length, as
/// `quat::normalized` does.
pub proof fn lemma_normalized(q: Seq<Single>)
    requires
        all_small(q),
        40970 * squares(q) >= 10240 * (unit() * unit()),
    ensures
        is_unit(quat::unit_of(q)),
        all_small(quat::unit_of(q)),
{
    let (u, g) = (unit(), grain());
    lemma_scale();
    lemma_sum_in_pairs(q);
    let n = lemma_norm_close(q, quat::dot_of(q, q));
    lemma_long_enough(n, squares(q));
    let r = quat::unit_of(q);
    lemma_divided(q, quat::dot_of(q, q).sqrt(), r);
    lemma_unit_is_small(r);
}

/// The root of squares of a quarter or more.
proof fn lemma_long_enough(n: int, sq: int)
    requires
        0 <= n,
        sq - n * n <= 244 * (unit() * grain()),
        40970 * sq >= 10240 * (unit() * unit()),
    ensures
        2048 * n >= 1023 * unit(),
{
    let (u, g) = (unit(), grain());
    lemma_scale();
    let (nn, uu, ug) = (n * n, u * u, u * g);
    assert(0x80_0000 * ug == uu) by (nonlinear_arith)
        requires
            u == 0x80_0000 * g,
            uu == u * u,
            ug == u * g,
    ;
    assert(4100 * nn >= 1024 * uu) by {
        assert(sq - nn <= 244 * ug);
        assert(uu >= 0) by (nonlinear_arith)
            requires
                uu == u * u,
        ;
    }
    assert(2048 * n >= 1023 * u) by (nonlinear_arith)
        requires
            0 <= n,
            u > 0,
            4100 * nn >= 1024 * uu,
            nn == n * n,
            uu == u * u,
    ;
}

/// The numbers of a quaternion of length one are small.
proof fn lemma_unit_is_small(r: Seq<Single>)
    requires
        is_unit(r),
        forall|i: int| 0 <= i < 4 ==> (#[trigger] r[i]).is_finite(),
    ensures
        all_small(r),
        forall|i: int| 0 <= i < 4 ==> -2 * unit() < val(#[trigger] r[i]) < 2 * unit(),
{
    let u = unit();
    lemma_scale();
    let (x0, x1, x2, x3) = (val(r[0]), val(r[1]), val(r[2]), val(r[3]));
    assert(x0 * x0 >= 0 && x1 * x1 >= 0 && x2 * x2 >= 0 && x3 * x3 >= 0) by (nonlinear_arith);
    assert forall|i: int| 0 <= i < 4 implies -2 * u < val(#[trigger] r[i]) < 2 * u by {
        let x = val(r[i]);
        assert(x * x <= squares(r));
        assert(-2 * u < x < 2 * u) by (nonlinear_arith)
            requires
                6000 * (x * x) <= 6001 * (u * u),
                u > 0,
        ;
    }
}

/// The fourth number of a turn followed by the turn back is the square of the length, but for
/// rounding.
pub proof fn lemma_back_to_length(q: Seq<Single>)
    requires
        all_small(q),
    ensures
        ({
            let w = quat::product_of(q, quat::conjugate_of(q))[3];
            &&& w.is_finite() && !w.minus()
            &&& val(w) * unit() - squares(q) <= 80 * (unit() * grain())
            &&& squares(q) - val(w) * unit() <= 80 * (unit() * grain())
        }),
{
    let p = seq![q[3], q[0], q[1], q[2]];
    let s = p[0] * p[0] + p[1] * p[1] + p[2] * p[2] + p[3] * p[3];
    lemma_sum_in_turn(p);
    lemma_total(p, s);
    assert forall|i: int| 0 <= i < 3 implies (#[trigger] q[i] * q[i].negated()).negated() == q[i] * q[i] by {
        lemma_square_close(q[i]);
        order::lemma_times_opposite(q[i], q[i]);
        order::lemma_double_negation(q[i] * q[i]);
    }
    assert((q[0] * q[0].negated()).negated() == q[0] * q[0]);
    assert((q[1] * q[1].negated()).negated() == q[1] * q[1]);
    assert((q[2] * q[2].negated()).negated() == q[2] * q[2]);
    assert(quat::product_of(q, quat::conjugate_of(q))[3] == s);
}

/// A turn of length one followed by the turn back is the identity but for rounding: of the axis,
/// the first number is zero and the others are below 2^-20, and the fourth number is one within a
/// four-thousandth.
pub proof fn lemma_back_to_rest(q: Seq<Single>)
    requires
        is_unit(q),
        all_small(q),
    ensures
        ({
            let r = quat::product_of(q, quat::conjugate_of(q));
            &&& r[0].mag() == 0
            &&& r[1].is_finite() && -pow2(129) < val(r[1]) < pow2(129)
            &&& r[2].is_finite() && -pow2(129) < val(r[2]) < pow2(129)
            &&& r[3].is_finite() && 4000 * (val(r[3]) - unit()) <= unit() && 4000 * (unit() - val(
                r[3],
            )) <= unit()
        }),
{
    let (u, g) = (unit(), grain());
    lemma_scale();
    lemma_unit_is_small(q);
    let two = single::of(decimal::N2);
    assert(val(two) == 2 * u && two.is_finite()) by {
        lemma2_to64();
        order::lemma_units_at(127, pow2(23));
        assert(127 * pow2(23) + pow2(23) == 0x4000_0000);
        lemma_pow2_adds(23, 127);
        lemma_pow2_unfold(150);
    }
    assert forall|i: int| 0 <= i < 4 implies (#[trigger] q[i]).abs().lt(two) by {
        assert(val(q[i].abs()) == val(q[i]) || val(q[i].abs()) == -val(q[i]));
        order::lemma_val_order(q[i].abs(), two);
    }
    quat::lemma_there_and_back(q);
    lemma_back_to_length(q);
    let w = val(quat::product_of(q, quat::conjugate_of(q))[3]);
    let (uu, ug) = (u * u, u * g);
    assert(uu == 0x80_0000 * ug) by (nonlinear_arith)
        requires
            u == 0x80_0000 * g,
            uu == u * u,
            ug == u * g,
    ;
    assert(ug > 0) by (nonlinear_arith)
        requires
            ug == u * g,
            u > 0,
            g > 0,
    ;
    assert(4000 * (w * u - uu) <= uu && 4000 * (uu - w * u) <= uu);
    assert(4000 * (w - u) <= u && 4000 * (u - w) <= u) by (nonlinear_arith)
        requires
            4000 * (w * u - uu) <= uu,
            4000 * (uu - w * u) <= uu,
            uu == u * u,
            u > 0,
    ;
}

/// Whether a number lies between `-n` and `n`, in units of the smallest number.
spec fn within(x: Single, n: int) -> bool {
    x.is_finite() && -n <= val(x) <= n
}

/// A sum of two numbers, and a difference.
proof fn lemma_sum_within(x: Single, y: Single, a: int, b: int)
    requires
        within(x, a),
        within(y, b),
        a + b < 8 * unit(),
    ensures
        within(x + y, a + b + 2 * grain()),
        within(x - y, a + b + 2 * grain()),
        -2 * grain() <= val(x + y) - (val(x) + val(y)) <= 2 * grain(),
        -2 * grain() <= val(x - y) - (val(x) - val(y)) <= 2 * grain(),
{
    lemma_scale();
    order::lemma_val_negated(y);
    order::lemma_sum_close(x, y, 152);
    order::lemma_sum_close(x, y.negated(), 152);
}

/// A product of shares is a share.
proof fn lemma_share_of(x: Single, y: Single)
    requires
        x.mag() <= single::ONE,
        y.mag() <= single::ONE,
    ensures
        (x * y).mag() <= single::ONE,
        within(x * y, unit()),
{
    order::lemma_share(x, y);
    lemma_share_within(x * y);
}

proof fn lemma_share_within(x: Single)
    requires
        x.mag() <= single::ONE,
    ensures
        within(x, unit()),
{
    facts::lemma_single_one();
    facts::lemma_units_monotone(x.mag() as nat, single::ONE as nat, 24);
}

/// The entries of the matrix of three angles.
proof fn lemma_entries(c: Seq<Single>, s: Seq<Single>)
    requires
        forall|i: int| 0 <= i < 3 ==> (#[trigger] c[i]).mag() <= single::ONE,
        forall|i: int| 0 <= i < 3 ==> (#[trigger] s[i]).mag() <= single::ONE,
    ensures
        ({
            let m = filter::turn_rows(c, s);
            &&& within(m[0][0], unit())
            &&& within(m[2][2], unit())
            &&& forall|i: int, j: int|
                0 <= i < 3 && 0 <= j < 3 ==> within(#[trigger] m[i][j], 2 * unit() + 2 * grain())
        }),
{
    let m = filter::turn_rows(c, s);
    let u = unit();
    lemma_scale();
    let (c0, c1, c2) = (c[0], c[1], c[2]);
    let (s0, s1, s2) = (s[0], s[1], s[2]);
    lemma_share_of(c1, c2);
    lemma_share_of(c2, s0);
    lemma_share_of(c2 * s0, s1);
    lemma_share_of(c0, s2);
    lemma_sum_within(c2 * s0 * s1, c0 * s2, u, u);
    lemma_share_of(s0, s2);
    lemma_share_of(c0, c2);
    lemma_share_of(c0 * c2, s1);
    lemma_sum_within(s0 * s2, c0 * c2 * s1, u, u);
    lemma_share_of(c1, s2);
    lemma_share_of(s0, s1);
    lemma_share_of(s0 * s1, s2);
    lemma_sum_within(c0 * c2, s0 * s1 * s2, u, u);
    lemma_share_of(c0, s1);
    lemma_share_of(c0 * s1, s2);
    lemma_sum_within(c0 * s1 * s2, c2 * s0, u, u);
    order::lemma_val_negated(s1);
    lemma_share_within(s1);
    lemma_share_of(c1, s0);
    lemma_share_of(c0, c1);
    assert forall|i: int, j: int| 0 <= i < 3 && 0 <= j < 3 implies within(
        #[trigger] m[i][j],
        2 * unit() + 2 * grain(),
    ) by {
        assert(i == 0 || i == 1 || i == 2);
        assert(j == 0 || j == 1 || j == 2);
    }
}

/// The number under the root is at least one but for rounding, and the four numbers are at most
/// about five.
proof fn lemma_parts(m: Seq<Seq<Single>>)
    requires
        within(m[0][0], unit()),
        within(m[2][2], unit()),
        forall|i: int, j: int|
            0 <= i < 3 && 0 <= j < 3 ==> within(#[trigger] m[i][j], 2 * unit() + 2 * grain()),
    ensures
        ({
            let (t, q) = geom::quaternion_parts(m);
            &&& t.is_finite()
            &&& unit() - 6 * grain() <= val(t) <= 5 * unit() + 10 * grain()
            &&& q.len() == 4
            &&& forall|i: int|
                0 <= i < 4 ==> q[i] == t || within(#[trigger] q[i], 4 * unit() + 6 * grain())
            &&& q[0] == t || q[1] == t || q[2] == t || q[3] == t
        }),
{
    let (u, g) = (unit(), grain());
    lemma_scale();
    let one = single::of(single::ONE);
    facts::lemma_single_one();
    let (a, b, d) = (m[0][0], m[1][1], m[2][2]);
    let z = single::of(0);
    assert(val(z) == 0) by {
        lemma2_to64();
        assert(round::units(0, 24) == 0);
    }
    assert(within(one, u));
    assert(within(b, 2 * u + 2 * g));
    order::lemma_val_negated(b);
    order::lemma_val_order(d, z);
    order::lemma_val_order(b, a);
    order::lemma_val_order(a, b.negated());
    lemma_sum_within(one, a, u, u);
    let (x, y) = (one + a, one - a);
    let k = 2 * u + 2 * g;
    lemma_sum_within(x, b, k, k);
    lemma_sum_within(y, b, k, k);
    lemma_sum_within(x - b, d, 2 * k + 2 * g, u);
    lemma_sum_within(y + b, d, 2 * k + 2 * g, u);
    lemma_sum_within(y - b, d, 2 * k + 2 * g, u);
    lemma_sum_within(x + b, d, 2 * k + 2 * g, u);
    lemma_sum_within(m[0][1], m[1][0], k, k);
    lemma_sum_within(m[2][0], m[0][2], k, k);
    lemma_sum_within(m[1][2], m[2][1], k, k);
}

/// Half the root of a number of one or more, from the number and the inverse of its root.
proof fn lemma_half_root(t: int, r: int, n: int, a: int, u: int, g: int)
    requires
        0 < g,
        1_000_000 * g <= u,
        0 <= t <= 5 * u + 10 * g,
        r * r <= t * u,
        u - 6 * g <= r <= 3 * u,
        r - 9 * g <= n <= r + 9 * g,
        2 * (a * n) >= u * u - 8 * (n * g),
    ensures
        2 * (t * a) >= u * (u - 160 * g),
{
    let x = u * (u - 160 * g);
    if 2 * (t * a) < x {
        assert(2 * (t * a) * n < x * n) by (nonlinear_arith)
            requires
                2 * (t * a) < x,
                n > 0,
        ;
        assert(2 * (t * a) * n == t * (2 * (a * n))) by (nonlinear_arith);
        assert(t * (2 * (a * n)) >= t * (u * u) - t * (8 * (n * g))) by (nonlinear_arith)
            requires
                2 * (a * n) >= u * u - 8 * (n * g),
                t >= 0,
        ;
        let ug = u * g;
        assert(t * (8 * (n * g)) <= 127 * (ug * u)) by (nonlinear_arith)
            requires
                0 <= t,
                1000 * t <= 5001 * u,
                0 <= n,
                1000 * n <= 3001 * u,
                ug == u * g,
                0 < g,
                0 < u,
        ;
        assert(t * (u * u) >= (r * r) * u) by (nonlinear_arith)
            requires
                r * r <= t * u,
                u > 0,
        ;
        assert(x * n <= (u * (r + 9 * g) - 160 * (g * (r + 9 * g))) * u) by (nonlinear_arith)
            requires
                x == u * (u - 160 * g),
                n <= r + 9 * g,
                u > 160 * g,
                g > 0,
        ;
        let y = u * (r + 9 * g) - 160 * (g * (r + 9 * g));
        assert((r * r) * u - 127 * (ug * u) < y * u);
        assert(r * r - 127 * ug < y) by (nonlinear_arith)
            requires
                (r * r) * u - 127 * (ug * u) < y * u,
                u > 0,
        ;
        assert(g * (r + 9 * g) >= g * r && u * (r + 9 * g) == u * r + 9 * ug) by (nonlinear_arith)
            requires
                g > 0,
                ug == u * g,
        ;
        assert(r * r - u * r + 160 * (g * r) < 136 * ug);
        assert(r * r - u * r + 160 * (g * r) >= 154 * (g * r)) by (nonlinear_arith)
            requires
                r >= u - 6 * g,
                r > 0,
        ;
        assert(154 * (g * r) >= 136 * ug) by (nonlinear_arith)
            requires
                1000 * r >= 999 * u,
                ug == u * g,
                g > 0,
                u > 0,
        ;
    }
}

/// A number of at most about five times the inverse of a root of one or more.
proof fn lemma_scaled(x: Single, h: Single) -> (p: int)
    requires
        within(x, 5 * unit() + 10 * grain()),
        within(h, unit()),
        2 * val(h) <= unit() + 60 * grain(),
        0 <= val(h),
    ensures
        p == val(x * h),
        small(x * h),
        -2 * (unit() * grain()) <= p * unit() - val(x) * val(h) <= 2 * (unit() * grain()),
{
    let (u, g) = (unit(), grain());
    lemma_scale();
    let (v, a) = (val(x), val(h));
    assert(-3 * (u * u) <= v * a <= 3 * (u * u)) by (nonlinear_arith)
        requires
            -5 * u - 10 * g <= v <= 5 * u + 10 * g,
            0 <= a,
            2 * a <= u + 60 * g,
            u == 0x80_0000 * g,
            g > 0,
    ;
    assert(pow2(152) * pow2(149) == 8 * (u * u)) by (nonlinear_arith)
        requires
            pow2(152) == 8 * u,
            pow2(149) == u,
    ;
    assert(u * u > 0) by (nonlinear_arith)
        requires
            u > 0,
    ;
    order::lemma_product_close(x, h, 152);
    let p = val(x * h);
    assert(-2 * (u * g) <= p * u - v * a <= 2 * (u * g)) by (nonlinear_arith)
        requires
            2 * (p * pow2(149) - v * a) <= pow2(149) * pow2(128),
            2 * (v * a - p * pow2(149)) <= pow2(149) * pow2(128),
            pow2(128) == 4 * g,
            pow2(149) == u,
    ;
    assert(-4 * u < p < 4 * u) by (nonlinear_arith)
        requires
            -2 * (u * g) <= p * u - v * a <= 2 * (u * g),
            -3 * (u * u) <= v * a <= 3 * (u * u),
            u == 0x80_0000 * g,
            g > 0,
    ;
    p
}

/// The quaternion of a matrix has small numbers, and one of them is a half or more but for rounding.
proof fn lemma_quaternion(m: Seq<Seq<Single>>)
    requires
        within(m[0][0], unit()),
        within(m[2][2], unit()),
        forall|i: int, j: int|
            0 <= i < 3 && 0 <= j < 3 ==> within(#[trigger] m[i][j], 2 * unit() + 2 * grain()),
    ensures
        all_small(geom::quaternion_of(m)),
        40970 * squares(geom::quaternion_of(m)) >= 10240 * (unit() * unit()),
{
    let (u, g) = (unit(), grain());
    lemma_scale();
    lemma_parts(m);
    let (t, k) = geom::quaternion_parts(m);
    let half = single::of(geom::HALF);
    let root = t.sqrt();
    let h = half / root;
    let v = val(t);
    let r = lemma_root_close(t);
    let n = val(root);
    assert(r >= u - 6 * g) by (nonlinear_arith)
        requires
            v * u < (r + 1) * (r + 1),
            v >= u - 6 * g,
            u == 0x80_0000 * g,
            g > 0,
            r >= 0,
    ;
    assert(r <= 3 * u) by (nonlinear_arith)
        requires
            r * r <= v * u,
            v <= 5 * u + 10 * g,
            u == 0x80_0000 * g,
            g > 0,
            r >= 0,
    ;
    assert(2 * val(half) == u && half.is_finite() && !half.minus()) by {
        lemma2_to64();
        order::lemma_units_at(125, pow2(23));
        assert(125 * pow2(23) + pow2(23) == 0x3f00_0000);
        lemma_pow2_adds(23, 125);
        lemma_pow2_unfold(149);
    }
    lemma_quotient_close(half, root);
    let a = val(h);
    order::lemma_val_sign(h);
    assert(2 * (a * n) >= u * u - 8 * (n * g) && 2 * (a * n) <= u * u + 8 * (n * g)) by (nonlinear_arith)
        requires
            a * n - val(half) * u <= 4 * (n * g),
            val(half) * u - a * n <= 4 * (n * g),
            2 * val(half) == u,
    ;
    assert(2 * a <= u + 60 * g) by (nonlinear_arith)
        requires
            2 * (a * n) <= u * u + 8 * (n * g),
            u - 15 * g <= n <= 3 * u + 9 * g,
            u == 0x80_0000 * g,
            g > 0,
    ;
    lemma_half_root(v, r, n, a, u, g);
    let q = geom::quaternion_of(m);
    assert forall|i: int| 0 <= i < 4 implies small(#[trigger] q[i]) && (k[i] == t ==> 2 * val(q[i]) >= u - 170 * g) by {
        assert(q[i] == k[i] * h);
        let p = lemma_scaled(k[i], h);
        if k[i] == t {
            assert(2 * p >= u - 170 * g) by (nonlinear_arith)
                requires
                    -2 * (u * g) <= p * u - v * a,
                    2 * (v * a) >= u * (u - 160 * g),
                    u > 0,
                    g > 0,
            ;
        }
    }
    let (x0, x1, x2, x3) = (val(q[0]), val(q[1]), val(q[2]), val(q[3]));
    assert(x0 * x0 >= 0 && x1 * x1 >= 0 && x2 * x2 >= 0 && x3 * x3 >= 0) by (nonlinear_arith);
    let i: int = if k[0] == t {
        0
    } else if k[1] == t {
        1
    } else if k[2] == t {
        2
    } else {
        3
    };
    let x = val(q[i]);
    assert(k[i] == t);
    assert(small(q[i]) && 2 * x >= u - 170 * g);
    assert(x * x <= squares(q));
    assert(40970 * (x * x) >= 10240 * (u * u)) by (nonlinear_arith)
        requires
            2 * x >= u - 170 * g,
            u == 0x80_0000 * g,
            g > 0,
    ;
}

/// Whatever the three cosines and sines are, the quaternion that `filter::euler_to_quat` makes of
/// them has length one.
pub proof fn lemma_turn_has_unit_length(c: Seq<Single>, s: Seq<Single>)
    requires
        forall|i: int| 0 <= i < 3 ==> (#[trigger] c[i]).abs().le(single::of(single::ONE)),
        forall|i: int| 0 <= i < 3 ==> (#[trigger] s[i]).abs().le(single::of(single::ONE)),
    ensures
        ({
            let q = geom::quaternion_of(filter::turn_rows(c, s));
            is_unit(q.map_values(|v: Single| v / norm_of(q)))
        }),
{
    lemma_scale();
    lemma_entries(c, s);
    let m = filter::turn_rows(c, s);
    lemma_quaternion(m);
    let q = geom::quaternion_of(m);
    lemma_sum_in_turn(q);
    let d = q[0] * q[0] + q[1] * q[1] + q[2] * q[2] + q[3] * q[3];
    let n = lemma_norm_close(q, d);
    lemma_long_enough(n, squares(q));
    lemma_tiny();
    order::lemma_val_order(d.sqrt(), single::of(TINY_NORM));
    assert(norm_of(q) == d.sqrt());
    lemma_unit_length(q);
}

} // verus!
