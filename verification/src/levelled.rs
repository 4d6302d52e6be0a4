//! What eyes and brows measure once they are turned level, as real numbers.

use crate::features;
use crate::features::{Turn, SMALL, TWO};
use crate::ieee::maths;
use crate::ieee::near;
use crate::ieee::near::{real_of, roughly, size};
use crate::ieee::single;
use crate::ieee::single::Single;
use crate::ieee::words;
use crate::measured;
use crate::pnp::linear;
use vstd::arithmetic::power2::*;
use vstd::prelude::*;

verus! {

/// Whether a turn has a cosine and a sine of at most one.
pub open spec fn is_turn(t: Turn) -> bool {
    &&& t.cos.is_finite() && t.sin.is_finite()
    &&& size(real_of(t.cos)) <= 1real && size(real_of(t.sin)) <= 1real
}

/// Whether a point has two coordinates of at most `b` in size.
pub open spec fn is_point(p: Seq<Single>, b: real) -> bool {
    &&& p[0].is_finite() && p[1].is_finite()
    &&& size(real_of(p[0])) <= b && size(real_of(p[1])) <= b
}

/// How far a point lies above `o` once it is turned about it.
pub open spec fn rise(o: Seq<Single>, p: Seq<Single>, t: Turn) -> real {
    real_of(t.sin) * (real_of(p[0]) - real_of(o[0])) + real_of(t.cos) * (real_of(p[1]) - real_of(o[1]))
}

/// The height of a point that was turned level.
proof fn lemma_levelled(o: Seq<Single>, p: Seq<Single>, t: Turn, b: real)
    requires
        is_turn(t),
        is_point(o, b),
        is_point(p, b),
        words::least() <= b <= 1000000000000real,
    ensures
        roughly(features::levelled(o, p, t), real_of(o[1]) + rise(o, p, t), 5real * b, 8real),
{
    measured::lemma_pair(p[0], o[0], b);
    measured::lemma_pair(p[1], o[1], b);
    let (x, y) = (p[0] - o[0], p[1] - o[1]);
    let (vx, vy) = (real_of(p[0]) - real_of(o[0]), real_of(p[1]) - real_of(o[1]));
    near::lemma_itself(t.cos, 1real);
    near::lemma_itself(t.sin, 1real);
    near::lemma_itself(o[1], b);
    let two = 2real * b;
    assert(1real * two == two);
    let (c, s, r) = (real_of(t.cos), real_of(t.sin), real_of(o[1]));
    near::lemma_times(t.sin, s, 1real, 0real, x, vx, two, 2real);
    near::lemma_times(t.cos, c, 1real, 0real, y, vy, two, 2real);
    near::lemma_looser(o[1], r, b, 0real, b, 4real);
    near::lemma_add(o[1], r, b, t.sin * x, s * vx, two, 4real);
    near::lemma_looser(t.cos * y, c * vy, two, 4real, two, 6real);
    near::lemma_add(o[1] + t.sin * x, r + s * vx, b + two, t.cos * y, c * vy, two, 6real);
}

/// An eye is as open as its upper lid lies above its lower lid once it is level, each lid the mean of two points, in
/// widths of the eye; but for rounding.
pub proof fn lemma_eye_opening(
    outer: Seq<Single>,
    inner: Seq<Single>,
    u0: Seq<Single>,
    u1: Seq<Single>,
    l0: Seq<Single>,
    l1: Seq<Single>,
    t: Turn,
    b: real,
)
    requires
        is_turn(t),
        is_point(outer, b) && is_point(u0, b) && is_point(u1, b) && is_point(l0, b) && is_point(l1, b),
        words::least() <= b <= 1000000000000real,
        ({
            let w = maths::hypot(inner[0] - outer[0], inner[1] - outer[1]).max(single::of(SMALL));
            w.is_finite() && real_of(w) >= 1real / 1000000000real && real_of(w) <= 1000000000000real * b
        }),
    ensures
        ({
            let r = features::aspect(outer, inner, u0, u1, l0, l1, t);
            let w = real_of(maths::hypot(inner[0] - outer[0], inner[1] - outer[1]).max(single::of(SMALL)));
            let upper = (rise(outer, u0, t) + rise(outer, u1, t)) / 2real;
            let lower = (rise(outer, l0, t) + rise(outer, l1, t)) / 2real;
            roughly(r, size(upper - lower) / w, 10real * b / w, 18real)
        }),
{
    let two = single::of(TWO);
    words::lemma_words();
    near::lemma_itself(two, 2real);
    lemma_levelled(outer, u0, t, b);
    lemma_levelled(outer, u1, t, b);
    lemma_levelled(outer, l0, t, b);
    lemma_levelled(outer, l1, t, b);
    let o = real_of(outer[1]);
    let (a0, a1) = (features::levelled(outer, u0, t), features::levelled(outer, u1, t));
    let (b0, b1) = (features::levelled(outer, l0, t), features::levelled(outer, l1, t));
    let (x0, x1) = (o + rise(outer, u0, t), o + rise(outer, u1, t));
    let (y0, y1) = (o + rise(outer, l0, t), o + rise(outer, l1, t));
    let five = 5real * b;
    near::lemma_add(a0, x0, five, a1, x1, five, 8real);
    near::lemma_add(b0, y0, five, b1, y1, five, 8real);
    near::lemma_over(a0 + a1, x0 + x1, five + five, 10real, two, 2real, 0real);
    near::lemma_over(b0 + b1, y0 + y1, five + five, 10real, two, 2real, 0real);
    assert((five + five) / 2real == five);
    let (u, l) = ((a0 + a1) / two, (b0 + b1) / two);
    let (vu, vl) = ((x0 + x1) / 2real, (y0 + y1) / 2real);
    near::lemma_less(u, vu, five, l, vl, five, 13real);
    measured::lemma_abs(u - l, vu - vl, five + five, 15real);
    let h = maths::hypot(inner[0] - outer[0], inner[1] - outer[1]).max(single::of(SMALL));
    let w = real_of(h);
    near::lemma_itself(h, w);
    assert(five + five == 10real * b);
    let q = 10real * b / w;
    lemma_sizes(10real * b, w, q);
    near::lemma_over((u - l).abs(), size(vu - vl), 10real * b, 15real, h, w, 0real);
    let upper = (rise(outer, u0, t) + rise(outer, u1, t)) / 2real;
    let lower = (rise(outer, l0, t) + rise(outer, l1, t)) / 2real;
    assert(vu - vl == upper - lower);
}

proof fn lemma_sizes(a: real, w: real, q: real)
    requires
        q == a / w,
        w >= 1real / 1000000000real,
        w <= 1000000000000real * a,
        a <= 10000000000000real,
    ensures
        near::floor() <= q <= near::limit(),
{
    linear::lemma_quotient(a, w);
    assert(q > 0real) by (nonlinear_arith)
        requires
            q * w == a,
            a > 0real,
            w > 0real,
    ;
    assert(q >= 1real / 1000000000000real) by (nonlinear_arith)
        requires
            q * w == a,
            w <= 1000000000000real * a,
            q > 0real,
            a > 0real,
    ;
    assert(q <= 10000000000000000000000real) by (nonlinear_arith)
        requires
            q * w == a,
            w >= 1real / 1000000000real,
            a <= 10000000000000real,
            q > 0real,
    ;
}

/// What the eyes of a face say: the left one of its points 42 to 47 and the right one of its points 36 to 41, the
/// corners first, then the upper lid, then the lower one from the inner corner on.
pub proof fn lemma_eyes_of_face(p: Seq<[Single; 3]>, t: features::Turns, b: real)
    requires
        measured::points_within(p, b),
        is_turn(t.eye_l),
        is_turn(t.eye_r),
        words::least() <= b <= 1000000000000real,
        is_width(p, 42, 45, b),
        is_width(p, 36, 39, b),
    ensures
        ({
            let m = features::measures_of(p, t);
            let (wl, wr) = (real_of(width(p, 42, 45)), real_of(width(p, 36, 39)));
            let h = |o: int, i: int, u: Turn| rise(p[o]@, p[i]@, u);
            let left = (h(42, 43, t.eye_l) + h(42, 44, t.eye_l)) / 2real - (h(42, 47, t.eye_l) + h(
                42,
                46,
                t.eye_l,
            )) / 2real;
            let right = (h(36, 37, t.eye_r) + h(36, 38, t.eye_r)) / 2real - (h(36, 41, t.eye_r) + h(
                36,
                40,
                t.eye_r,
            )) / 2real;
            &&& roughly(m.open_l, size(left) / wl, 10real * b / wl, 18real)
            &&& roughly(m.open_r, size(right) / wr, 10real * b / wr, 18real)
        }),
{
    reveal(features::measures_of);
    assert forall|i: int| 0 <= i < 66 implies is_point(#[trigger] p[i]@, b) by {
        assert(p[i][0].is_finite() && p[i][1].is_finite());
    }
    lemma_eye_opening(p[42]@, p[45]@, p[43]@, p[44]@, p[47]@, p[46]@, t.eye_l, b);
    lemma_eye_opening(p[36]@, p[39]@, p[37]@, p[38]@, p[41]@, p[40]@, t.eye_r, b);
}

/// The distance between two points, and at least a small one.
pub open spec fn width(p: Seq<[Single; 3]>, i: int, j: int) -> Single {
    maths::hypot(p[j][0] - p[i][0], p[j][1] - p[i][1]).max(single::of(SMALL))
}

/// Whether the distance between two points can be divided by.
pub open spec fn is_width(p: Seq<[Single; 3]>, i: int, j: int, b: real) -> bool {
    let w = width(p, i, j);
    w.is_finite() && real_of(w) >= 1real / 1000000000real && real_of(w) <= 1000000000000real * b
}

/// The larger of two real numbers.
pub open spec fn larger(v: real, w: real) -> real {
    if v < w {
        w
    } else {
        v
    }
}

proof fn lemma_larger(x: Single, v: real, y: Single, w: real, m: real, c: real)
    requires
        roughly(x, v, m, c),
        roughly(y, w, m, c),
    ensures
        roughly(x.max(y), larger(v, w), m, c),
{
    near::lemma_real_order(x, y);
    near::lemma_real_order(y, x);
}

/// A brow is bent as far as one of its inner points rises above or falls below its first, once it is level, in thirds
/// of the bridge of the nose; but for rounding.
pub proof fn lemma_bend(p: Seq<[Single; 3]>, a: int, t: Turn, b: real)
    requires
        measured::points_within(p, b),
        is_turn(t),
        0 <= a <= 62,
        measured::measures(measured::bridge(p), 2real * b),
        measured::measures(measured::bridge(p), b),
    ensures
        ({
            let n = measured::bridge(p);
            let h = |i: int| size(rise(p[a]@, p[a + i]@, t));
            let k = 2real * b / n;
            roughly(
                features::bend(p, a, t),
                larger(larger(h(1), h(2)), h(3)) / n,
                6real * k,
                20real * k + 23real,
            )
        }),
{
    let n = measured::bridge(p);
    let y = features::norm_y(p);
    measured::lemma_norms(p, b);
    assert forall|i: int| 0 <= i < 66 implies is_point(#[trigger] p[i]@, b) by {
        assert(p[i][0].is_finite() && p[i][1].is_finite());
    }
    lemma_rises(p[a]@, p[a + 1]@, t, b);
    lemma_rises(p[a]@, p[a + 2]@, t, b);
    lemma_rises(p[a]@, p[a + 3]@, t, b);
    let o = features::levelled(p[a]@, p[a]@, t);
    let x1 = (features::levelled(p[a]@, p[a + 1]@, t) - o).abs();
    let x2 = (features::levelled(p[a]@, p[a + 2]@, t) - o).abs();
    let x3 = (features::levelled(p[a]@, p[a + 3]@, t) - o).abs();
    let (v1, v2, v3) = (
        size(rise(p[a]@, p[a + 1]@, t)),
        size(rise(p[a]@, p[a + 2]@, t)),
        size(rise(p[a]@, p[a + 3]@, t)),
    );
    let zero = single::of(0);
    words::lemma_nothing();
    let m = 10real * b;
    near::lemma_itself(zero, m);
    near::lemma_looser(zero, 0real, m, 0real, m, 10real);
    lemma_larger(zero, 0real, x1, v1, m, 10real);
    lemma_larger(zero.max(x1), v1, x2, v2, m, 10real);
    lemma_larger(zero.max(x1).max(x2), larger(v1, v2), x3, v3, m, 10real);
    let (x, v) = (zero.max(x1).max(x2).max(x3), larger(larger(v1, v2), v3));
    near::lemma_looser(x, v, m, 10real, m, 20real);
    let (k, kb) = (2real * b / n, b / n);
    assert(kb <= k) by (nonlinear_arith)
        requires
            k == 2real * b / n,
            kb == b / n,
            n > 0real,
            b > 0real,
    ;
    near::lemma_looser(y, n, n, 20real * kb, n, 20real * k);
    measured::lemma_measure(x, v, m, y, n, 2real * b);
}

/// How far a point rises above the first once it is level.
proof fn lemma_rises(o: Seq<Single>, p: Seq<Single>, t: Turn, b: real)
    requires
        is_turn(t),
        is_point(o, b),
        is_point(p, b),
        words::least() <= b <= 1000000000000real,
    ensures
        roughly(
            (features::levelled(o, p, t) - features::levelled(o, o, t)).abs(),
            size(rise(o, p, t)),
            10real * b,
            10real,
        ),
{
    lemma_levelled(o, p, t, b);
    lemma_levelled(o, o, t, b);
    let (c, s) = (real_of(t.cos), real_of(t.sin));
    assert(s * 0real == 0real && c * 0real == 0real) by (nonlinear_arith);
    let r = real_of(o[1]);
    let (x, y) = (features::levelled(o, p, t), features::levelled(o, o, t));
    assert(rise(o, o, t) == 0real);
    near::lemma_less(x, r + rise(o, p, t), 5real * b, y, r, 5real * b, 8real);
    measured::lemma_abs(x - y, rise(o, p, t), 10real * b, 10real);
}

/// Whether a tilt is at most four in size.
pub open spec fn is_tilt(x: Single) -> bool {
    x.is_finite() && size(real_of(x)) <= 4real
}

/// A tilt in degrees.
proof fn lemma_degrees(x: Single)
    requires
        is_tilt(x),
    ensures
        roughly(maths::degrees(x), degree() * real_of(x), 232real, 2real),
        57real < degree() < 58real,
{
    let k = single::of(maths::DEGREES);
    lemma2_to64();
    words::lemma_word_value(maths::DEGREES, 131, 0xe5_2ee1, 18, 262144real, 15019745real / 262144real);
    near::lemma_itself(k, 58real);
    near::lemma_itself(x, 4real);
    assert(4real * 58real == 232real && real_of(x) * degree() == degree() * real_of(x)) by (nonlinear_arith);
    near::lemma_times(x, real_of(x), 4real, 0real, k, degree(), 58real, 0real);
}

/// How many degrees there are to one.
pub open spec fn degree() -> real {
    real_of(single::of(maths::DEGREES))
}

/// A brow is steep as its line tilts against the face, which tilts as the mean of both eyes, jaw and nose do, in
/// degrees; the left one's line counts the other way round; but for rounding.
/// Brows are bent about their own lines: the left one from point 22 on and the right one from point 17 on.
pub proof fn lemma_brow_lines(p: Seq<[Single; 3]>, t: features::Turns)
    requires
        is_tilt(t.eye_l.tilt) && is_tilt(t.eye_r.tilt) && is_tilt(t.jaw.tilt) && is_tilt(t.nose.tilt),
        is_tilt(t.brow_l.tilt) && is_tilt(t.brow_r.tilt),
    ensures
        ({
            let m = features::measures_of(p, t);
            let face = (degree() * real_of(t.eye_l.tilt) + degree() * real_of(t.eye_r.tilt) + degree() * real_of(
                t.jaw.tilt,
            ) + degree() * real_of(t.nose.tilt)) / 4real;
            &&& 57real < degree() < 58real
            &&& roughly(m.steep_l, -(degree() * real_of(t.brow_l.tilt)) - face, 464real, 13real)
            &&& roughly(m.steep_r, degree() * real_of(t.brow_r.tilt) - face, 464real, 13real)
            &&& m.bend_l == features::bend(p, 22, t.brow_l)
            &&& m.bend_r == features::bend(p, 17, t.brow_r)
        }),
{
    reveal(features::measures_of);
    let d = degree();
    let (a, b, c, e) = (t.eye_l.tilt, t.eye_r.tilt, t.jaw.tilt, t.nose.tilt);
    lemma_degrees(a);
    lemma_degrees(b);
    lemma_degrees(c);
    lemma_degrees(e);
    lemma_degrees(t.brow_l.tilt);
    lemma_degrees(t.brow_r.tilt);
    let (xa, xb, xc, xe) = (maths::degrees(a), maths::degrees(b), maths::degrees(c), maths::degrees(e));
    let (va, vb, vc, ve) = (d * real_of(a), d * real_of(b), d * real_of(c), d * real_of(e));
    near::lemma_add(xa, va, 232real, xb, vb, 232real, 2real);
    near::lemma_looser(xc, vc, 232real, 2real, 232real, 4real);
    near::lemma_add(xa + xb, va + vb, 464real, xc, vc, 232real, 4real);
    near::lemma_looser(xe, ve, 232real, 2real, 232real, 6real);
    near::lemma_add(xa + xb + xc, va + vb + vc, 696real, xe, ve, 232real, 6real);
    let four = single::of(features::FOUR);
    lemma2_to64();
    words::lemma_word_value(features::FOUR, 128, 0x80_0000, 21, 2097152real, 4real);
    near::lemma_itself(four, 4real);
    let (s, v) = (xa + xb + xc + xe, va + vb + vc + ve);
    near::lemma_over(s, v, 928real, 8real, four, 4real, 0real);
    assert(928real / 4real == 232real);
    let (l, r) = (maths::degrees(t.brow_l.tilt), maths::degrees(t.brow_r.tilt));
    let (vl, vr) = (d * real_of(t.brow_l.tilt), d * real_of(t.brow_r.tilt));
    near::lemma_turned(l, vl, 232real, 2real);
    near::lemma_looser(l.negated(), -vl, 232real, 2real, 232real, 11real);
    near::lemma_looser(r, vr, 232real, 2real, 232real, 11real);
    near::lemma_less(l.negated(), -vl, 232real, s / four, v / 4real, 232real, 11real);
    near::lemma_less(r, vr, 232real, s / four, v / 4real, 232real, 11real);
}

} // verus!
