//! What rotation matrices and poses say, as real numbers.

use crate::filter;
use crate::ieee::near;
use crate::ieee::near::{real_of, roughly, size};
use crate::ieee::order;
use crate::ieee::single;
use crate::ieee::single::Single;
use crate::ieee::words;
use crate::pnp;
use crate::pnp::depth::{angle_pairs, in_camera, landmark_error, View3};
use crate::pnp::TINY_ANGLE;
use vstd::prelude::*;

verus! {

/// Whether a number is at most one in size.
pub open spec fn is_share(x: Single) -> bool {
    x.is_finite() && size(real_of(x)) <= 1real
}

/// A product of two numbers of at most one in size, and with a third one of at most two.
proof fn lemma_three(x: Single, y: Single, o: Single, v: real)
    requires
        is_share(x) && is_share(y),
        roughly(o, v, 2real, 2real),
    ensures
        roughly(x * y * o, real_of(x) * real_of(y) * v, 2real, 6real),
{
    near::lemma_itself(x, 1real);
    near::lemma_itself(y, 1real);
    assert(1real * 1real == 1real && 1real * 2real == 2real);
    near::lemma_times(x, real_of(x), 1real, 0real, y, real_of(y), 1real, 0real);
    near::lemma_times(x * y, real_of(x) * real_of(y), 1real, 2real, o, v, 2real, 2real);
}

/// A rotation has the entries of a turn about its axis, which is the rotation vector over its angle: on the diagonal
/// the cosine and what it leaves of one times the square of the axis, and off it the products of the axis with what
/// the cosine leaves of one, and the sine times the third axis, added below and taken off above, in turn; but for
/// rounding.
pub proof fn lemma_rotation(r: Seq<Single>, c: Single, s: Single)
    requires
        !pnp::turn_angle(r).lt(single::of(TINY_ANGLE)),
        is_share(c) && is_share(s),
        ({
            let a = pnp::turn_angle(r);
            is_share(r[0] / a) && is_share(r[1] / a) && is_share(r[2] / a)
        }),
    ensures
        ({
            let m = pnp::rotation_rows(r, c, s);
            let a = pnp::turn_angle(r);
            let (x, y, z) = (real_of(r[0] / a), real_of(r[1] / a), real_of(r[2] / a));
            let (co, si) = (real_of(c), real_of(s));
            let o = 1real - co;
            &&& roughly(m[0][0], co + x * x * o, 3real, 8real)
            &&& roughly(m[1][1], co + y * y * o, 3real, 8real)
            &&& roughly(m[2][2], co + z * z * o, 3real, 8real)
            &&& roughly(m[1][0], y * x * o + z * si, 3real, 8real)
            &&& roughly(m[0][1], x * y * o - z * si, 3real, 8real)
            &&& roughly(m[2][1], z * y * o + x * si, 3real, 8real)
            &&& roughly(m[1][2], y * z * o - x * si, 3real, 8real)
            &&& roughly(m[0][2], x * z * o + y * si, 3real, 8real)
            &&& roughly(m[2][0], z * x * o - y * si, 3real, 8real)
        }),
{
    let a = pnp::turn_angle(r);
    let (x, y, z) = (r[0] / a, r[1] / a, r[2] / a);
    let one = single::of(single::ONE);
    words::lemma_words();
    near::lemma_itself(one, 1real);
    near::lemma_itself(c, 1real);
    near::lemma_less(one, 1real, 1real, c, real_of(c), 1real, 0real);
    let (oc, o) = (one - c, 1real - real_of(c));
    assert(roughly(oc, o, 2real, 2real));
    lemma_diagonal(c, x, oc, o);
    lemma_diagonal(c, y, oc, o);
    lemma_diagonal(c, z, oc, o);
    lemma_off_diagonal(y, x, z, s, oc, o);
    lemma_off_diagonal(x, y, z, s, oc, o);
    lemma_off_diagonal(z, y, x, s, oc, o);
    lemma_off_diagonal(y, z, x, s, oc, o);
    lemma_off_diagonal(x, z, y, s, oc, o);
    lemma_off_diagonal(z, x, y, s, oc, o);
}

proof fn lemma_diagonal(c: Single, x: Single, oc: Single, o: real)
    requires
        is_share(c) && is_share(x),
        roughly(oc, o, 2real, 2real),
    ensures
        roughly(c + x * x * oc, real_of(c) + real_of(x) * real_of(x) * o, 3real, 8real),
{
    lemma_three(x, x, oc, o);
    near::lemma_itself(c, 1real);
    near::lemma_looser(c, real_of(c), 1real, 0real, 1real, 6real);
    near::lemma_add(c, real_of(c), 1real, x * x * oc, real_of(x) * real_of(x) * o, 2real, 6real);
}

proof fn lemma_off_diagonal(x: Single, y: Single, z: Single, s: Single, oc: Single, o: real)
    requires
        is_share(x) && is_share(y) && is_share(z) && is_share(s),
        roughly(oc, o, 2real, 2real),
    ensures
        roughly(
            x * y * oc + z * s,
            real_of(x) * real_of(y) * o + real_of(z) * real_of(s),
            3real,
            8real,
        ),
        roughly(
            x * y * oc - z * s,
            real_of(x) * real_of(y) * o - real_of(z) * real_of(s),
            3real,
            8real,
        ),
{
    lemma_three(x, y, oc, o);
    near::lemma_itself(z, 1real);
    near::lemma_itself(s, 1real);
    assert(1real * 1real == 1real);
    near::lemma_times(z, real_of(z), 1real, 0real, s, real_of(s), 1real, 0real);
    near::lemma_looser(z * s, real_of(z) * real_of(s), 1real, 2real, 1real, 6real);
    let v = real_of(x) * real_of(y) * o;
    near::lemma_add(x * y * oc, v, 2real, z * s, real_of(z) * real_of(s), 1real, 6real);
    near::lemma_less(x * y * oc, v, 2real, z * s, real_of(z) * real_of(s), 1real, 6real);
}

/// The angles of the matrix of three angles are those angles: of the pairs whose arc tangents are taken, the first and
/// the third are the sine and the cosine of their angles times the second one's cosine, and the second begins with
/// its sine; but for rounding.
pub proof fn lemma_angles_of_turn(c: Seq<Single>, s: Seq<Single>)
    requires
        is_share(c[0]) && is_share(c[1]) && is_share(c[2]),
        is_share(s[0]) && is_share(s[1]) && is_share(s[2]),
        angle_pairs(filter::turn_rows(c, s)).1,
    ensures
        ({
            let p = angle_pairs(filter::turn_rows(c, s)).0;
            let k = real_of(c[1]);
            &&& p.len() == 3
            &&& roughly(p[0].0, k * real_of(s[0]), 1real, 2real)
            &&& roughly(p[0].1, k * real_of(c[0]), 1real, 2real)
            &&& p[1].0 == s[1]
            &&& roughly(p[2].0, k * real_of(s[2]), 1real, 2real)
            &&& roughly(p[2].1, k * real_of(c[2]), 1real, 2real)
        }),
{
    lemma_two(c[1], s[0]);
    lemma_two(c[0], c[1]);
    lemma_two(c[1], s[2]);
    lemma_two(c[1], c[2]);
    let (a, b) = (real_of(c[0]), real_of(c[1]));
    assert(a * b == b * a) by (nonlinear_arith);
    order::lemma_double_negation(s[1]);
}

proof fn lemma_two(x: Single, y: Single)
    requires
        is_share(x) && is_share(y),
    ensures
        roughly(x * y, real_of(x) * real_of(y), 1real, 2real),
{
    near::lemma_itself(x, 1real);
    near::lemma_itself(y, 1real);
    assert(1real * 1real == 1real);
    near::lemma_times(x, real_of(x), 1real, 0real, y, real_of(y), 1real, 0real);
}

/// A landmark that lies where its solid point is seen has no error.
pub proof fn lemma_no_error(v: View3, lm: [Single; 3], solid: [Single; 3])
    requires
        ({
            let x = in_camera(v, solid@);
            let z = pnp::safe_depth(x[2]);
            &&& lm[0] == x[0] / z && lm[0].is_finite()
            &&& lm[1] == x[1] / z && lm[1].is_finite()
        }),
    ensures
        landmark_error(v, lm, solid) == single::of(0),
{
    order::lemma_less_itself(lm[0]);
    order::lemma_less_itself(lm[1]);
    let zero = single::of(0);
    order::lemma_less_itself(zero);
    order::lemma_times_nothing(zero, zero);
    order::lemma_zeros();
}

/// The error of a landmark is the square of how far it lies from where its solid point is seen, but for rounding.
pub proof fn lemma_error(v: View3, lm: [Single; 3], solid: [Single; 3], m: real)
    requires
        ({
            let x = in_camera(v, solid@);
            let z = pnp::safe_depth(x[2]);
            &&& lm[0].is_finite() && lm[1].is_finite()
            &&& (x[0] / z).is_finite() && (x[1] / z).is_finite()
            &&& size(real_of(lm[0])) <= m && size(real_of(lm[1])) <= m
            &&& size(real_of(x[0] / z)) <= m && size(real_of(x[1] / z)) <= m
        }),
        1real <= m <= 1000000000000real,
    ensures
        ({
            let x = in_camera(v, solid@);
            let z = pnp::safe_depth(x[2]);
            let (dr, dc) = (real_of(lm[0]) - real_of(x[0] / z), real_of(lm[1]) - real_of(x[1] / z));
            roughly(landmark_error(v, lm, solid), dr * dr + dc * dc, 8real * (m * m), 8real)
        }),
{
    let x = in_camera(v, solid@);
    let z = pnp::safe_depth(x[2]);
    let mm = m * m;
    assert(1real <= mm <= 1000000000000000000000000real) by (nonlinear_arith)
        requires
            mm == m * m,
            1real <= m <= 1000000000000real,
    ;
    lemma_squared(lm[0], x[0] / z, m, mm);
    lemma_squared(lm[1], x[1] / z, m, mm);
    let (dr, dc) = (real_of(lm[0]) - real_of(x[0] / z), real_of(lm[1]) - real_of(x[1] / z));
    let (a, b) = (lm[0] - x[0] / z, lm[1] - x[1] / z);
    near::lemma_add(a * a, dr * dr, 4real * mm, b * b, dc * dc, 4real * mm, 6real);
}

proof fn lemma_squared(x: Single, y: Single, m: real, mm: real)
    requires
        x.is_finite() && y.is_finite(),
        size(real_of(x)) <= m && size(real_of(y)) <= m,
        1real <= m <= 1000000000000real,
        mm == m * m,
        1real <= mm <= 1000000000000000000000000real,
    ensures
        ({
            let d = real_of(x) - real_of(y);
            roughly((x - y) * (x - y), d * d, 4real * mm, 6real)
        }),
{
    near::lemma_itself(x, m);
    near::lemma_itself(y, m);
    near::lemma_less(x, real_of(x), m, y, real_of(y), m, 0real);
    let t = m + m;
    assert(t * t == 4real * mm) by (nonlinear_arith)
        requires
            t == m + m,
            mm == m * m,
    ;
    let d = real_of(x) - real_of(y);
    near::lemma_times(x - y, d, t, 2real, x - y, d, t, 2real);
}

} // verus!
