//! Quaternions `[x, y, z, w]`.

use crate::ieee::decimal;
use crate::ieee::order;
use crate::ieee::single;
use crate::ieee::single::Single;
use vstd::arithmetic::power2::*;
use vstd::prelude::*;

verus! {

/// The scalar product.
pub open spec fn dot_of(a: Seq<Single>, b: Seq<Single>) -> Single {
    (a[0] * b[0] + a[2] * b[2]) + (a[1] * b[1] + a[3] * b[3])
}

/// The scalar product.
pub fn dot(a: [Single; 4], b: [Single; 4]) -> (r: Single)
    ensures
        r == dot_of(a@, b@),
{
    (a[0] * b[0] + a[2] * b[2]) + (a[1] * b[1] + a[3] * b[3])
}

/// The quaternion with length one in the same direction.
pub open spec fn unit_of(q: Seq<Single>) -> Seq<Single> {
    let n = dot_of(q, q).sqrt();
    seq![q[0] / n, q[1] / n, q[2] / n, q[3] / n]
}

/// The quaternion with length one in the same direction.
pub fn normalized(q: [Single; 4]) -> (r: [Single; 4])
    ensures
        r@ == unit_of(q@),
{
    let n: Single = dot(q, q).sqrt();
    let r: [Single; 4] = [q[0] / n, q[1] / n, q[2] / n, q[3] / n];
    proof {
        assert(r@ =~= unit_of(q@));
    }
    r
}

/// The rotation the other way round.
pub open spec fn conjugate_of(q: Seq<Single>) -> Seq<Single> {
    seq![q[0].negated(), q[1].negated(), q[2].negated(), q[3]]
}

/// The rotation the other way round.
pub fn conjugate(q: [Single; 4]) -> (r: [Single; 4])
    ensures
        r@ == conjugate_of(q@),
{
    let r: [Single; 4] = [q[0].negated(), q[1].negated(), q[2].negated(), q[3]];
    proof {
        assert(r@ =~= conjugate_of(q@));
    }
    r
}

/// The Hamilton product: the rotation `b`, then the rotation `a`.
pub open spec fn product_of(a: Seq<Single>, b: Seq<Single>) -> Seq<Single> {
    seq![
        a[3] * b[0] + a[0] * b[3] + a[1] * b[2] - a[2] * b[1],
        a[3] * b[1] - a[0] * b[2] + a[1] * b[3] + a[2] * b[0],
        a[3] * b[2] + a[0] * b[1] - a[1] * b[0] + a[2] * b[3],
        a[3] * b[3] - a[0] * b[0] - a[1] * b[1] - a[2] * b[2],
    ]
}

/// The Hamilton product: the rotation `b`, then the rotation `a`.
pub fn product(a: [Single; 4], b: [Single; 4]) -> (r: [Single; 4])
    ensures
        r@ == product_of(a@, b@),
{
    let r: [Single; 4] = [
        a[3] * b[0] + a[0] * b[3] + a[1] * b[2] - a[2] * b[1],
        a[3] * b[1] - a[0] * b[2] + a[1] * b[3] + a[2] * b[0],
        a[3] * b[2] + a[0] * b[1] - a[1] * b[0] + a[2] * b[3],
        a[3] * b[3] - a[0] * b[0] - a[1] * b[1] - a[2] * b[2],
    ];
    proof {
        assert(r@ =~= product_of(a@, b@));
    }
    r
}

/// The quaternion that turns nothing.
pub open spec fn identity_of() -> Seq<Single> {
    seq![single::of(0), single::of(0), single::of(0), single::of(single::ONE)]
}

/// The quaternion that turns nothing.
pub fn identity() -> (r: [Single; 4])
    ensures
        r@ == identity_of(),
{
    let r: [Single; 4] = [
        single::of(0),
        single::of(0),
        single::of(0),
        single::of(single::ONE),
    ];
    proof {
        assert(r@ =~= identity_of());
    }
    r
}

/// The one of `q` and its opposite that is on the side of the identity.
pub open spec fn near_side_of(q: Seq<Single>) -> Seq<Single> {
    if dot_of(identity_of(), q).lt(single::of(0)) {
        q.map_values(|v: Single| v.negated())
    } else {
        q
    }
}

/// The one of `q` and its opposite that is on the side of the identity.
pub fn near_side(q: [Single; 4]) -> (r: [Single; 4])
    ensures
        r@ == near_side_of(q@),
{
    if dot(identity(), q).lt(single::of(0)) {
        let r: [Single; 4] = [q[0].negated(), q[1].negated(), q[2].negated(), q[3].negated()];
        proof {
            assert(r@ =~= near_side_of(q@));
        }
        r
    } else {
        q
    }
}

/// A rotation part of the way from the identity to `q`. With `h` the arc cosine of the scalar
/// product of the identity and the near side of `q`, and `t` the part, `rest` is the sine of
/// `(1 - t) * h` and `part` the sine of `t * h`.
pub open spec fn part_way_of(q: Seq<Single>, rest: Single, part: Single) -> Seq<Single> {
    let one = single::of(single::ONE);
    let id = identity_of();
    let b = near_side_of(q);
    let c = dot_of(id, b);
    if c.ge(one) {
        id
    } else {
        let s = (one - c * c).sqrt();
        let ta = rest / s;
        let tb = part / s;
        Seq::new(4, |i: int| tb * b[i] * one + one * (id[i] * ta))
    }
}

/// A rotation part of the way from the identity to `q`. With `h` the arc cosine of the scalar
/// product of the identity and the near side of `q`, and `t` the part, `rest` is the sine of
/// `(1 - t) * h` and `part` the sine of `t * h`.
pub fn part_way(q: [Single; 4], rest: Single, part: Single) -> (r: [Single; 4])
    ensures
        r@ == part_way_of(q@, rest, part),
{
    let one: Single = single::of(single::ONE);
    let id: [Single; 4] = identity();
    let b: [Single; 4] = near_side(q);
    let c: Single = dot(id, b);
    if c.ge(one) {
        return id;
    }
    let s: Single = (one - c * c).sqrt();
    let ta: Single = rest / s;
    let tb: Single = part / s;
    let r: [Single; 4] = [
        tb * b[0] * one + one * (id[0] * ta),
        tb * b[1] * one + one * (id[1] * ta),
        tb * b[2] * one + one * (id[2] * ta),
        tb * b[3] * one + one * (id[3] * ta),
    ];
    proof {
        assert(r@ =~= part_way_of(q@, rest, part));
    }
    r
}

/// A turn of which every number is below two, followed by the turn back, turns nothing but for
/// rounding: of the axis, the first number is zero and the others are below 2^-20.
pub proof fn lemma_there_and_back(q: Seq<Single>)
    requires
        q.len() == 4,
        forall|i: int| 0 <= i < 4 ==> (#[trigger] q[i]).abs().lt(single::of(decimal::N2)),
    ensures
        ({
            let r = product_of(q, conjugate_of(q));
            &&& r[0].mag() == 0
            &&& r[1].is_finite() && -pow2(129) < order::val(r[1]) < pow2(129)
            &&& r[2].is_finite() && -pow2(129) < order::val(r[2]) < pow2(129)
        }),
{
    let c = conjugate_of(q);
    assert forall|i: int, j: int| 0 <= i < 4 && 0 <= j < 4 implies {
        &&& (#[trigger] (q[i] * q[j])).is_finite()
        &&& -pow2(151) <= order::val(q[i] * q[j]) <= pow2(151)
        &&& q[i] * q[j].negated() == (q[i] * q[j]).negated()
        &&& q[j] * q[i] == q[i] * q[j]
    } by {
        lemma_small_product(q[i], q[j]);
        order::lemma_times_opposite(q[i], q[j]);
    }
    let (a, b) = (q[3] * q[0], q[1] * q[2]);
    let s = a.negated() + a;
    order::lemma_val_negated(a);
    order::lemma_val_negated(b);
    order::lemma_opposites(a);
    assert(q[3] * c[0] + q[0] * c[3] == s);
    order::lemma_and_nothing(s, b.negated());
    order::lemma_less_itself(b);
    order::lemma_opposites(b);
    order::lemma_double_negation(b);
    let m = s + b.negated();
    assert(q[2] * c[1] == b.negated());
    if b.mag() == 0 {
        order::lemma_and_nothing(m, b);
    }
    assert(product_of(q, c)[0] == m + b.negated().negated());
    lemma_back_and_forth(q[3] * q[1], q[0] * q[2]);
    let (p, r) = (q[3] * q[1], q[0] * q[2]);
    order::lemma_double_negation(r);
    assert(product_of(q, c)[1] == p.negated() + r + p + r.negated());
    let (p, r) = (q[3] * q[2], q[0] * q[1]);
    order::lemma_double_negation(r);
    assert(product_of(q, c)[2] == p.negated() + r.negated() + r + p);
    lemma_forth_and_back(p, r);
}

proof fn lemma_small_product(x: Single, y: Single)
    requires
        x.abs().lt(single::of(decimal::N2)),
        y.abs().lt(single::of(decimal::N2)),
    ensures
        (x * y).is_finite(),
        -pow2(151) <= order::val(x * y) <= pow2(151),
{
    lemma2_to64();
    order::lemma_units_at(127, pow2(23));
    order::lemma_units_at(128, pow2(23));
    assert(127 * pow2(23) + pow2(23) == 0x4000_0000);
    assert(128 * pow2(23) + pow2(23) == 0x4080_0000);
    lemma_pow2_adds(23, 127);
    lemma_pow2_adds(23, 128);
    lemma_pow2_adds(150, 150);
    lemma_pow2_adds(151, 149);
    order::lemma_product_at_most(x, y, decimal::N2, decimal::N2, 0x4080_0000);
}

proof fn lemma_back_and_forth(p: Single, r: Single)
    requires
        p.is_finite(),
        r.is_finite(),
        -pow2(151) <= order::val(p) <= pow2(151),
        -pow2(151) <= order::val(r) <= pow2(151),
    ensures
        ({
            let v = p.negated() + r + p + r.negated();
            v.is_finite() && -pow2(129) < order::val(v) < pow2(129)
        }),
{
    lemma_powers();
    order::lemma_val_negated(p);
    order::lemma_val_negated(r);
    let a = p.negated() + r;
    order::lemma_sum_close(p.negated(), r, 153);
    let b = a + p;
    order::lemma_sum_close(a, p, 152);
    order::lemma_sum_close(b, r.negated(), 129);
}

proof fn lemma_forth_and_back(p: Single, r: Single)
    requires
        p.is_finite(),
        r.is_finite(),
        -pow2(151) <= order::val(p) <= pow2(151),
        -pow2(151) <= order::val(r) <= pow2(151),
    ensures
        ({
            let v = p.negated() + r.negated() + r + p;
            v.is_finite() && -pow2(129) < order::val(v) < pow2(129)
        }),
{
    lemma_powers();
    order::lemma_val_negated(p);
    order::lemma_val_negated(r);
    let a = p.negated() + r.negated();
    order::lemma_sum_close(p.negated(), r.negated(), 153);
    let b = a + r;
    order::lemma_sum_close(a, r, 152);
    order::lemma_sum_close(b, p, 129);
}

proof fn lemma_powers()
    ensures
        pow2(152) == 2 * pow2(151),
        pow2(153) == 4 * pow2(151),
        pow2(129) == 2 * pow2(128),
        pow2(128) > 0,
        pow2(151) == 0x40_0000 * pow2(129),
        pow2(129) == 0x100_0000 * pow2(105),
{
    lemma2_to64();
    lemma_pow2_unfold(152);
    lemma_pow2_unfold(153);
    lemma_pow2_unfold(129);
    lemma_pow2_pos(128);
    lemma_pow2_adds(22, 129);
    lemma_pow2_adds(24, 105);
}

} // verus!
