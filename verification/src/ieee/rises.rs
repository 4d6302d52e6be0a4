//! How results move with the numbers that they are computed from: larger ones give no smaller sums,
//! products and quotients, however they are rounded.

use crate::ieee::binary;
use crate::ieee::facts;
use crate::ieee::order;
use crate::ieee::order::val;
use crate::ieee::round;
use crate::ieee::single;
use crate::ieee::single::Single;
use vstd::arithmetic::mul::*;
use vstd::arithmetic::power2::*;
use vstd::prelude::*;

verus! {

/// A number that is not negative rounds as its fraction does, and a negative one opposite to it.
spec fn rounded_value(s: int, d: nat) -> int {
    let w = round::rounded(binary::magnitude(s), d, 24, 255);
    if s < 0 {
        -(w as int)
    } else {
        w as int
    }
}

proof fn lemma_rounded_rises(s: int, t: int, d: nat)
    requires
        s <= t,
        d > 0,
    ensures
        rounded_value(s, d) <= rounded_value(t, d),
{
    let (a, b) = (binary::magnitude(s), binary::magnitude(t));
    if s >= 0 {
        lemma_mul_inequality(a as int, b as int, d as int);
        order::lemma_rounded_ordered(a, d, b, d, 24, 255);
    } else if t < 0 {
        lemma_mul_inequality(b as int, a as int, d as int);
        order::lemma_rounded_ordered(b, d, a, d, 24, 255);
    }
}

/// A larger summand gives no smaller sum.
pub proof fn lemma_sum_rises(a: Single, b: Single, c: Single)
    requires
        a.le(b),
        a.is_finite(),
        b.is_finite(),
        c.is_finite(),
    ensures
        (a + c).le(b + c),
        (c + a).le(c + b),
{
    reveal(Single::spec_add);
    lemma2_to64();
    let f = single::layout();
    assert(f.top * pow2(23) == 0x7f80_0000);
    order::lemma_val_order(a, b);
    order::lemma_add_commutes(a, c);
    order::lemma_add_commutes(b, c);
    let (s, t) = (val(a) + val(c), val(b) + val(c));
    lemma_rounded_rises(s, t, 1);
    facts::lemma_nearest_exact(0, 24);
    assert(round::units(0, 24) == 0);
    assert((a + c).key() == rounded_value(s, 1));
    assert((b + c).key() == rounded_value(t, 1));
}

/// Less of a number leaves no less.
pub proof fn lemma_difference_falls(a: Single, b: Single, c: Single)
    requires
        a.le(b),
        a.is_finite(),
        b.is_finite(),
        c.is_finite(),
    ensures
        (c - b).le(c - a),
        (a - c).le(b - c),
{
    assert(b.negated().le(a.negated()));
    assert(c.negated().is_finite());
    lemma_sum_rises(b.negated(), a.negated(), c);
    lemma_sum_rises(a, b, c.negated());
}

/// A larger factor gives no smaller product with a number that is not below zero.
pub proof fn lemma_product_rises(a: Single, b: Single, c: Single)
    requires
        a.le(b),
        a.is_finite(),
        b.is_finite(),
        c.is_finite(),
        single::of(0).le(c),
    ensures
        (a * c).le(b * c),
        (c * a).le(c * b),
{
    lemma_pow2_pos(149);
    order::lemma_val_order(a, b);
    order::lemma_val_sign(c);
    let (x, y, z) = (val(a), val(b), val(c));
    lemma_mul_inequality(x, y, z);
    let d = pow2(149);
    lemma_rounded_rises(x * z, y * z, d);
    lemma_product_key(a, c);
    lemma_product_key(b, c);
    lemma_product_key(c, a);
    lemma_product_key(c, b);
    lemma_mul_is_commutative(x, z);
    lemma_mul_is_commutative(y, z);
}

/// The place of a product in the order of numbers.
proof fn lemma_product_key(a: Single, c: Single)
    requires
        a.is_finite(),
        c.is_finite(),
    ensures
        !(a * c).is_nan(),
        (a * c).key() == rounded_value(val(a) * val(c), pow2(149)),
{
    reveal(Single::spec_mul);
    lemma2_to64();
    lemma_pow2_pos(149);
    let f = single::layout();
    assert(f.top * pow2(23) == 0x7f80_0000);
    let (va, vc) = (binary::value(a.mag(), f), binary::value(c.mag(), f));
    let neg = a.minus() != c.minus();
    let n = va * vc;
    lemma_mul_unary_negation(va as int, vc as int);
    lemma_mul_unary_negation(va as int, -(vc as int));
    if n == 0 {
        round::lemma_nearest_same(0, pow2(149), 0, 1, 24);
        facts::lemma_nearest_exact(0, 24);
        assert(round::units(0, 24) == 0);
    }
}

/// A larger dividend gives no smaller quotient by a number above zero.
pub proof fn lemma_ratio_rises(a: Single, b: Single, c: Single)
    requires
        a.le(b),
        a.is_finite(),
        b.is_finite(),
        c.is_finite(),
        single::of(0).lt(c),
    ensures
        (a / c).le(b / c),
{
    lemma2_to64();
    lemma_pow2_pos(149);
    order::lemma_val_order(a, b);
    order::lemma_val_order(single::of(0), c);
    assert(round::units(0, 24) == 0);
    let u = pow2(149) as int;
    let (x, y) = (val(a), val(b));
    lemma_mul_inequality(x, y, u);
    lemma_rounded_rises(x * u, y * u, val(c) as nat);
    lemma_ratio_key(a, c);
    lemma_ratio_key(b, c);
}

/// The place of a quotient in the order of numbers.
proof fn lemma_ratio_key(a: Single, c: Single)
    requires
        a.is_finite(),
        c.is_finite(),
        val(c) > 0,
    ensures
        !(a / c).is_nan(),
        (a / c).key() == rounded_value(val(a) * pow2(149), val(c) as nat),
{
    reveal(Single::spec_euclidean_or_real_div);
    lemma2_to64();
    lemma_pow2_pos(149);
    let f = single::layout();
    assert(f.top * pow2(23) == 0x7f80_0000);
    assert(round::units(0, 24) == 0);
    order::lemma_val_sign(c);
    let va = binary::value(a.mag(), f);
    let u = pow2(149);
    let n = va * u;
    lemma_mul_unary_negation(va as int, u as int);
    assert(c.mag() > 0 && !c.minus());
    if n == 0 {
        round::lemma_nearest_same(0, val(c) as nat, 0, 1, 24);
        facts::lemma_nearest_exact(0, 24);
    }
}

} // verus!
