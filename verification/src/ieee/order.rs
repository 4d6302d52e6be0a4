//! How rounding keeps order and signs.

use crate::ieee::binary;
use crate::ieee::decimal;
use crate::ieee::facts;
use crate::ieee::round;
use crate::ieee::single;
use crate::ieee::single::Single;
use vstd::arithmetic::div_mod::*;
use vstd::arithmetic::power2::*;
use vstd::prelude::*;

verus! {

/// A larger fraction is not rounded to less.
pub proof fn lemma_rounded_ordered(n1: nat, d1: nat, n2: nat, d2: nat, p: nat, top: nat)
    requires
        d1 > 0,
        d2 > 0,
        p >= 1,
        n1 * d2 <= n2 * d1,
    ensures
        round::rounded(n1, d1, p, top) <= round::rounded(n2, d2, p, top),
{
    let d = d1 * d2;
    assert(d > 0 && n1 * d == (n1 * d2) * d1 && n2 * d == (n2 * d1) * d2) by (nonlinear_arith)
        requires
            d == d1 * d2,
            d1 > 0,
            d2 > 0,
    ;
    round::lemma_nearest_same(n1, d1, n1 * d2, d, p);
    round::lemma_nearest_same(n2, d2, n2 * d1, d, p);
    facts::lemma_nearest_monotone(n1 * d2, n2 * d1, d, p);
}

proof fn lemma_layout_bounds()
    ensures
        single::layout().p == 24,
        single::layout().unit == 149,
        single::layout().inf() == 0x7f80_0000,
        single::layout().top * pow2(23) == 0x7f80_0000,
        pow2(149) > 0,
{
    lemma2_to64();
    lemma_pow2_pos(149);
}

proof fn lemma_zero_value()
    ensures
        round::units(0, 24) == 0,
        forall|w: u64| #![trigger binary::value(w, single::layout())] w > 0 ==> binary::value(w, single::layout()) > 0,
{
    lemma2_to64();
    assert(round::units(0, 24) == 0);
    assert(round::units(1, 24) == 1);
    assert forall|w: u64| #![trigger binary::value(w, single::layout())] w > 0 implies binary::value(
        w,
        single::layout(),
    ) > 0 by {
        facts::lemma_units_monotone(1, w as nat, 24);
    }
}

/// Multiplying by a number that is not below zero keeps order.
pub proof fn lemma_mul_order(a: Single, b: Single, c: Single)
    requires
        single::of(0).le(a),
        a.le(b),
        single::of(0).le(c),
        c.is_finite(),
        b.is_finite() || c.mag() > 0,
    ensures
        single::of(0).le(a * c),
        (a * c).le(b * c),
        c * a == a * c,
        c * b == b * c,
{
    let f = single::layout();
    let u = pow2(149);
    reveal(Single::spec_mul);
    lemma_layout_bounds();
    lemma_zero_value();
    let (va, vb, vc) = (
        binary::value(a.mag(), f),
        binary::value(b.mag(), f),
        binary::value(c.mag(), f),
    );
    assert(a.mag() <= b.mag());
    facts::lemma_units_monotone(a.mag() as nat, b.mag() as nat, 24);
    assert(va * vc <= vb * vc && (va * vc) * u <= (vb * vc) * u && vc * va == va * vc && vc * vb == vb
        * vc) by (nonlinear_arith)
        requires
            va <= vb,
    ;
    lemma_rounded_ordered(va * vc, u, vb * vc, u, 24, f.top as nat);
    facts::lemma_nearest_exact(0, 24);
    round::lemma_nearest_same(0, u, 0, 1, 24);
    assert(va == 0 || vc == 0 ==> va * vc == 0) by (nonlinear_arith);
    assert(vb == 0 || vc == 0 ==> vb * vc == 0) by (nonlinear_arith);
}

/// A sum does not depend on the order of what is added.
pub proof fn lemma_add_commutes(a: Single, c: Single)
    ensures
        c + a == a + c,
{
    reveal(Single::spec_add);
}

/// Adding a number that is not below zero keeps order.
pub proof fn lemma_add_order(a: Single, b: Single, c: Single)
    requires
        single::of(0).le(a),
        a.le(b),
        single::of(0).le(c),
    ensures
        single::of(0).le(a + c),
        (a + c).le(b + c),
        a.le(a + c),
        c + a == a + c,
        c + b == b + c,
{
    lemma_add_commutes(a, c);
    lemma_add_commutes(b, c);
    lemma_sum_word(a, c);
    lemma_sum_word(b, c);
    let f = single::layout();
    let (va, vb, vc) = (
        binary::value(a.mag(), f),
        binary::value(b.mag(), f),
        binary::value(c.mag(), f),
    );
    lemma_layout_bounds();
    assert(a.mag() <= b.mag());
    facts::lemma_units_monotone(a.mag() as nat, b.mag() as nat, 24);
    lemma_rounded_ordered(va + vc, 1, vb + vc, 1, 24, f.top as nat);
    lemma_rounded_ordered(va, 1, va + vc, 1, 24, f.top as nat);
    facts::lemma_nearest_exact(a.mag() as nat, 24);
}

proof fn lemma_sum_word(a: Single, c: Single)
    requires
        single::of(0).le(a),
        single::of(0).le(c),
    ensures
        !(a + c).is_nan(),
        (a + c).key() == (a + c).mag(),
        a.is_finite() && c.is_finite() ==> (a + c).mag() == round::rounded(
            binary::value(a.mag(), single::layout()) + binary::value(c.mag(), single::layout()),
            1,
            24,
            single::layout().top as nat,
        ),
        !(a.is_finite() && c.is_finite()) ==> (a + c).mag() == single::INFINITY,
{
    reveal(Single::spec_add);
    lemma_layout_bounds();
    lemma_zero_value();
    facts::lemma_nearest_exact(0, 24);
}

/// Dividing by a larger number gives less, and dividing less gives less.
pub proof fn lemma_div_order(a: Single, b: Single, x: Single, y: Single)
    requires
        single::of(0).le(a),
        a.le(b),
        single::of(0).lt(x),
        x.le(y),
        a.is_finite() || y.is_finite(),
        b.is_finite() || x.is_finite(),
    ensures
        single::of(0).le(a / y),
        (a / y).le(b / x),
{
    let f = single::layout();
    let u = pow2(149);
    reveal(Single::spec_euclidean_or_real_div);
    lemma_layout_bounds();
    lemma_zero_value();
    facts::lemma_nearest_exact(0, 24);
    if b.is_finite() && y.is_finite() {
        let (va, vb) = (binary::value(a.mag(), f), binary::value(b.mag(), f));
        let (vx, vy) = (binary::value(x.mag(), f), binary::value(y.mag(), f));
        facts::lemma_units_monotone(a.mag() as nat, b.mag() as nat, 24);
        facts::lemma_units_monotone(x.mag() as nat, y.mag() as nat, 24);
        assert(vx > 0 && vy > 0);
        assert((va * u) * vx <= (vb * u) * vy) by (nonlinear_arith)
            requires
                va <= vb,
                vx <= vy,
        ;
        lemma_rounded_ordered(va * u, vy, vb * u, vx, 24, f.top as nat);
        round::lemma_nearest_same(0, vy, 0, 1, 24);
        round::lemma_nearest_same(0, vx, 0, 1, 24);
        assert(va == 0 ==> va * u == 0) by (nonlinear_arith);
        assert(vb == 0 ==> vb * u == 0) by (nonlinear_arith);
    } else {
        let va = binary::value(a.mag(), f);
        let vb = binary::value(b.mag(), f);
        let (vx, vy) = (binary::value(x.mag(), f), binary::value(y.mag(), f));
        assert(vx > 0 && vy > 0);
        round::lemma_nearest_same(0, vy, 0, 1, 24);
        round::lemma_nearest_same(0, vx, 0, 1, 24);
        assert(va == 0 ==> va * u == 0) by (nonlinear_arith);
        assert(vb == 0 ==> vb * u == 0) by (nonlinear_arith);
    }
}

/// A number less itself is nothing.
pub proof fn lemma_less_itself(x: Single)
    requires
        x.is_finite(),
    ensures
        x - x == single::of(0),
{
    reveal(Single::spec_add);
    lemma_layout_bounds();
    facts::lemma_nearest_exact(0, 24);
    lemma_zero_value();
}

/// A number and nothing is that number, but for the sign of nothing.
pub proof fn lemma_and_nothing(z: Single, x: Single)
    requires
        x.is_finite(),
        z.mag() == 0,
    ensures
        (z + x).mag() == x.mag(),
        x.mag() > 0 ==> z + x == x,
        (x + z).mag() == x.mag(),
        x.mag() > 0 ==> x + z == x,
{
    reveal(Single::spec_add);
    lemma_layout_bounds();
    lemma_zero_value();
    facts::lemma_nearest_exact(x.mag() as nat, 24);
    facts::lemma_nearest_exact(0, 24);
}

/// Nothing of a number is nothing.
pub proof fn lemma_times_nothing(z: Single, x: Single)
    requires
        x.is_finite(),
        z.mag() == 0,
    ensures
        (z * x).mag() == 0,
        (x * z).mag() == 0,
        !z.minus() && !x.minus() ==> z * x == single::of(0),
{
    let f = single::layout();
    reveal(Single::spec_mul);
    lemma_layout_bounds();
    lemma_zero_value();
    let v = binary::value(x.mag(), f);
    facts::lemma_nearest_exact(0, 24);
    round::lemma_nearest_same(0, pow2(149), 0, 1, 24);
    assert(0 * v == 0 && v * 0 == 0);
}

/// The sign of a factor is the sign of the product.
pub proof fn lemma_times_opposite(x: Single, y: Single)
    requires
        (x * y).is_finite(),
    ensures
        x * y.negated() == (x * y).negated(),
        x.negated() * y == (x * y).negated(),
        y * x == x * y,
{
    reveal(Single::spec_mul);
    lemma_layout_bounds();
    let (a, b) = (binary::value(x.mag(), single::layout()), binary::value(y.mag(), single::layout()));
    assert(a * b == b * a) by (nonlinear_arith);
}

/// Rounding moves a fraction by at most half the distance of neighbouring values.
pub proof fn lemma_nearest_close(n: nat, d: nat, k: nat)
    requires
        d > 0,
        k >= 24,
        n < pow2(k) * d,
    ensures
        round::nearest(n, d, 24) <= (k - 22) * pow2(23),
        2 * (round::units(round::nearest(n, d, 24), 24) * d - n) <= d * pow2((k - 24) as nat),
        2 * (n - round::units(round::nearest(n, d, 24), 24) * d) <= d * pow2((k - 24) as nat),
{
    let e = round::binade(n, d, 24);
    let x = pow2(e);
    let dd = d * x;
    let q = round::half_even(n, dd);
    let t = pow2(23);
    lemma2_to64();
    lemma_pow2_pos(e);
    round::lemma_binade_bounds(n, d, 24);
    if e > 0 && e > k - 24 {
        round::lemma_pow2_monotone(k, (24 + e - 1) as nat);
        assert(pow2(k) * d <= pow2((24 + e - 1) as nat) * d) by (nonlinear_arith)
            requires
                pow2(k) <= pow2((24 + e - 1) as nat),
        ;
    }
    assert(e <= k - 24);
    round::lemma_pow2_monotone(e, (k - 24) as nat);
    lemma_pow2_adds(24, e);
    assert(dd > 0 && pow2(24 + e) * d == 2 * t * dd) by (nonlinear_arith)
        requires
            dd == d * x,
            d > 0,
            x > 0,
            pow2(24 + e) == 2 * t * x,
    ;
    lemma_fundamental_div_mod(n as int, dd as int);
    lemma_mod_bound(n as int, dd as int);
    let (a, r) = (n / dd, n % dd);
    assert(a < 2 * t) by (nonlinear_arith)
        requires
            n == dd * a + r,
            r >= 0,
            n < 2 * t * dd,
            dd > 0,
    ;
    assert(q <= 2 * t);
    if e > 0 {
        lemma_pow2_adds(23, e);
        assert(t * dd <= n) by (nonlinear_arith)
            requires
                dd == d * x,
                pow2((24 + e - 1) as nat) * d <= n,
                pow2((24 + e - 1) as nat) == t * x,
        ;
        assert(a >= t) by (nonlinear_arith)
            requires
                n == dd * a + r,
                r < dd,
                t * dd <= n,
                dd > 0,
        ;
    }
    assert(q >= a && q <= a + 1);
    lemma_units_at(e, q);
    let w = round::nearest(n, d, 24);
    assert(w == e * t + q);
    assert(round::units(w, 24) == q * x);
    assert(q * x * d == q * dd) by (nonlinear_arith)
        requires
            dd == d * x,
    ;
    assert(2 * (q * dd - n) <= dd && 2 * (n - q * dd) <= dd) by (nonlinear_arith)
        requires
            n == dd * a + r,
            q == a && 2 * r <= dd || q == a + 1 && 2 * r >= dd,
            0 <= r < dd,
    ;
    assert(dd <= d * pow2((k - 24) as nat)) by (nonlinear_arith)
        requires
            dd == d * x,
            x <= pow2((k - 24) as nat),
    ;
    assert(e * t + q <= (k - 22) * t) by (nonlinear_arith)
        requires
            e <= k - 24,
            q <= 2 * t,
    ;
}

/// The value of a word, from its exponent and its significand.
pub proof fn lemma_units_at(e: nat, q: nat)
    requires
        q <= 2 * pow2(23),
        e > 0 ==> q >= pow2(23),
    ensures
        round::units(e * pow2(23) + q, 24) == q * pow2(e),
{
    let t = pow2(23);
    lemma2_to64();
    lemma_pow2_unfold(e + 1);
    if q == 2 * t {
        assert(e * t + q == (e + 2) * t + 0) by (nonlinear_arith)
            requires
                q == 2 * t,
        ;
        lemma_fundamental_div_mod_converse((e * t + q) as int, t as int, (e + 2) as int, 0);
        assert((0 + t) * pow2(e + 1) == q * pow2(e)) by (nonlinear_arith)
            requires
                q == 2 * t,
                pow2(e + 1) == 2 * pow2(e),
        ;
    } else if q >= t {
        assert(e * t + q == (e + 1) * t + (q - t)) by (nonlinear_arith);
        lemma_fundamental_div_mod_converse((e * t + q) as int, t as int, (e + 1) as int, q - t);
    } else {
        assert(0 * t == 0);
    }
}

/// How far two integers are apart.
pub open spec fn distance(a: int, b: int) -> int {
    if a < b {
        b - a
    } else {
        a - b
    }
}

/// What a finite number stands for, in units of the smallest.
pub open spec fn val(x: Single) -> int {
    binary::signed(x.minus(), x.mag(), single::layout())
}

/// The value of the opposite number is the opposite value.
pub proof fn lemma_val_negated(x: Single)
    ensures
        val(x.negated()) == -val(x),
        x.negated().mag() == x.mag(),
{
    lemma_zero_value();
}

/// A sum is rounded by at most half the distance of neighbouring values.
pub proof fn lemma_sum_close(x: Single, y: Single, k: nat)
    requires
        x.is_finite(),
        y.is_finite(),
        24 <= k <= 270,
        -pow2(k) < val(x) + val(y) < pow2(k),
    ensures
        (x + y).is_finite(),
        2 * (val(x + y) - (val(x) + val(y))) <= pow2((k - 24) as nat),
        2 * ((val(x) + val(y)) - val(x + y)) <= pow2((k - 24) as nat),
{
    reveal(Single::spec_add);
    lemma_layout_bounds();
    lemma2_to64();
    lemma_zero_value();
    let s = val(x) + val(y);
    let n = binary::magnitude(s);
    assert(pow2(k) * 1 == pow2(k));
    lemma_nearest_close(n, 1, k);
    let w = round::nearest(n, 1, 24);
    assert((k - 22) * pow2(23) < 0x7f80_0000) by (nonlinear_arith)
        requires
            k <= 270,
            pow2(23) == 0x80_0000,
    ;
    assert(round::units(w, 24) * 1 == round::units(w, 24));
    assert(1 * pow2((k - 24) as nat) == pow2((k - 24) as nat));
    if s == 0 {
        facts::lemma_nearest_exact(0, 24);
    }
}

/// A sum of two numbers without a sign has none.
pub proof fn lemma_plain_sum(a: Single, b: Single)
    requires
        a.is_finite(),
        b.is_finite(),
        !a.minus(),
        !b.minus(),
    ensures
        !(a + b).minus(),
{
    reveal(Single::spec_add);
    lemma_layout_bounds();
}

/// The smaller and the larger of two numbers.
pub proof fn lemma_val_of_least_and_most(x: Single, y: Single)
    requires
        x.is_finite(),
        y.is_finite(),
    ensures
        x.min(y).is_finite(),
        x.max(y).is_finite(),
        val(x.min(y)) == (if val(x) < val(y) {
            val(x)
        } else {
            val(y)
        }),
        val(x.max(y)) == (if val(x) < val(y) {
            val(y)
        } else {
            val(x)
        }),
{
    lemma_val_order(x, y);
    lemma_val_order(y, x);
}

/// Half of a number.
pub proof fn lemma_half_close(x: Single, k: nat)
    requires
        x.is_finite(),
        25 <= k <= 270,
        -pow2(k) < val(x) < pow2(k),
    ensures
        (x * single::of(decimal::N0_5)).is_finite(),
        -pow2((k - 25) as nat) <= 2 * val(x * single::of(decimal::N0_5)) - val(x) <= pow2((k - 25) as nat),
{
    let h = single::of(decimal::N0_5);
    let u = pow2(149);
    let (b, c, e) = (pow2(k), pow2((k - 1) as nat), pow2((k - 25) as nat));
    lemma2_to64();
    lemma_pow2_pos(149);
    lemma_units_at(125, pow2(23));
    assert(125 * pow2(23) + pow2(23) == 0x3f00_0000);
    lemma_pow2_adds(23, 125);
    lemma_pow2_unfold(149);
    lemma_pow2_unfold(k);
    let (v, w) = (val(x), val(h));
    assert(2 * w == u);
    assert(-(c * u) < v * w < c * u) by (nonlinear_arith)
        requires
            -b < v < b,
            b == 2 * c,
            u == 2 * w,
            w > 0,
    ;
    lemma_product_close(x, h, (k - 1) as nat);
    let p = val(x * h);
    assert(-e <= 2 * p - v <= e) by (nonlinear_arith)
        requires
            2 * (p * u - v * w) <= u * e,
            2 * (v * w - p * u) <= u * e,
            u == 2 * w,
            w > 0,
    ;
}

/// A number that is at most another stands for at most as much.
pub proof fn lemma_val_order(x: Single, y: Single)
    requires
        x.is_finite(),
        y.is_finite(),
    ensures
        x.le(y) <==> val(x) <= val(y),
        x.lt(y) <==> val(x) < val(y),
{
    lemma_val_sign(x);
    lemma_val_sign(y);
    assert(round::units(0, 24) == 0) by {
        lemma2_to64();
    }
    if x.mag() < y.mag() {
        lemma_units_below(x.mag() as nat, y.mag() as nat);
    }
    if y.mag() < x.mag() {
        lemma_units_below(y.mag() as nat, x.mag() as nat);
    }
    if x.mag() > 0 {
        lemma_units_below(0, x.mag() as nat);
    }
    if y.mag() > 0 {
        lemma_units_below(0, y.mag() as nat);
    }
}

/// A product is rounded by at most half the distance of neighbouring values.
pub proof fn lemma_product_close(x: Single, y: Single, k: nat)
    requires
        x.is_finite(),
        y.is_finite(),
        24 <= k <= 270,
        -(pow2(k) * pow2(149)) < val(x) * val(y) < pow2(k) * pow2(149),
    ensures
        (x * y).is_finite(),
        2 * (val(x * y) * pow2(149) - val(x) * val(y)) <= pow2(149) * pow2((k - 24) as nat),
        2 * (val(x) * val(y) - val(x * y) * pow2(149)) <= pow2(149) * pow2((k - 24) as nat),
        x.minus() == y.minus() ==> !(x * y).minus(),
{
    let f = single::layout();
    let u = pow2(149);
    reveal(Single::spec_mul);
    lemma_layout_bounds();
    lemma2_to64();
    lemma_zero_value();
    lemma_pow2_pos(149);
    let (vx, vy) = (binary::value(x.mag(), f), binary::value(y.mag(), f));
    assert(vx * vy == (if x.minus() == y.minus() {
        val(x) * val(y)
    } else {
        -(val(x) * val(y))
    })) by (nonlinear_arith)
        requires
            x.minus() ==> val(x) == -vx,
            !x.minus() ==> val(x) == vx,
            y.minus() ==> val(y) == -vy,
            !y.minus() ==> val(y) == vy,
    ;
    lemma_nearest_close(vx * vy, u, k);
    let w = round::nearest(vx * vy, u, 24);
    assert((k - 22) * pow2(23) < 0x7f80_0000) by (nonlinear_arith)
        requires
            k <= 270,
            pow2(23) == 0x80_0000,
    ;
    let m = round::units(w, 24);
    assert((-(m as int)) * u == -(m * u)) by (nonlinear_arith);
}

/// The opposite of the opposite is the number itself.
pub proof fn lemma_double_negation(x: Single)
    ensures
        x.negated().negated() == x,
{
}

/// A number and its opposite cancel.
pub proof fn lemma_opposites(x: Single)
    requires
        x.is_finite(),
    ensures
        x.negated() + x == single::of(0),
        x + x.negated() == single::of(0),
{
    reveal(Single::spec_add);
    lemma_layout_bounds();
    facts::lemma_nearest_exact(0, 24);
    lemma_zero_value();
}

/// The product of two numbers below bounds is at most the product of the bounds, where that is exact.
pub proof fn lemma_product_at_most(x: Single, y: Single, a: u32, b: u32, c: u32)
    requires
        x.abs().lt(single::of(a)),
        y.abs().lt(single::of(b)),
        a < 0x7f80_0000,
        b < 0x7f80_0000,
        c < 0x7f80_0000,
        binary::value(a as u64, single::layout()) * binary::value(b as u64, single::layout())
            == binary::value(c as u64, single::layout()) * pow2(149),
    ensures
        (x * y).is_finite(),
        (x * y).mag() <= c,
        -(binary::value(c as u64, single::layout()) as int) <= val(x * y) <= binary::value(
            c as u64,
            single::layout(),
        ),
{
    let f = single::layout();
    let u = pow2(149);
    reveal(Single::spec_mul);
    lemma_layout_bounds();
    let (vx, vy) = (binary::value(x.mag(), f), binary::value(y.mag(), f));
    let (va, vb, vc) = (
        binary::value(a as u64, f),
        binary::value(b as u64, f),
        binary::value(c as u64, f),
    );
    facts::lemma_units_monotone(x.mag() as nat, a as nat, 24);
    facts::lemma_units_monotone(y.mag() as nat, b as nat, 24);
    assert((vx * vy) * 1 <= vc * u) by (nonlinear_arith)
        requires
            vx <= va,
            vy <= vb,
            va * vb == vc * u,
    ;
    lemma_rounded_ordered(vx * vy, u, vc, 1, 24, f.top as nat);
    facts::lemma_nearest_exact(c as nat, 24);
    facts::lemma_units_monotone((x * y).mag() as nat, c as nat, 24);
}

/// Doubling is exact, and so is halving again.
pub proof fn lemma_half_of_double(x: Single)
    requires
        (x + x).is_finite(),
    ensures
        x.is_finite(),
        (x + x) / single::of(0x4000_0000) == x,
{
    let f = single::layout();
    let u = pow2(149);
    let t = pow2(23);
    reveal(Single::spec_add);
    reveal(Single::spec_euclidean_or_real_div);
    lemma_layout_bounds();
    lemma_zero_value();
    lemma2_to64();
    let w = x.mag() as nat;
    let v = binary::value(x.mag(), f);
    let w2 = if w < t {
        2 * w
    } else {
        w + t
    };
    assert(round::units(w2, 24) == 2 * v) by {
        if w >= t {
            lemma_fundamental_div_mod(w as int, t as int);
            lemma_mod_bound(w as int, t as int);
            let (a, r) = (w / t, w % t);
            assert(a >= 1) by (nonlinear_arith)
                requires
                    w == t * a + r,
                    r < t,
                    w >= t,
            ;
            assert(w2 == t * (a + 1) + r) by (nonlinear_arith)
                requires
                    w == t * a + r,
                    w2 == w + t,
            ;
            lemma_fundamental_div_mod_converse(w2 as int, t as int, (a + 1) as int, r as int);
            lemma_pow2_unfold(a);
            assert((r + t) * pow2(a) == 2 * ((r + t) * pow2((a - 1) as nat))) by (nonlinear_arith)
                requires
                    pow2(a) == 2 * pow2((a - 1) as nat),
            ;
        } else if w2 >= t {
            lemma_fundamental_div_mod_converse(w2 as int, t as int, 1, w2 - t);
            assert((w2 - t + t) * 1 == w2);
        }
    }
    facts::lemma_nearest_exact(w2, 24);
    assert((x + x).mag() == w2);
    lemma_units_at(127, t);
    assert(127 * t + t == 0x4000_0000);
    lemma_pow2_adds(23, 127);
    lemma_pow2_unfold(150);
    assert((2 * v * u) * 1 == v * (2 * u)) by (nonlinear_arith);
    round::lemma_nearest_same((2 * v * u) as nat, 2 * u, v, 1, 24);
    facts::lemma_nearest_exact(w, 24);
}

/// One less a share between zero and one is again one.
pub proof fn lemma_one_less(a: Single)
    requires
        single::of(0).lt(a),
        a.lt(single::of(single::ONE)),
    ensures
        ({
            let c = single::of(single::ONE) - a;
            !c.minus() && 0 < c.mag() <= single::ONE
        }),
{
    let f = single::layout();
    let u = pow2(149);
    reveal(Single::spec_add);
    lemma_layout_bounds();
    lemma_zero_value();
    facts::lemma_single_one();
    let v = binary::value(a.mag(), f);
    lemma_units_below(a.mag() as nat, single::ONE as nat);
    let n = (u - v) as nat;
    lemma_rounded_ordered(n, 1, u, 1, 24, f.top as nat);
    lemma_rounded_ordered(1, 1, n, 1, 24, f.top as nat);
    lemma2_to64();
    assert(round::units(1, 24) == 1);
    facts::lemma_nearest_exact(1, 24);
    facts::lemma_nearest_exact(single::ONE as nat, 24);
}

/// A smaller word stands for less.
pub proof fn lemma_units_below(a: nat, b: nat)
    requires
        a < b,
    ensures
        round::units(a, 24) < round::units(b, 24),
{
    facts::lemma_units_monotone(a, b, 24);
    facts::lemma_nearest_exact(a, 24);
    facts::lemma_nearest_exact(b, 24);
}

/// Whether a number lies between minus one and zero.
pub open spec fn within_shut(x: Single) -> bool {
    -(single::ONE as int) <= x.key() <= 0
}

/// A share of a number is no larger than the number.
pub proof fn lemma_share(x: Single, s: Single)
    requires
        x.is_finite(),
        s.mag() <= single::ONE,
    ensures
        (x * s).is_finite(),
        (x * s).mag() <= x.mag(),
        (x * s).mag() > 0 ==> (x * s).minus() == (x.minus() != s.minus()),
        x * s == s * x,
{
    let f = single::layout();
    let u = pow2(149);
    reveal(Single::spec_mul);
    lemma_layout_bounds();
    facts::lemma_single_one();
    facts::lemma_units_monotone(s.mag() as nat, single::ONE as nat, 24);
    let (vx, vs) = (binary::value(x.mag(), f), binary::value(s.mag(), f));
    assert((vx * vs) * 1 <= vx * u && vx * vs == vs * vx) by (nonlinear_arith)
        requires
            vs <= u,
    ;
    lemma_rounded_ordered(vx * vs, u, vx, 1, 24, f.top as nat);
    facts::lemma_nearest_exact(x.mag() as nat, 24);
}

/// A weighted mean of two numbers between minus one and zero lies there too, where the weights make
/// up one exactly.
pub proof fn lemma_mean_within(x: Single, y: Single, a: Single, b: Single)
    requires
        within_shut(x),
        within_shut(y),
        !a.minus(),
        !b.minus(),
        a.mag() <= single::ONE,
        b.mag() <= single::ONE,
        val(a) + val(b) == pow2(149),
    ensures
        within_shut(x * a + y * b),
{
    let f = single::layout();
    lemma_layout_bounds();
    lemma_zero_value();
    facts::lemma_single_one();
    lemma_share(a, x);
    lemma_share(b, y);
    lemma_share(x, a);
    lemma_share(y, b);
    let (p, q) = (x * a, y * b);
    assert(val(p) <= 0 && val(q) <= 0);
    facts::lemma_units_monotone(p.mag() as nat, a.mag() as nat, 24);
    facts::lemma_units_monotone(q.mag() as nat, b.mag() as nat, 24);
    assert(-(pow2(149) as int) <= val(p) + val(q) <= 0);
    reveal(Single::spec_add);
    let n = binary::magnitude(val(p) + val(q));
    lemma_rounded_ordered(n, 1, pow2(149), 1, 24, f.top as nat);
    facts::lemma_nearest_exact(single::ONE as nat, 24);
    facts::lemma_nearest_exact(0, 24);
}

/// What is not below zero stays so under multiplication, addition and division.
pub proof fn lemma_not_below_zero(x: Single, y: Single, c: Single)
    requires
        single::of(0).le(x),
        single::of(0).le(y),
        single::of(0).lt(c),
        c.is_finite(),
    ensures
        single::of(0).le(x * c),
        single::of(0).le(x / c),
        single::of(0).le(x + y),
{
    let f = single::layout();
    reveal(Single::spec_mul);
    reveal(Single::spec_add);
    reveal(Single::spec_euclidean_or_real_div);
    lemma_layout_bounds();
    lemma_zero_value();
    facts::lemma_nearest_exact(0, 24);
    let (vx, vc) = (binary::value(x.mag(), f), binary::value(c.mag(), f));
    assert(vx == 0 ==> vx * vc == 0 && vx * pow2(149) == 0) by (nonlinear_arith);
    round::lemma_nearest_same(0, pow2(149), 0, 1, 24);
    round::lemma_nearest_same(0, vc, 0, 1, 24);
}

/// What is larger lies above by something.
pub proof fn lemma_difference(x: Single, y: Single)
    requires
        x.is_finite(),
        y.is_finite(),
    ensures
        !(x - y).is_nan(),
        x.lt(y) ==> (x - y).minus() && (x - y).mag() > 0,
        y.le(x) ==> single::of(0).le(x - y),
{
    let f = single::layout();
    reveal(Single::spec_add);
    lemma_layout_bounds();
    lemma_zero_value();
    lemma_val_negated(y);
    let s = val(x) - val(y);
    if x.lt(y) {
        if !x.minus() {
            lemma_units_below(x.mag() as nat, y.mag() as nat);
        } else if y.minus() {
            lemma_units_below(y.mag() as nat, x.mag() as nat);
        } else {
            assert(x.mag() > 0 || y.mag() > 0);
        }
        assert(s < 0);
        lemma2_to64();
        lemma_rounded_ordered(1, 1, (-s) as nat, 1, 24, f.top as nat);
        assert(round::units(1, 24) == 1);
        facts::lemma_nearest_exact(1, 24);
    } else {
        if !y.minus() && !x.minus() {
            facts::lemma_units_monotone(y.mag() as nat, x.mag() as nat, 24);
        } else if y.minus() && x.minus() {
            facts::lemma_units_monotone(x.mag() as nat, y.mag() as nat, 24);
        }
        facts::lemma_nearest_exact(0, 24);
    }
}

/// Nothing and nothing is nothing.
pub proof fn lemma_zeros()
    ensures
        single::of(0) + single::of(0) == single::of(0),
{
    reveal(Single::spec_add);
    lemma_layout_bounds();
    lemma_zero_value();
    facts::lemma_nearest_exact(0, 24);
}

/// What a share leaves of one, where that is exact.
pub proof fn lemma_complement(a: u32, c: u32)
    requires
        a < single::ONE,
        c < single::ONE,
        round::units(a as nat, 24) + round::units(c as nat, 24) == pow2(149),
        c > 0,
    ensures
        single::of(single::ONE) - single::of(a) == single::of(c),
        val(single::of(a)) + val(single::of(c)) == pow2(149),
{
    reveal(Single::spec_add);
    lemma_layout_bounds();
    lemma_zero_value();
    facts::lemma_single_one();
    facts::lemma_nearest_exact(c as nat, 24);
    lemma_val_negated(single::of(a));
}

/// A number that is not zero, by a finite one, is no less a number.
pub proof fn lemma_quotient(x: Single, y: Single)
    requires
        !x.is_nan(),
        x.mag() > 0,
        y.is_finite(),
    ensures
        !(x / y).is_nan(),
{
    reveal(Single::spec_euclidean_or_real_div);
    lemma_layout_bounds();
}

/// Whether two numbers are at most two steps between neighbouring values apart.
pub open spec fn nearly(x: Single, y: Single) -> bool {
    -2 <= x.key() - y.key() <= 2
}

/// A weighted mean of a number with itself is nearly that number, where the weights make up one
/// exactly.
pub proof fn lemma_mean_of_same(x: Single, a: Single, b: Single)
    requires
        x.mag() + 1 < single::INFINITY,
        !a.minus(),
        !b.minus(),
        a.mag() <= single::ONE,
        b.mag() <= single::ONE,
        val(a) + val(b) == pow2(149),
    ensures
        nearly(a * x + b * x, x),
{
    let f = single::layout();
    let u = pow2(149);
    let t = pow2(23);
    let w = x.mag() as nat;
    lemma_layout_bounds();
    lemma_zero_value();
    lemma2_to64();
    lemma_share(x, a);
    lemma_share(x, b);
    let (p, q) = (a * x, b * x);
    let (va, vb, vx) = (val(a) as nat, val(b) as nat, binary::value(x.mag(), f));
    let (vp, vq) = (binary::value(p.mag(), f), binary::value(q.mag(), f));
    let (e, m) = if w < 2 * t {
        (0nat, w)
    } else {
        ((w / t - 1) as nat, (w % t + t) as nat)
    };
    lemma_fundamental_div_mod(w as int, t as int);
    lemma_mod_bound(w as int, t as int);
    let (c, r) = (w / t, w % t);
    if w >= 2 * t {
        assert(c >= 2) by (nonlinear_arith)
            requires
                w == t * c + r,
                r < t,
                w >= 2 * t,
                t > 0,
        ;
        assert(e * t + m == w) by (nonlinear_arith)
            requires
                w == t * c + r,
                e == c - 1,
                m == r + t,
        ;
    } else {
        assert(0 * t == 0);
    }
    let g = pow2(e);
    lemma_pow2_pos(e);
    lemma_units_at(e, m);
    assert(vx == m * g);
    lemma_product_near(x, a, e, m);
    lemma_product_near(x, b, e, m);
    assert(-(g as int) <= vp + vq - vx <= g) by (nonlinear_arith)
        requires
            2 * (vp * u - va * vx) <= u * g,
            2 * (va * vx - vp * u) <= u * g,
            2 * (vq * u - vb * vx) <= u * g,
            2 * (vb * vx - vq * u) <= u * g,
            va + vb == u,
            u > 0,
    ;
    lemma_around(e, m, (vp + vq) as nat);
    reveal(Single::spec_add);
    facts::lemma_nearest_exact(0, 24);
    assert(val(p) == (if x.minus() {
        -(vp as int)
    } else {
        vp as int
    }));
    assert(val(q) == (if x.minus() {
        -(vq as int)
    } else {
        vq as int
    }));
}

proof fn lemma_product_near(x: Single, a: Single, e: nat, m: nat)
    requires
        x.is_finite(),
        !a.minus(),
        a.mag() <= single::ONE,
        m < 2 * pow2(23),
        binary::value(x.mag(), single::layout()) == m * pow2(e),
    ensures
        ({
            let u = pow2(149);
            let v = binary::value((a * x).mag(), single::layout());
            let (va, vx) = (val(a), binary::value(x.mag(), single::layout()));
            &&& 2 * (v * u - va * vx) <= u * pow2(e)
            &&& 2 * (va * vx - v * u) <= u * pow2(e)
        }),
{
    let f = single::layout();
    let u = pow2(149);
    lemma_layout_bounds();
    lemma2_to64();
    facts::lemma_single_one();
    facts::lemma_units_monotone(a.mag() as nat, single::ONE as nat, 24);
    let (va, vx) = (binary::value(a.mag(), f), binary::value(x.mag(), f));
    lemma_pow2_pos(e);
    lemma_pow2_adds(24, e);
    let k = 24 + e;
    assert(va * vx < pow2(k) * u) by (nonlinear_arith)
        requires
            va <= u,
            u > 0,
            vx == m * pow2(e),
            m < 0x100_0000,
            pow2(k) == 0x100_0000 * pow2(e),
            pow2(e) > 0,
    ;
    lemma_nearest_close(va * vx, u, k);
    reveal(Single::spec_mul);
    assert(va * vx == vx * va) by (nonlinear_arith);
    lemma_share(x, a);
    assert(round::nearest(va * vx, u, 24) <= x.mag()) by {
        assert((va * vx) * 1 <= vx * u) by (nonlinear_arith)
            requires
                va <= u,
        ;
        let d = u * 1;
        round::lemma_nearest_same(vx, 1, vx * u, u, 24);
        facts::lemma_nearest_monotone(va * vx, vx * u, u, 24);
        facts::lemma_nearest_exact(x.mag() as nat, 24);
    }
}

proof fn lemma_around(e: nat, m: nat, n: nat)
    requires
        m < 2 * pow2(23),
        e > 0 ==> m >= pow2(23),
        m * pow2(e) - pow2(e) <= n <= m * pow2(e) + pow2(e),
    ensures
        e * pow2(23) + m - 2 <= round::nearest(n, 1, 24) <= e * pow2(23) + m + 1,
{
    let g = pow2(e);
    let t = pow2(23);
    lemma2_to64();
    lemma_pow2_pos(e);
    lemma_units_at(e, m + 1);
    assert((m + 1) * g == m * g + g) by (nonlinear_arith);
    facts::lemma_nearest_exact(e * t + m + 1, 24);
    facts::lemma_nearest_monotone(n, (m + 1) * g, 1, 24);
    if m > 0 {
        assert((m - 1) * g == m * g - g) by (nonlinear_arith);
        if e == 0 || m > t {
            lemma_units_at(e, (m - 1) as nat);
            facts::lemma_nearest_exact((e * t + m - 1) as nat, 24);
        } else {
            lemma_pow2_unfold(e);
            lemma_units_at((e - 1) as nat, (2 * t - 2) as nat);
            assert((2 * t - 2) * pow2((e - 1) as nat) == (m - 1) * g) by (nonlinear_arith)
                requires
                    m == t,
                    g == 2 * pow2((e - 1) as nat),
            ;
            assert((e - 1) * t + (2 * t - 2) == e * t + m - 2) by (nonlinear_arith)
                requires
                    m == t,
            ;
            facts::lemma_nearest_exact((e * t + m - 2) as nat, 24);
        }
        facts::lemma_nearest_monotone(((m - 1) * g) as nat, n, 1, 24);
    }
}

/// The remainder of a division has the sign of what is divided, and is rounded by at most half the
/// distance of neighbouring values below the divisor.
pub proof fn lemma_remainder_close(x: Single, c: Single, k: nat)
    requires
        x.is_finite(),
        c.is_finite(),
        !c.minus(),
        24 <= k <= 270,
        0 < val(c) < pow2(k),
    ensures
        ({
            let r = x.remainder(c);
            let exact = binary::value(x.mag(), single::layout()) as int % val(c);
            let got = if x.minus() {
                -val(r)
            } else {
                val(r)
            };
            &&& r.is_finite()
            &&& 2 * (got - exact) <= pow2((k - 24) as nat)
            &&& 2 * (exact - got) <= pow2((k - 24) as nat)
            &&& 0 <= got <= val(c)
            &&& r.mag() > 0 ==> r.minus() == x.minus()
        }),
{
    let f = single::layout();
    reveal(Single::remainder_spec);
    lemma_layout_bounds();
    lemma_zero_value();
    lemma2_to64();
    let v = binary::value(x.mag(), f);
    let d = binary::value(c.mag(), f);
    assert(c.mag() > 0);
    lemma_mod_bound(v as int, d as int);
    let n = v % d;
    assert(pow2(k) * 1 == pow2(k));
    lemma_nearest_close(n, 1, k);
    assert((k - 22) * pow2(23) < 0x7f80_0000) by (nonlinear_arith)
        requires
            k <= 270,
            pow2(23) == 0x80_0000,
    ;
    let w = round::nearest(n, 1, 24);
    assert(round::units(w, 24) * 1 == round::units(w, 24));
    assert(1 * pow2((k - 24) as nat) == pow2((k - 24) as nat));
    facts::lemma_nearest_monotone(n, d, 1, 24);
    facts::lemma_nearest_exact(c.mag() as nat, 24);
    facts::lemma_units_monotone(w, c.mag() as nat, 24);
}

/// A number below zero has a value below zero, and no other.
pub proof fn lemma_val_sign(x: Single)
    ensures
        x.key() < 0 <==> val(x) < 0,
{
    lemma_zero_value();
}

/// A sum of two numbers is no larger than the double of one that is no smaller than either.
pub proof fn lemma_sum_at_most(a: Single, b: Single, c: Single)
    requires
        a.mag() <= c.mag(),
        b.mag() <= c.mag(),
        (c + c).is_finite(),
    ensures
        c.is_finite(),
        (a + b).is_finite(),
        (a + b).mag() <= (c + c).mag(),
{
    let f = single::layout();
    reveal(Single::spec_add);
    lemma_layout_bounds();
    lemma_half_of_double(c);
    facts::lemma_units_monotone(a.mag() as nat, c.mag() as nat, 24);
    facts::lemma_units_monotone(b.mag() as nat, c.mag() as nat, 24);
    let n = binary::magnitude(val(a) + val(b));
    let m = binary::magnitude(val(c) + val(c));
    lemma_rounded_ordered(n, 1, m, 1, 24, f.top as nat);
}

/// Half of a number is no larger than half of one that is no smaller.
pub proof fn lemma_half_at_most(a: Single, b: Single)
    requires
        a.mag() <= b.mag(),
        b.is_finite(),
        (b / single::of(0x4000_0000)).is_finite(),
    ensures
        (a / single::of(0x4000_0000)).is_finite(),
        (a / single::of(0x4000_0000)).mag() <= (b / single::of(0x4000_0000)).mag(),
{
    let f = single::layout();
    let u = pow2(149);
    reveal(Single::spec_euclidean_or_real_div);
    lemma_layout_bounds();
    lemma_zero_value();
    facts::lemma_units_monotone(a.mag() as nat, b.mag() as nat, 24);
    let (x, y) = (binary::value(a.mag(), f), binary::value(b.mag(), f));
    let d = binary::value(0x4000_0000, f);
    assert((x * u) * d <= (y * u) * d) by (nonlinear_arith)
        requires
            x <= y,
    ;
    lemma_rounded_ordered(x * u, d, y * u, d, 24, f.top as nat);
}

/// A larger count stands for no less as a single.
pub proof fn lemma_count_order(a: int, b: int)
    requires
        0 <= a <= b,
    ensures
        !Single::from_int(a).is_nan(),
        !Single::from_int(b).is_nan(),
        !Single::from_int(a).minus(),
        Single::from_int(a).le(Single::from_int(b)),
{
    reveal(Single::from_int);
    let f = single::layout();
    lemma_layout_bounds();
    let u = pow2(149);
    assert((a * u) * 1 <= (b * u) * 1) by (nonlinear_arith)
        requires
            a <= b,
    ;
    lemma_rounded_ordered((a * u) as nat, 1, (b * u) as nat, 1, 24, f.top as nat);
}

/// A number that is not below zero, rounded to the nearest integer.
pub proof fn lemma_round_value(x: Single)
    requires
        x.is_finite(),
        !x.minus(),
        val(x) < 0x100_0000 * pow2(149),
    ensures
        x.round().is_finite(),
        !x.round().minus(),
        val(x.round()) == ((2 * val(x) + pow2(149)) / (2 * pow2(149) as int)) * pow2(149),
        (2 * val(x) + pow2(149)) / (2 * pow2(149) as int) >= 0,
{
    let f = single::layout();
    let u = pow2(149) as int;
    let v = val(x);
    reveal(Single::integral_spec);
    lemma_layout_bounds();
    lemma_zero_value();
    lemma_fundamental_div_mod(v, u);
    lemma_mod_bound(v, u);
    let (q, r) = (v / u, v % u);
    lemma2_to64();
    assert(q < 0x100_0000) by (nonlinear_arith)
        requires
            v == u * q + r,
            0 <= r < u,
            v < 0x100_0000 * u,
    ;
    assert(q >= 0) by (nonlinear_arith)
        requires
            v == u * q + r,
            0 <= r < u,
            v >= 0,
    ;
    assert(u * q == q * u) by (nonlinear_arith);
    let n = if 2 * r >= u {
        q + 1
    } else {
        q
    };
    assert((2 * v + u) / (2 * u) == n) by {
        let s = 2 * v + u - 2 * u * n;
        assert(2 * v + u == n * (2 * u) + s && 0 <= s < 2 * u) by (nonlinear_arith)
            requires
                s == 2 * v + u - 2 * u * n,
                v == u * q + r,
                0 <= r < u,
                n == q && 2 * r < u || n == q + 1 && 2 * r >= u,
        ;
        lemma_fundamental_div_mod_converse(2 * v + u, 2 * u, n, s);
    }
    facts::lemma_int_exact(q as nat, f);
    facts::lemma_int_exact((q + 1) as nat, f);
    assert(pow2(149) as nat * 1 == pow2(149));
}

/// A count of up to 32 bits as a single.
pub proof fn lemma_count_value(n: int)
    requires
        0 <= n <= u32::MAX,
    ensures
        Single::from_int(n).is_finite(),
        !Single::from_int(n).minus(),
        0 <= val(Single::from_int(n)) < pow2(182),
        n >= 1 ==> val(Single::from_int(n)) >= pow2(149),
{
    reveal(Single::from_int);
    let f = single::layout();
    let u = pow2(149);
    lemma_layout_bounds();
    lemma2_to64();
    lemma_pow2_adds(32, 149);
    lemma_pow2_adds(24, 157);
    lemma_pow2_unfold(182);
    lemma_pow2_pos(157);
    let v = (n * u) as nat;
    assert(0 <= n * u < pow2(181)) by (nonlinear_arith)
        requires
            0 <= n < pow2(32),
            pow2(181) == pow2(32) * u,
            u > 0,
    ;
    assert(pow2(181) * 1 == pow2(181) && 1 * pow2(157) == pow2(157));
    lemma_nearest_close(v, 1, 181);
    let w = round::nearest(v, 1, 24);
    assert(159 * pow2(23) < 0x7f80_0000);
    assert(round::units(w, 24) * 1 == round::units(w, 24));
    assert(val(Single::from_int(n)) == round::units(w, 24));
    if n >= 1 {
        lemma_count_order(1, n);
        facts::lemma_single_one();
        lemma_val_order(Single::from_int(1), Single::from_int(n));
    }
}

/// The quotient of a number below `2^182`, in units of the smallest, and a count.
pub proof fn lemma_ratio_value(x: Single, n: int)
    requires
        x.is_finite(),
        !x.minus(),
        val(x) < pow2(182),
        1 <= n <= u32::MAX,
    ensures
        (x / Single::from_int(n)).is_finite(),
        !(x / Single::from_int(n)).minus(),
        0 <= val(x / Single::from_int(n)) < pow2(183),
{
    let f = single::layout();
    let u = pow2(149);
    reveal(Single::spec_euclidean_or_real_div);
    lemma_layout_bounds();
    lemma_zero_value();
    lemma2_to64();
    lemma_count_value(n);
    lemma_pow2_pos(158);
    lemma_pow2_adds(24, 158);
    lemma_pow2_unfold(183);
    let (b, d) = (val(x) as nat, val(Single::from_int(n)) as nat);
    assert(b * u < pow2(182) * d) by (nonlinear_arith)
        requires
            0 <= b < pow2(182),
            d >= u,
            u > 0,
    ;
    lemma_nearest_close(b * u, d, 182);
    let w = round::nearest(b * u, d, 24);
    assert(160 * pow2(23) < 0x7f80_0000);
    let a = round::units(w, 24);
    assert(a < pow2(183)) by (nonlinear_arith)
        requires
            2 * (a * d - b * u) <= d * pow2(158),
            b * u < pow2(182) * d,
            pow2(182) == pow2(24) * pow2(158),
            pow2(183) == 2 * pow2(182),
            pow2(24) == 0x100_0000,
            pow2(158) > 0,
            d > 0,
    ;
}

/// A number less one that is not below zero is no more than the number.
pub proof fn lemma_less_no_more(x: Single, y: Single)
    requires
        x.is_finite(),
        y.is_finite(),
        !x.minus(),
        !y.minus(),
        y.le(x),
    ensures
        (x - y).is_finite(),
        (x - y).le(x),
{
    let f = single::layout();
    reveal(Single::spec_add);
    lemma_layout_bounds();
    lemma_zero_value();
    lemma_val_negated(y);
    lemma_val_order(y, x);
    let n = binary::magnitude(val(x) - val(y));
    lemma_rounded_ordered(n, 1, val(x) as nat, 1, 24, f.top as nat);
    facts::lemma_nearest_exact(x.mag() as nat, 24);
}

} // verus!
