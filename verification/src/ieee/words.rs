//! What the words of some numbers stand for, and the sizes of the numbers that laws speak of.

use crate::ieee::binary;
use crate::ieee::decimal;
use crate::ieee::facts;
use crate::ieee::near;
use crate::ieee::near::{eps, real_of, roughly};
use crate::ieee::order;
use crate::ieee::rises;
use crate::ieee::round;
use crate::ieee::single;
use crate::ieee::single::Single;
use vstd::arithmetic::div_mod::*;
use vstd::arithmetic::mul::*;
use vstd::arithmetic::power2::*;
use vstd::prelude::*;

verus! {

/// The largest size of the numbers that laws speak of.
pub open spec fn most() -> real {
    1000000000000000000000000000real
}

/// The least bound on a size that laws speak of.
pub open spec fn least() -> real {
    1real / 1000000000000real
}

/// What a word with a small exponent stands for, from a power of two that is known.
pub proof fn lemma_word_value(w: u32, e: nat, q: nat, k: nat, p: real, v: real)
    requires
        w as nat == e * 0x80_0000 + q,
        0x80_0000 <= q < 0x100_0000,
        e + k == 149,
        w < 0x7f80_0000,
        pow2(k) as real == p,
        p > 0real,
        q as real == v * p,
    ensures
        single::of(w).is_finite(),
        real_of(single::of(w)) == v,
{
    near::lemma_word(w, e, q, k);
    let a = q as real;
    assert(a / p == v) by (nonlinear_arith)
        requires
            a == v * p,
            p > 0real,
    ;
}

/// What the words of some small numbers stand for.
pub proof fn lemma_words()
    ensures
        single::of(single::ONE).is_finite() && real_of(single::of(single::ONE)) == 1real,
        single::of(decimal::N2).is_finite() && real_of(single::of(decimal::N2)) == 2real,
        single::of(decimal::N0_5).is_finite() && real_of(single::of(decimal::N0_5)) == 1real / 2real,
        single::of(decimal::N8).is_finite() && real_of(single::of(decimal::N8)) == 8real,
        single::of(decimal::N32).is_finite() && real_of(single::of(decimal::N32)) == 32real,
{
    lemma2_to64();
    lemma_word_value(single::ONE, 126, 0x80_0000, 23, 8388608real, 1real);
    lemma_word_value(decimal::N2, 127, 0x80_0000, 22, 4194304real, 2real);
    lemma_word_value(decimal::N0_5, 125, 0x80_0000, 24, 16777216real, 1real / 2real);
    lemma_word_value(decimal::N8, 129, 0x80_0000, 20, 1048576real, 8real);
    lemma_word_value(decimal::N32, 131, 0x80_0000, 18, 262144real, 32real);
}

/// A word that a decimal fraction was rounded to.
pub proof fn lemma_tenth()
    ensures
        roughly(single::of(decimal::N0_1), 1real / 10real, 1real / 10real, 1real),
{
    lemma2_to64();
    let v = 13421773real / 134217728real;
    lemma_word_value(decimal::N0_1, 122, 0xcc_cccd, 27, 134217728real, v);
    assert(1real * eps() * (1real / 10real) == 1real / 167772160real);
}

/// Nothing stands for nothing.
pub proof fn lemma_nothing()
    ensures
        single::of(0).is_finite(),
        real_of(single::of(0)) == 0real,
{
    lemma2_to64();
    lemma_pow2_pos(149);
    assert(round::units(0, 24) == 0);
    let u = pow2(149) as real;
    assert(0real / u == 0real) by (nonlinear_arith)
        requires
            u > 0real,
    ;
}

/// A number that is not below zero, rounded down to an integer.
pub proof fn lemma_floor_value(x: Single, n: int)
    requires
        x.is_finite(),
        !x.minus(),
        0 <= n < 0x100_0000,
        n as real <= real_of(x) < n as real + 1real,
    ensures
        x.floor().is_finite(),
        real_of(x.floor()) == n as real,
{
    let f = single::layout();
    let u = pow2(149) as int;
    let v = order::val(x);
    lemma2_to64();
    lemma_pow2_pos(149);
    reveal(Single::integral_spec);
    assert(round::units(0, 24) == 0);
    let (vr, ur) = (v as real, u as real);
    assert(n as real * ur <= vr < (n as real + 1real) * ur) by (nonlinear_arith)
        requires
            n as real <= vr / ur < n as real + 1real,
            ur > 0real,
    ;
    assert((n * u) as real == n as real * ur && ((n + 1) * u) as real == (n as real + 1real) * ur) by (nonlinear_arith)
        requires
            ur == u as real,
    ;
    assert(n * u <= v < (n + 1) * u);
    let r = v - n * u;
    lemma_mul_is_distributive_add(u, n, 1);
    lemma_mul_is_commutative(n, u);
    lemma_mul_is_commutative(n + 1, u);
    lemma_fundamental_div_mod_converse(v, u, n, r);
    facts::lemma_int_exact(n as nat, f);
    assert(order::val(x.floor()) == n * u);
    assert((n as real * ur) / ur == n as real) by (nonlinear_arith)
        requires
            ur > 0real,
    ;
}

/// The whole part of a quotient of small counts, computed in single precision.
pub proof fn lemma_floor_ratio(n: int, g: int)
    requires
        0 <= n < 0x1_0000,
        1 <= g <= 0x100,
    ensures
        (Single::from_int(n) / Single::from_int(g)).floor().is_finite(),
        real_of((Single::from_int(n) / Single::from_int(g)).floor()) == (n / g) as real,
        0 <= n / g <= n,
{
    let (a, b) = (Single::from_int(n), Single::from_int(g));
    near::lemma_count(n);
    near::lemma_count(g);
    lemma_fundamental_div_mod(n, g);
    lemma_mod_bound(n, g);
    let (q, r) = (n / g, n % g);
    lemma_div_pos_is_pos(n, g);
    lemma_div_is_ordered_by_denominator(n, 1, g);
    let (nr, gr, qr, rr) = (n as real, g as real, q as real, r as real);
    assert(nr == gr * qr + rr) by (nonlinear_arith)
        requires
            n == g * q + r,
            nr == n as real,
            gr == g as real,
            qr == q as real,
            rr == r as real,
    ;
    let e = nr / gr;
    assert(qr <= e <= qr + 1real - 1real / gr && e >= 0real) by (nonlinear_arith)
        requires
            e == nr / gr,
            nr == gr * qr + rr,
            0real <= rr <= gr - 1real,
            gr >= 1real,
            qr >= 0real,
    ;
    assert(1real / gr >= 1real / 256real) by (nonlinear_arith)
        requires
            1real <= gr <= 256real,
    ;
    near::lemma_ratio(a, b);
    let x = a / b;
    lemma_small();
    let ep = eps();
    let h = 1real / gr;
    assert(ep * e <= h / 256real) by (nonlinear_arith)
        requires
            ep == 1real / 16777216real,
            e == nr / gr,
            h == 1real / gr,
            0real <= nr <= 65536real,
            gr >= 1real,
    ;
    assert(real_of(x) < qr + 1real);
    lemma_mul_is_commutative(g, q);
    lemma_exact_ratio(q, g);
    near::lemma_count(q);
    near::lemma_count(q * g);
    near::lemma_real_order(Single::from_int(q * g), a);
    lemma_nothing();
    near::lemma_real_order(single::of(0), b);
    rises::lemma_ratio_rises(Single::from_int(q * g), a, b);
    near::lemma_real_order(Single::from_int(q), x);
    assert(!x.minus()) by {
        reveal(Single::spec_euclidean_or_real_div);
        lemma2_to64();
        assert(single::layout().top * pow2(23) == 0x7f80_0000);
        facts::lemma_single_from_int(n);
        facts::lemma_single_from_int(g);
    }
    lemma_floor_value(x, q);
}

/// A multiple divides exactly.
proof fn lemma_exact_ratio(q: int, g: int)
    requires
        0 <= q < 0x1_0000,
        1 <= g <= 0x100,
        q * g < 0x1_0000,
    ensures
        Single::from_int(q * g) / Single::from_int(g) == Single::from_int(q),
{
    reveal(Single::spec_euclidean_or_real_div);
    let f = single::layout();
    let u = pow2(149);
    lemma2_to64();
    lemma_pow2_pos(149);
    lemma_mul_nonnegative(q, g);
    facts::lemma_single_from_int(q * g);
    facts::lemma_single_from_int(g);
    let (a, b) = (Single::from_int(q * g), Single::from_int(g));
    let (va, vb) = (binary::value(a.mag(), f), binary::value(b.mag(), f));
    assert(vb > 0) by (nonlinear_arith)
        requires
            vb == g * u,
            g >= 1,
            u > 0,
    ;
    assert(b.mag() > 0) by {
        assert(round::units(0, 24) == 0);
    }
    let n = q as nat * u;
    assert(va * u * 1 == n * vb) by (nonlinear_arith)
        requires
            va == (q * g) * u,
            vb == g * u,
            n == q * u,
    ;
    round::lemma_nearest_same(va * u, vb, n, 1, 24);
    reveal(Single::from_int);
}

/// The smallest rounding is far below any number that laws speak of.
pub proof fn lemma_small()
    ensures
        near::tiny() > 0real,
        near::tiny() <= 1real / 1000000000000real,
{
    lemma2_to64();
    lemma_pow2_adds(32, 117);
    lemma_pow2_adds(32, 85);
    lemma_pow2_pos(85);
    let (t, w) = (near::tiny(), pow2(149));
    assert(w >= 1000000000000) by (nonlinear_arith)
        requires
            w == pow2(32) * pow2(117),
            pow2(117) == pow2(32) * pow2(85),
            pow2(32) == 0x1_0000_0000,
            pow2(85) > 0,
    ;
    let d = (2 * w) as real;
    assert(t > 0real && t <= 1real / 1000000000000real) by (nonlinear_arith)
        requires
            t == 1real / d,
            d >= 1000000000000real,
    ;
}

} // verus!
