//! What holds of rounding: it keeps what is representable, and words are ordered
//! as their values are.

use crate::ieee::binary;
use crate::ieee::binary::Format;
use crate::ieee::double;
use crate::ieee::double::Double;
use crate::ieee::round;
use crate::ieee::single;
use crate::ieee::single::Single;
use vstd::arithmetic::div_mod::*;
use vstd::arithmetic::power2::*;
use vstd::prelude::*;

verus! {

/// Words are ordered as the values they stand for.
pub proof fn lemma_units_monotone(w1: nat, w2: nat, p: nat)
    requires
        p >= 1,
        w1 <= w2,
    ensures
        round::units(w1, p) <= round::units(w2, p),
{
    let t = pow2((p - 1) as nat);
    lemma_pow2_pos((p - 1) as nat);
    if w2 >= t {
        let e2 = w2 / t;
        let f2 = w2 % t;
        lemma_fundamental_div_mod(w2 as int, t as int);
        lemma_mod_bound(w2 as int, t as int);
        assert(e2 >= 1) by (nonlinear_arith)
            requires
                w2 >= t,
                w2 == t * e2 + f2,
                f2 < t,
        ;
        let x2 = pow2((e2 - 1) as nat);
        lemma_pow2_pos((e2 - 1) as nat);
        assert((f2 + t) * x2 >= t) by (nonlinear_arith)
            requires
                x2 >= 1,
        ;
        if w1 >= t {
            let e1 = w1 / t;
            let f1 = w1 % t;
            lemma_fundamental_div_mod(w1 as int, t as int);
            lemma_mod_bound(w1 as int, t as int);
            assert(e1 >= 1) by (nonlinear_arith)
                requires
                    w1 >= t,
                    w1 == t * e1 + f1,
                    f1 < t,
            ;
            let x1 = pow2((e1 - 1) as nat);
            lemma_pow2_pos((e1 - 1) as nat);
            assert(e1 <= e2) by (nonlinear_arith)
                requires
                    w1 <= w2,
                    w1 == t * e1 + f1,
                    w2 == t * e2 + f2,
                    f2 < t,
                    t > 0,
                    f1 >= 0,
            ;
            if e1 == e2 {
                assert(f1 <= f2);
                assert((f1 + t) * x1 <= (f2 + t) * x1) by (nonlinear_arith)
                    requires
                        f1 <= f2,
                ;
            } else {
                round::lemma_pow2_monotone(e1, (e2 - 1) as nat);
                lemma_pow2_unfold(e1);
                assert((f1 + t) * x1 <= (f2 + t) * x2) by (nonlinear_arith)
                    requires
                        f1 < t,
                        2 * x1 <= x2,
                        x1 >= 0,
                        f2 >= 0,
                        t >= 0,
                {
                    assert((f1 + t) * x1 <= (2 * t) * x1);
                    assert((2 * t) * x1 == t * (2 * x1));
                    assert(t * (2 * x1) <= t * x2);
                    assert((f2 + t) * x2 >= t * x2);
                }
            }
        }
    }
}

proof fn lemma_units_of(e: nat, q: nat, p: nat)
    requires
        p >= 1,
        q < pow2(p),
        e > 0 ==> q >= pow2((p - 1) as nat),
    ensures
        round::units(e * pow2((p - 1) as nat) + q, p) == q * pow2(e),
{
    let t = pow2((p - 1) as nat);
    lemma_pow2_pos((p - 1) as nat);
    lemma_pow2_unfold(p);
    lemma2_to64();
    let w = e * t + q;
    if q < t {
        assert(e == 0);
        assert(0 * t == 0);
        assert(q * 1 == q);
    } else {
        assert(w == (e + 1) * t + (q - t)) by (nonlinear_arith)
            requires
                w == e * t + q,
        ;
        lemma_fundamental_div_mod_converse(w as int, t as int, (e + 1) as int, q - t);
        assert(e * t >= 0) by (nonlinear_arith);
    }
}

/// A value of the format rounds to itself.
pub proof fn lemma_nearest_exact(w: nat, p: nat)
    requires
        p >= 1,
    ensures
        round::nearest(round::units(w, p), 1, p) == w,
{
    let t = pow2((p - 1) as nat);
    lemma_pow2_pos((p - 1) as nat);
    lemma_pow2_unfold(p);
    lemma2_to64();
    let n = round::units(w, p);
    if w < 2 * t {
        assert(n == w) by {
            if w >= t {
                lemma_fundamental_div_mod_converse(w as int, t as int, 1, w - t);
                assert((w % t + t) * 1 == w);
            }
        }
        round::lemma_nearest_at(n, 1, p, 0);
        lemma_fundamental_div_mod_converse(n as int, 1, n as int, 0);
        assert(0 * t == 0);
        assert(1 * pow2(0) == 1);
    } else {
        let f = w % t;
        let field = w / t;
        lemma_fundamental_div_mod(w as int, t as int);
        lemma_mod_bound(w as int, t as int);
        assert(field >= 2) by (nonlinear_arith)
            requires
                w >= 2 * t,
                w == t * field + f,
                f < t,
        ;
        let e = (field - 1) as nat;
        let x = pow2(e);
        let q = f + t;
        lemma_pow2_pos(e);
        lemma_pow2_adds(p, e);
        lemma_pow2_adds((p - 1) as nat, e);
        assert(n < pow2(p) * x) by (nonlinear_arith)
            requires
                n == q * x,
                q < pow2(p),
                x > 0,
        ;
        assert(t * x <= n) by (nonlinear_arith)
            requires
                n == q * x,
                t <= q,
        ;
        round::lemma_nearest_at(n, 1, p, e);
        lemma_fundamental_div_mod_converse(n as int, x as int, q as int, 0);
        assert(round::half_even(n, x) == q);
        assert(1 * x == x);
        assert(e * t + q == w) by (nonlinear_arith)
            requires
                w == t * field + f,
                e == field - 1,
                q == f + t,
        ;
    }
}

/// A number that fits into the significant bits of a format keeps its value.
pub proof fn lemma_int_exact(n: nat, f: Format)
    requires
        f.wf(),
        f.unit + 3 <= f.top,
        n <= pow2(f.p as nat),
    ensures
        binary::int_word(n, f) < f.inf(),
        round::units(binary::int_word(n, f), f.p as nat) == n * pow2(f.unit as nat),
{
    let p = f.p as nat;
    let t = pow2((p - 1) as nat);
    let u = pow2(f.unit as nat);
    lemma_pow2_pos((p - 1) as nat);
    lemma_pow2_unfold(p);
    lemma_pow2_pos(f.unit as nat);
    let v = n * u;
    if n == 0 {
        assert(v == 0) by (nonlinear_arith)
            requires
                v == n * u,
                n == 0,
        ;
        lemma_nearest_exact(0, p);
        assert(f.inf() > 0) by (nonlinear_arith)
            requires
                f.inf() == f.top as nat * t,
                f.top >= 2,
                t > 0,
        ;
        assert(round::units(0, p) == 0);
    } else if n == pow2(p) {
        let e = (f.unit + 1) as nat;
        let w = e * t + t;
        lemma_units_of(e, t, p);
        lemma_pow2_unfold(e);
        assert(t * pow2(e) == v) by (nonlinear_arith)
            requires
                v == n * u,
                n == 2 * t,
                pow2(e) == 2 * u,
        ;
        lemma_nearest_exact(w, p);
        assert(w < f.inf()) by (nonlinear_arith)
            requires
                w == e * t + t,
                f.inf() == f.top as nat * t,
                e + 2 <= f.top,
                t > 0,
        ;
    } else {
        let len = bit_length(n);
        lemma_bit_length(n);
        if len > p {
            round::lemma_pow2_monotone(p, (len - 1) as nat);
        }
        let h = (p - len) as nat;
        let e: nat = if f.unit >= h { (f.unit - h) as nat } else { 0 };
        let s = (f.unit - e) as nat;
        let q = n * pow2(s);
        lemma_pow2_pos(s);
        lemma_pow2_adds(s, e);
        lemma_pow2_adds(len, s);
        lemma_pow2_adds((len - 1) as nat, s);
        assert(q < pow2(len + s)) by (nonlinear_arith)
            requires
                q == n * pow2(s),
                n < pow2(len),
                pow2(len + s) == pow2(len) * pow2(s),
                pow2(s) > 0,
        ;
        round::lemma_pow2_monotone(len + s, p);
        if e > 0 {
            assert(q >= t) by (nonlinear_arith)
                requires
                    q == n * pow2(s),
                    n >= pow2((len - 1) as nat),
                    t == pow2((len - 1) as nat) * pow2(s),
            ;
        }
        assert(q * pow2(e) == v) by (nonlinear_arith)
            requires
                q == n * pow2(s),
                u == pow2(s) * pow2(e),
                v == n * u,
        ;
        let w = e * t + q;
        lemma_units_of(e, q, p);
        lemma_nearest_exact(w, p);
        assert(w < f.inf()) by (nonlinear_arith)
            requires
                w == e * t + q,
                q < 2 * t,
                f.inf() == f.top as nat * t,
                e + 2 <= f.top,
        ;
    }
}

spec fn bit_length(n: nat) -> nat
    decreases n,
{
    if n == 0 {
        0
    } else {
        1 + bit_length(n / 2)
    }
}

proof fn lemma_bit_length(n: nat)
    ensures
        n < pow2(bit_length(n)),
        n > 0 ==> bit_length(n) >= 1 && pow2((bit_length(n) - 1) as nat) <= n,
    decreases n,
{
    lemma2_to64();
    if n > 0 {
        lemma_bit_length(n / 2);
        lemma_pow2_unfold(bit_length(n));
        if n / 2 > 0 {
            lemma_pow2_unfold(bit_length(n / 2));
        }
    }
}

/// An integer of up to 24 bits as a single: a number with that integer part.
pub proof fn lemma_single_from_int(n: int)
    requires
        0 <= n <= 0x100_0000,
    ensures
        Single::from_int(n).is_finite(),
        !Single::from_int(n).minus(),
        binary::whole(Single::from_int(n).mag(), single::layout()) == n,
        binary::value(Single::from_int(n).mag(), single::layout()) == n * pow2(149),
{
    reveal(Single::from_int);
    let f = single::layout();
    lemma2_to64();
    lemma_int_exact(n as nat, f);
    lemma_pow2_pos(149);
    assert(f.inf() == 0x7f80_0000);
    lemma_div_multiples_vanish(n, pow2(149) as int);
    assert(pow2(149) * n == n * pow2(149)) by (nonlinear_arith);
}

/// What is at most an integer of up to 24 bits has at most it as integer part.
pub proof fn lemma_single_int_bound(x: Single, n: int, lo: int, hi: int)
    requires
        0 <= n <= 0x100_0000,
        x.is_nan() || x.le(Single::from_int(n)),
        lo <= 0 <= hi,
    ensures
        lo <= x.to_int(lo, hi) <= hi,
        x.to_int(lo, hi) <= n,
{
    reveal(Single::to_int);
    lemma_single_from_int(n);
    let y = Single::from_int(n);
    if !x.is_nan() && !x.minus() {
        let f = single::layout();
        lemma_units_monotone(x.mag() as nat, y.mag() as nat, 24);
        lemma_pow2_pos(149);
        lemma_div_is_ordered(
            binary::value(x.mag(), f) as int,
            binary::value(y.mag(), f) as int,
            pow2(149) as int,
        );
    }
    assert(binary::whole(x.mag(), single::layout()) >= 0);
}

/// A count as a single: a number, and not below zero.
pub proof fn lemma_single_from_count(n: int)
    requires
        0 <= n <= u32::MAX,
    ensures
        !Single::from_int(n).is_nan(),
        !Single::from_int(n).minus(),
{
    reveal(Single::from_int);
    lemma2_to64();
}

/// What is at most a number has at most its integer part.
pub proof fn lemma_single_int_order(x: Single, y: Single, hi: int)
    requires
        !y.is_nan(),
        !y.minus(),
        x.is_nan() || x.le(y),
        0 <= hi,
    ensures
        x.to_int(0, hi) <= y.to_int(0, hi),
        0 <= x.to_int(0, hi),
{
    reveal(Single::to_int);
    if !x.is_nan() && !x.minus() && y.is_finite() {
        let f = single::layout();
        lemma_units_monotone(x.mag() as nat, y.mag() as nat, 24);
        lemma_pow2_pos(149);
        lemma_div_is_ordered(
            binary::value(x.mag(), f) as int,
            binary::value(y.mag(), f) as int,
            pow2(149) as int,
        );
    }
    assert(binary::whole(x.mag(), single::layout()) >= 0);
    assert(binary::whole(y.mag(), single::layout()) >= 0);
}

/// The word of one stands for one.
pub proof fn lemma_single_one()
    ensures
        single::of(single::ONE) == Single::from_int(1),
        binary::value(single::of(single::ONE).mag(), single::layout()) == pow2(149),
{
    lemma2_to64();
    lemma_units_of(126, pow2(23), 24);
    lemma_pow2_adds(23, 126);
    lemma_nearest_exact(0x3f80_0000, 24);
    assert(126 * pow2(23) + pow2(23) == 0x3f80_0000);
    assert(1 * pow2(149) == pow2(149));
    reveal(Single::from_int);
}

/// One less than a count of up to 24 bits is exact.
pub proof fn lemma_single_minus_one(n: int)
    requires
        1 <= n <= 0x100_0000,
    ensures
        Single::from_int(n) - single::of(single::ONE) == Single::from_int(n - 1),
{
    lemma_single_one();
    lemma_single_from_int(n);
    lemma_single_from_int(n - 1);
    reveal(Single::spec_add);
    reveal(Single::from_int);
    let x = Single::from_int(n);
    let y = single::of(single::ONE).negated();
    assert(y.minus() && y.mag() == single::ONE as u64);
    assert(n * pow2(149) - pow2(149) == (n - 1) * pow2(149)) by (nonlinear_arith);
    assert((n - 1) * pow2(149) >= 0) by (nonlinear_arith)
        requires
            n >= 1,
    ;
}

/// What is not below zero has no negative integer part.
pub proof fn lemma_single_int_nonneg(x: Single, lo: int, hi: int)
    requires
        x.is_nan() || single::of(0).le(x),
        lo <= 0 <= hi,
    ensures
        0 <= x.to_int(lo, hi) <= hi,
{
    reveal(Single::to_int);
    assert(binary::whole(x.mag(), single::layout()) >= 0);
    if !x.is_nan() && x.minus() {
        assert(x.mag() == 0);
        lemma2_to64();
        lemma_pow2_pos(149);
        assert(round::units(0, 24) == 0);
        assert(0nat / pow2(149) == 0) by {
            lemma_fundamental_div_mod_converse(0, pow2(149) as int, 0, 0);
        }
    }
}

/// One less than nothing is below nothing.
pub proof fn lemma_zero_minus_one()
    ensures
        ({
            let r = Single::from_int(0) - single::of(single::ONE);
            !r.is_nan() && r.key() <= 0
        }),
{
    lemma_single_one();
    lemma_single_from_int(0);
    reveal(Single::spec_add);
    let y = single::of(single::ONE).negated();
    assert(y.minus() && y.mag() == single::ONE as u64);
    lemma_pow2_pos(149);
    assert(0 * pow2(149) == 0);
    lemma2_to64();
}

proof fn lemma_half_even_monotone(n1: nat, n2: nat, d: nat)
    requires
        d > 0,
        n1 <= n2,
    ensures
        round::half_even(n1, d) <= round::half_even(n2, d),
{
    let (q1, r1) = (n1 / d, n1 % d);
    let (q2, r2) = (n2 / d, n2 % d);
    lemma_fundamental_div_mod(n1 as int, d as int);
    lemma_fundamental_div_mod(n2 as int, d as int);
    lemma_mod_bound(n1 as int, d as int);
    lemma_mod_bound(n2 as int, d as int);
    assert(q1 <= q2) by (nonlinear_arith)
        requires
            n1 == d * q1 + r1,
            n2 == d * q2 + r2,
            0 <= r1,
            r2 < d,
            n1 <= n2,
            d > 0,
    ;
    if q1 == q2 {
        assert(r1 <= r2);
    }
}

proof fn lemma_half_even_range(n: nat, d: nat, lo: nat, hi: nat)
    requires
        d > 0,
        lo * d <= n <= hi * d,
    ensures
        lo <= round::half_even(n, d) <= hi,
{
    lemma_fundamental_div_mod_converse((lo * d) as int, d as int, lo as int, 0);
    lemma_fundamental_div_mod_converse((hi * d) as int, d as int, hi as int, 0);
    lemma_half_even_monotone(lo * d, n, d);
    lemma_half_even_monotone(n, hi * d, d);
}

/// Rounding keeps order.
pub proof fn lemma_nearest_monotone(n1: nat, n2: nat, d: nat, p: nat)
    requires
        d > 0,
        p >= 1,
        n1 <= n2,
    ensures
        round::nearest(n1, d, p) <= round::nearest(n2, d, p),
{
    let e1 = round::binade(n1, d, p);
    let e2 = round::binade(n2, d, p);
    let t = pow2((p - 1) as nat);
    round::lemma_binade_bounds(n1, d, p);
    round::lemma_binade_bounds(n2, d, p);
    lemma_pow2_pos(e1);
    lemma_pow2_pos(e2);
    lemma_pow2_unfold(p);
    let (c1, c2) = (d * pow2(e1), d * pow2(e2));
    assert(c1 > 0 && c2 > 0) by (nonlinear_arith)
        requires
            c1 == d * pow2(e1),
            c2 == d * pow2(e2),
            d > 0,
            pow2(e1) > 0,
            pow2(e2) > 0,
    ;
    if e1 == e2 {
        lemma_half_even_monotone(n1, n2, c1);
    } else {
        assert(e1 < e2) by {
            if e1 > e2 {
                round::lemma_pow2_monotone(p + e2, (p + e1 - 1) as nat);
                assert(n2 < n1) by (nonlinear_arith)
                    requires
                        n2 < pow2(p + e2) * d,
                        pow2((p + e1 - 1) as nat) * d <= n1,
                        pow2(p + e2) <= pow2((p + e1 - 1) as nat),
                        d > 0,
                ;
            }
        }
        lemma_pow2_adds(p, e1);
        lemma_pow2_adds((p - 1) as nat, e2);
        assert(p - 1 + e2 == p + e2 - 1);
        assert(n1 <= pow2(p) * c1) by (nonlinear_arith)
            requires
                n1 < pow2(p + e1) * d,
                pow2(p + e1) == pow2(p) * pow2(e1),
                c1 == d * pow2(e1),
        ;
        assert(t * c2 <= n2) by (nonlinear_arith)
            requires
                pow2((p + e2 - 1) as nat) * d <= n2,
                pow2((p + e2 - 1) as nat) == t * pow2(e2),
                c2 == d * pow2(e2),
        ;
        assert(0 * c1 == 0);
        lemma_half_even_range(n1, c1, 0, pow2(p));
        let (q, r) = (n2 / c2, n2 % c2);
        let top = q + 1;
        lemma_fundamental_div_mod(n2 as int, c2 as int);
        lemma_mod_bound(n2 as int, c2 as int);
        assert(n2 <= top * c2) by (nonlinear_arith)
            requires
                n2 == c2 * q + r,
                r < c2,
                top == q + 1,
        ;
        lemma_half_even_range(n2, c2, t, top);
        assert(e1 * t + 2 * t <= e2 * t + t) by (nonlinear_arith)
            requires
                e1 + 1 <= e2,
                t >= 0,
        ;
    }
}

/// A share, between zero and one, of a count of up to 32 bits: rounded down or up, it is at most
/// the count.
pub proof fn lemma_double_share(share: Double, n: int, hi: int)
    requires
        share.le(double::of(double::ONE)),
        !share.minus(),
        0 <= n <= hi,
        n <= 0xffff_ffff,
    ensures
        ({
            let r = share * Double::from_int(n);
            &&& 0 <= r.floor().to_int(0, hi) <= n
            &&& 0 <= r.ceil().to_int(0, hi) <= n
        }),
{
    let f = double::layout();
    let y = Double::from_int(n);
    let r = share * y;
    let u = pow2(1074);
    let vs = binary::value(share.mag(), f);
    let vy = binary::value(y.mag(), f);
    lemma2_to64();
    lemma2_to64_rest();
    lemma_pow2_pos(1074);
    assert(pow2(53) == 0x20_0000_0000_0000);
    lemma_int_exact(n as nat, f);
    reveal(Double::from_int);
    reveal(Double::spec_mul);
    assert(f.inf() == 0x7ff0_0000_0000_0000);
    assert(vy == n * u);
    lemma_units_of(1022, pow2(52), 53);
    lemma_pow2_adds(52, 1022);
    assert(1022 * pow2(52) + pow2(52) == 0x3ff0_0000_0000_0000);
    lemma_units_monotone(share.mag() as nat, 0x3ff0_0000_0000_0000, 53);
    assert(vs <= u);
    assert(vs * vy <= u * vy) by (nonlinear_arith)
        requires
            vs <= u,
            vy >= 0,
    ;
    lemma_nearest_monotone(vs * vy, u * vy, u, 53);
    assert((u * vy) * 1 == vy * u) by (nonlinear_arith);
    round::lemma_nearest_same(u * vy, u, vy, 1, 53);
    lemma_nearest_exact(y.mag() as nat, 53);
    let w = round::nearest(vs * vy, u, 53);
    assert(w <= y.mag());
    assert(binary::product_word(share.mag(), y.mag(), f) == w);
    assert(r.mag() == w && !r.minus());
    let vr = binary::value(r.mag(), f);
    lemma_units_monotone(w, y.mag() as nat, 53);
    assert(vr <= n * u);
    let k = binary::whole(r.mag(), f);
    let b = binary::beyond(r.mag(), f);
    lemma_fundamental_div_mod(vr as int, u as int);
    lemma_mod_bound(vr as int, u as int);
    assert(k <= n && (b > 0 ==> k + 1 <= n)) by (nonlinear_arith)
        requires
            vr == u * k + b,
            vr <= n * u,
            0 <= b < u,
    ;
    lemma_int_exact(k, f);
    lemma_fundamental_div_mod_converse((k * u) as int, u as int, k as int, 0);
    if b > 0 {
        lemma_int_exact(k + 1, f);
        lemma_fundamental_div_mod_converse(((k + 1) * u) as int, u as int, (k + 1) as int, 0);
    }
    reveal(Double::integral_spec);
    reveal(Double::to_int);
}

/// A share, between zero and one, of a count of up to 24 bits, rounded to an integer, is at most the
/// count.
pub proof fn lemma_single_share(n: int, share: Single)
    requires
        share.le(single::of(single::ONE)),
        !share.minus(),
        0 <= n <= 0x100_0000,
    ensures
        ({
            let r = Single::from_int(n) * share;
            &&& !r.round().is_nan()
            &&& !r.round().minus()
            &&& r.round().le(Single::from_int(n))
        }),
{
    let f = single::layout();
    let y = Single::from_int(n);
    let r = y * share;
    let u = pow2(149);
    let vs = binary::value(share.mag(), f);
    let vy = binary::value(y.mag(), f);
    lemma2_to64();
    lemma2_to64_rest();
    lemma_pow2_pos(149);
    lemma_int_exact(n as nat, f);
    lemma_single_one();
    reveal(Single::from_int);
    reveal(Single::spec_mul);
    assert(f.inf() == 0x7f80_0000);
    assert(vy == n * u);
    lemma_units_monotone(share.mag() as nat, 0x3f80_0000, 24);
    assert(vs <= u);
    assert(vy * vs <= vy * u) by (nonlinear_arith)
        requires
            vs <= u,
            vy >= 0,
    ;
    lemma_nearest_monotone(vy * vs, vy * u, u, 24);
    round::lemma_nearest_same(vy * u, u, vy, 1, 24);
    lemma_nearest_exact(y.mag() as nat, 24);
    let w = round::nearest(vy * vs, u, 24);
    assert(w <= y.mag());
    assert(binary::product_word(y.mag(), share.mag(), f) == w);
    assert(r.mag() == w && !r.minus());
    let vr = binary::value(r.mag(), f);
    lemma_units_monotone(w, y.mag() as nat, 24);
    assert(vr <= n * u);
    let k = binary::whole(r.mag(), f);
    let b = binary::beyond(r.mag(), f);
    lemma_fundamental_div_mod(vr as int, u as int);
    lemma_mod_bound(vr as int, u as int);
    assert(k <= n && (b > 0 ==> k + 1 <= n)) by (nonlinear_arith)
        requires
            vr == u * k + b,
            vr <= n * u,
            0 <= b < u,
    ;
    lemma_int_exact(k, f);
    lemma_int_words_ordered(k, n as nat);
    if b > 0 {
        lemma_int_exact(k + 1, f);
        lemma_int_words_ordered(k + 1, n as nat);
    }
    reveal(Single::integral_spec);
}

proof fn lemma_int_words_ordered(a: nat, b: nat)
    requires
        a <= b <= 0x100_0000,
    ensures
        binary::int_word(a, single::layout()) <= binary::int_word(b, single::layout()),
{
    let f = single::layout();
    let u = pow2(149);
    lemma_pow2_pos(149);
    assert(a * u <= b * u) by (nonlinear_arith)
        requires
            a <= b,
            u > 0,
    ;
    lemma_nearest_monotone(a * u, b * u, 1, 24);
}

/// What is not a number stays so when it is multiplied and rounded.
pub proof fn lemma_nan_product(x: Single, y: Single)
    requires
        y.is_nan(),
    ensures
        (x * y).round().is_nan(),
{
    reveal(Single::spec_mul);
    reveal(Single::integral_spec);
}

/// A number times one is that number.
pub proof fn lemma_times_one(x: Single)
    requires
        !x.is_nan(),
    ensures
        x * single::of(single::ONE) == x,
{
    reveal(Single::spec_mul);
    let one = single::of(single::ONE);
    assert(!one.minus() && one.mag() == single::ONE as u64);
    if x.is_finite() {
        let f = single::layout();
        let u = pow2(149);
        let v = binary::value(x.mag(), f);
        lemma2_to64();
        lemma_pow2_pos(149);
        lemma_single_one();
        round::lemma_nearest_same(v * u, u, v, 1, 24);
        lemma_nearest_exact(x.mag() as nat, 24);
        assert(f.inf() == 0x7f80_0000);
        assert(binary::product_word(x.mag(), one.mag(), f) == x.mag());
    }
}

/// One by one is one.
pub proof fn lemma_one_by_one()
    ensures
        single::of(single::ONE) / single::of(single::ONE) == single::of(single::ONE),
{
    reveal(Single::spec_euclidean_or_real_div);
    let one = single::of(single::ONE);
    let f = single::layout();
    let u = pow2(149);
    assert(!one.minus() && one.mag() == single::ONE as u64);
    lemma2_to64();
    lemma_pow2_pos(149);
    lemma_single_one();
    round::lemma_nearest_same(u * u, u, u, 1, 24);
    lemma_nearest_exact(0x3f80_0000, 24);
    assert(binary::quotient_word(one.mag(), one.mag(), f) == one.mag());
}

/// Zero by a number above zero adds nothing to one.
pub proof fn lemma_one_and_nothing(x: Single)
    requires
        x.is_finite(),
        !x.minus(),
        x.mag() > 0,
    ensures
        single::of(single::ONE) + single::of(0) / x == single::of(single::ONE),
{
    reveal(Single::spec_euclidean_or_real_div);
    reveal(Single::spec_add);
    let one = single::of(single::ONE);
    let zero = single::of(0);
    let f = single::layout();
    let v = binary::value(x.mag(), f);
    assert(!one.minus() && one.mag() == single::ONE as u64);
    lemma2_to64();
    lemma_pow2_pos(149);
    lemma_pow2_pos(23);
    lemma_single_one();
    lemma_nearest_exact(0x3f80_0000, 24);
    lemma_nearest_exact(0, 24);
    assert(round::units(0, 24) == 0);
    lemma_units_monotone(1, x.mag() as nat, 24);
    assert(round::units(1, 24) == 1);
    assert(0 * pow2(149) == 0);
    round::lemma_nearest_same(0, v, 0, 1, 24);
    assert(binary::quotient_word(zero.mag(), x.mag(), f) == 0);
    assert(zero / x == zero);
}

/// What is not below zero is not so when it is rounded.
pub proof fn lemma_round_nonneg(x: Single)
    requires
        single::of(0).le(x),
    ensures
        single::of(0).le(x.round()),
{
    reveal(Single::integral_spec);
    let f = single::layout();
    lemma2_to64();
    lemma_pow2_pos(149);
    assert(f.inf() == 0x7f80_0000);
    if x.minus() {
        assert(round::units(0, 24) == 0);
        lemma_small_mod(0, pow2(149));
        assert(binary::beyond(x.mag(), f) == 0);
    }
}

/// What is at most an integer of up to 24 bits has at most it as integer part when it is rounded.
pub proof fn lemma_round_bound(x: Single, n: int, lo: int, hi: int)
    requires
        0 <= n <= 0x100_0000,
        x.le(Single::from_int(n)),
        lo <= 0 <= hi,
    ensures
        lo <= x.round().to_int(lo, hi) <= hi,
        x.round().to_int(lo, hi) <= n,
{
    let f = single::layout();
    let y = Single::from_int(n);
    let u = pow2(149);
    reveal(Single::integral_spec);
    lemma2_to64();
    lemma_pow2_pos(149);
    lemma_single_from_int(n);
    assert(f.inf() == 0x7f80_0000);
    if x.minus() {
        reveal(Single::to_int);
    } else {
        lemma_units_monotone(x.mag() as nat, y.mag() as nat, 24);
        let v = binary::value(x.mag(), f);
        let k = binary::whole(x.mag(), f);
        let b = binary::beyond(x.mag(), f);
        lemma_fundamental_div_mod(v as int, u as int);
        lemma_mod_bound(v as int, u as int);
        assert(k <= n && (b > 0 ==> k + 1 <= n)) by (nonlinear_arith)
            requires
                v == u * k + b,
                v <= n * u,
                0 <= b < u,
        ;
        reveal(Single::from_int);
        lemma_int_words_ordered(k, n as nat);
        if b > 0 {
            lemma_int_words_ordered(k + 1, n as nat);
        }
        assert(x.round().le(y));
        lemma_single_int_bound(x.round(), n, lo, hi);
    }
}

} // verus!
