//! Rounding of a non-negative rational to the nearest value of a binary format.
//!
//! A format has `p` significant bits. Its values are counted in units of the
//! smallest positive one, so that every finite value is a natural number of
//! units, and the magnitude word of a value (the word without its sign bit) is a
//! natural number too: words in increasing order are values in increasing order.

use vstd::arithmetic::div_mod::*;
use vstd::arithmetic::mul::*;
use vstd::arithmetic::power2::*;
use vstd::bits::*;
use vstd::prelude::*;

verus! {

/// `n / d` rounded to the nearest natural number, ties to the even one.
pub open spec fn half_even(n: nat, d: nat) -> nat {
    let q = n / d;
    let r = n % d;
    if 2 * r < d || (2 * r == d && q % 2 == 0) {
        q
    } else {
        q + 1
    }
}

/// The least `e` such that `n / d` is below `2^(p + e)`: the power of two by
/// which neighbouring values of the format differ around `n / d`.
pub open spec fn binade(n: nat, d: nat, p: nat) -> nat
    decreases n - d,
{
    if d == 0 || n < pow2(p) * d {
        0
    } else {
        proof {
            lemma_pow2_pos(p);
            assert(pow2(p) * d >= d) by (nonlinear_arith)
                requires
                    pow2(p) >= 1,
            ;
        }
        if n - 2 * d < 0 {
            1
        } else {
            1 + binade(n, 2 * d, p)
        }
    }
}

/// The magnitude word of the value of a format with `p` significant bits that is
/// nearest to `n / d` units, ties to the even word, with no bound on the exponent.
pub open spec fn nearest(n: nat, d: nat, p: nat) -> nat {
    let e = binade(n, d, p);
    e * pow2((p - 1) as nat) + half_even(n, d * pow2(e))
}

/// The number of units that the magnitude word `w` stands for.
pub open spec fn units(w: nat, p: nat) -> nat {
    let top = pow2((p - 1) as nat);
    if w < top {
        w
    } else {
        (w % top + top) * pow2((w / top - 1) as nat)
    }
}

/// `m * 2^k` as a fraction: its numerator.
pub open spec fn scaled_num(m: nat, k: int) -> nat {
    if k >= 0 {
        m * pow2(k as nat)
    } else {
        m
    }
}

/// `m * 2^k` as a fraction: its denominator.
pub open spec fn scaled_den(k: int) -> nat {
    if k >= 0 {
        1
    } else {
        pow2((-k) as nat)
    }
}

proof fn lemma_binade_at(n: nat, d: nat, p: nat, e: nat)
    requires
        d > 0,
        p >= 1,
        n < pow2(p + e) * d,
        e > 0 ==> pow2((p + e - 1) as nat) * d <= n,
    ensures
        binade(n, d, p) == e,
    decreases e,
{
    if e > 0 {
        lemma_pow2_pos(p);
        lemma_pow2_unfold(p);
        lemma_pow2_pos((p - 1) as nat);
        assert(pow2(p) >= 2);
        if e > 1 {
            lemma_pow2_strictly_increases(p, (p + e - 1) as nat);
        }
        assert(pow2(p) <= pow2((p + e - 1) as nat));
        assert(pow2(p) * d <= n) by (nonlinear_arith)
            requires
                pow2(p) <= pow2((p + e - 1) as nat),
                pow2((p + e - 1) as nat) * d <= n,
                d > 0,
        ;
        assert(2 * d <= n) by (nonlinear_arith)
            requires
                pow2(p) >= 2,
                pow2(p) * d <= n,
        ;
        lemma_pow2_unfold(p + e);
        assert(pow2(p + e) * d == pow2((p + (e - 1)) as nat) * (2 * d)) by (nonlinear_arith)
            requires
                pow2(p + e) == 2 * pow2((p + (e - 1)) as nat),
        ;
        if e > 1 {
            lemma_pow2_unfold((p + e - 1) as nat);
            assert(pow2((p + e - 1) as nat) * d == pow2((p + (e - 1) - 1) as nat) * (2 * d))
                by (nonlinear_arith)
                requires
                    pow2((p + e - 1) as nat) == 2 * pow2((p + (e - 1) - 1) as nat),
            ;
        }
        lemma_binade_at(n, 2 * d, p, (e - 1) as nat);
    }
}

/// With `e` the binade of `n / d`, the nearest word is `e` whole binades and the
/// quotient rounded.
pub proof fn lemma_nearest_at(n: nat, d: nat, p: nat, e: nat)
    requires
        d > 0,
        p >= 1,
        n < pow2(p + e) * d,
        e > 0 ==> pow2((p + e - 1) as nat) * d <= n,
    ensures
        nearest(n, d, p) == e * pow2((p - 1) as nat) + half_even(n, d * pow2(e)),
{
    lemma_binade_at(n, d, p, e);
}

/// A common factor of numerator and denominator does not change the rounding.
pub proof fn lemma_half_even_scale(n: nat, d: nat, c: nat)
    requires
        d > 0,
        c > 0,
    ensures
        half_even(n * c, d * c) == half_even(n, d),
{
    let q = n / d;
    let r = n % d;
    lemma_fundamental_div_mod(n as int, d as int);
    assert(n * c == (d * c) * q + r * c) by (nonlinear_arith)
        requires
            n == d * q + r,
    ;
    assert(0 <= r * c < d * c) by (nonlinear_arith)
        requires
            0 <= r < d,
            c > 0,
    ;
    assert(d * c > 0) by (nonlinear_arith)
        requires
            d > 0,
            c > 0,
    ;
    assert((d * c) * q == q * (d * c)) by (nonlinear_arith);
    lemma_fundamental_div_mod_converse((n * c) as int, (d * c) as int, q as int, (r * c) as int);
    assert(2 * (r * c) < d * c <==> 2 * r < d) by (nonlinear_arith)
        requires
            c > 0,
    ;
    assert(2 * (r * c) == d * c <==> 2 * r == d) by (nonlinear_arith)
        requires
            c > 0,
    ;
}

/// The bit length of a word: the least `n` with `m < 2^n`.
pub fn bit_len(m: u64) -> (n: u32)
    ensures
        n <= 64,
        m < pow2(n as nat),
        m > 0 ==> n >= 1 && pow2((n - 1) as nat) <= m,
{
    let lz: u32 = m.leading_zeros();
    proof {
        vstd::std_specs::bits::axiom_u64_leading_zeros(m);
        lemma2_to64();
        lemma2_to64_rest();
        if m > 0 {
            let s = (63 - lz) as u64;
            lemma_u64_shr_is_div(m, s);
            let t = m >> s;
            assert(t & 1u64 != 0u64 ==> t >= 1) by (bit_vector);
            lemma_pow2_pos(s as nat);
            lemma_fundamental_div_mod(m as int, pow2(s as nat) as int);
            assert(pow2(s as nat) <= m) by (nonlinear_arith)
                requires
                    m == pow2(s as nat) * (m as int / pow2(s as nat) as int) + m as int % pow2(s as nat) as int,
                    m as int / pow2(s as nat) as int >= 1,
                    m as int % pow2(s as nat) as int >= 0,
                    pow2(s as nat) >= 1,
            ;
            if lz >= 1 {
                let u = (64 - lz) as u64;
                lemma_u64_shr_is_div(m, u);
                lemma_pow2_pos(u as nat);
                lemma_fundamental_div_mod(m as int, pow2(u as nat) as int);
                lemma_mod_bound(m as int, pow2(u as nat) as int);
            } else {
                assert(pow2(64) == 0x1_0000_0000_0000_0000);
            }
        }
    }
    64 - lz
}

/// The bit length of a double-width word.
pub fn bit_len_wide(m: u128) -> (n: u32)
    ensures
        n <= 128,
        m < pow2(n as nat),
        m > 0 ==> n >= 1 && pow2((n - 1) as nat) <= m,
{
    let hi128: u128 = m >> 64u128;
    proof {
        lemma_u128_shr_is_div(m, 64);
        lemma2_to64();
        lemma2_to64_rest();
    }
    assert(hi128 <= u64::MAX);
    if hi128 == 0 {
        bit_len(m as u64)
    } else {
        let n: u32 = bit_len(hi128 as u64);
        proof {
            let c = pow2(64) as int;
            lemma_fundamental_div_mod(m as int, c);
            lemma_mod_bound(m as int, c);
            lemma_pow2_adds(n as nat, 64);
            lemma_pow2_adds((n - 1) as nat, 64);
            assert(m < pow2(n as nat) * pow2(64)) by (nonlinear_arith)
                requires
                    m == c * hi128 + m as int % c,
                    m as int % c < c,
                    hi128 + 1 <= pow2(n as nat),
                    c == pow2(64),
                    c > 0,
            ;
            assert(pow2((n - 1) as nat) * pow2(64) <= m) by (nonlinear_arith)
                requires
                    m == c * hi128 + m as int % c,
                    m as int % c >= 0,
                    hi128 >= pow2((n - 1) as nat),
                    c == pow2(64),
                    c > 0,
            ;
        }
        n + 64
    }
}

/// A left shift that loses no bits multiplies.
pub proof fn lemma_wide_shl(x: u128, s: u128)
    requires
        s < 128,
        x * pow2(s as nat) <= u128::MAX,
    ensures
        x << s == x * pow2(s as nat),
    decreases s,
{
    if s == 0 {
        lemma2_to64();
        assert(x << 0u128 == x) by (bit_vector);
    } else {
        let t = (s - 1) as u128;
        lemma_pow2_unfold(s as nat);
        assert(x * pow2(s as nat) == 2 * (x * pow2(t as nat))) by (nonlinear_arith)
            requires
                pow2(s as nat) == 2 * pow2(t as nat),
        ;
        lemma_wide_shl(x, t);
        let y = x << t;
        assert(x << s == (x << t) << 1u128) by (bit_vector)
            requires
                s < 128,
                s >= 1,
                t == s - 1,
        ;
        assert(y << 1u128 == 2 * y) by (bit_vector)
            requires
                y < 0x8000_0000_0000_0000_0000_0000_0000_0000u128,
        ;
    }
}

/// `nearest` of `m * 2^k` when the bit length of `m` is `len`.
pub proof fn lemma_nearest_scaled(m: nat, k: int, p: nat, len: nat, e: nat)
    requires
        p >= 1,
        m < pow2(len),
        m > 0 ==> len >= 1 && pow2((len - 1) as nat) <= m,
        m == 0 ==> len == 0,
        e == (if len + k - p > 0 {
            (len + k - p) as nat
        } else {
            0
        }),
        m == 0 ==> k <= 0,
    ensures
        nearest(scaled_num(m, k), scaled_den(k), p) == e * pow2((p - 1) as nat) + (if e >= k {
            half_even(m, pow2((e - k) as nat))
        } else {
            m * pow2((k - e) as nat)
        }),
{
    let n = scaled_num(m, k);
    let d = scaled_den(k);
    if k >= 0 {
        lemma_pow2_pos(k as nat);
        lemma_pow2_adds(len, k as nat);
        assert(n < pow2(len) * pow2(k as nat)) by (nonlinear_arith)
            requires
                m < pow2(len),
                n == m * pow2(k as nat),
                pow2(k as nat) > 0,
        ;
        lemma_pow2_monotone((len + k) as nat, p + e);
        if e > 0 && m > 0 {
            lemma_pow2_adds((len - 1) as nat, k as nat);
            assert(pow2((len - 1) as nat) * pow2(k as nat) <= n) by (nonlinear_arith)
                requires
                    pow2((len - 1) as nat) <= m,
                    n == m * pow2(k as nat),
            ;
            assert(p + e - 1 == len - 1 + k);
        }
        lemma_nearest_at(n, d, p, e);
        if e >= k {
            let s = (e - k) as nat;
            lemma_pow2_pos(s);
            lemma_pow2_adds(s, k as nat);
            lemma_half_even_scale(m, pow2(s), pow2(k as nat));
        } else {
            let s = (k - e) as nat;
            lemma_pow2_adds(s, e);
            lemma_pow2_pos(e);
            assert(n == (m * pow2(s)) * pow2(e)) by (nonlinear_arith)
                requires
                    n == m * pow2(k as nat),
                    pow2(k as nat) == pow2(s) * pow2(e),
            ;
            lemma_half_even_scale(m * pow2(s), 1, pow2(e));
            assert(1 * pow2(e) == pow2(e));
            assert(half_even(m * pow2(s), 1) == m * pow2(s));
        }
    } else {
        let b = (-k) as nat;
        lemma_pow2_pos(b);
        lemma_pow2_adds(p + e, b);
        lemma_pow2_monotone(len, p + e + b);
        if e > 0 && m > 0 {
            lemma_pow2_adds((p + e - 1) as nat, b);
            assert(p + e - 1 + b == len - 1);
        }
        lemma_nearest_at(n, d, p, e);
        lemma_pow2_adds(b, e);
    }
}

/// Powers of two grow with the exponent.
pub proof fn lemma_pow2_monotone(a: nat, b: nat)
    requires
        a <= b,
    ensures
        pow2(a) <= pow2(b),
{
    if a < b {
        lemma_pow2_strictly_increases(a, b);
    }
}

/// `n / d` rounded to the nearest magnitude word of a format with `p` significant
/// bits whose infinity is the word `top * 2^(p - 1)`.
pub open spec fn rounded(n: nat, d: nat, p: nat, top: nat) -> nat {
    let w = nearest(n, d, p);
    let inf = top * pow2((p - 1) as nat);
    if w < inf {
        w
    } else {
        inf
    }
}

/// `n / d` lies in its binade.
pub proof fn lemma_binade_bounds(n: nat, d: nat, p: nat)
    requires
        d > 0,
        p >= 1,
    ensures
        n < pow2(p + binade(n, d, p)) * d,
        binade(n, d, p) > 0 ==> pow2((p + binade(n, d, p) - 1) as nat) * d <= n,
    decreases n - d,
{
    if n >= pow2(p) * d {
        lemma_pow2_pos((p - 1) as nat);
        lemma_pow2_unfold(p);
        assert(n >= 2 * d) by (nonlinear_arith)
            requires
                pow2(p) >= 2,
                n >= pow2(p) * d,
        ;
        lemma_binade_bounds(n, 2 * d, p);
        let e = binade(n, 2 * d, p);
        lemma_pow2_unfold(p + e + 1);
        assert(pow2(p + e) * (2 * d) == pow2(p + e + 1) * d) by (nonlinear_arith)
            requires
                pow2(p + e + 1) == 2 * pow2(p + e),
        ;
        if e > 0 {
            lemma_pow2_unfold(p + e);
            assert(pow2((p + e - 1) as nat) * (2 * d) == pow2(p + e) * d) by (nonlinear_arith)
                requires
                    pow2(p + e) == 2 * pow2((p + e - 1) as nat),
            ;
        }
    }
}

/// Equal fractions round to the same word.
pub proof fn lemma_nearest_same(n1: nat, d1: nat, n2: nat, d2: nat, p: nat)
    requires
        d1 > 0,
        d2 > 0,
        p >= 1,
        n1 * d2 == n2 * d1,
    ensures
        nearest(n1, d1, p) == nearest(n2, d2, p),
{
    let e = binade(n1, d1, p);
    lemma_binade_bounds(n1, d1, p);
    let c = pow2(p + e);
    assert(n2 < c * d2) by (nonlinear_arith)
        requires
            n1 < c * d1,
            n1 * d2 == n2 * d1,
            d1 > 0,
            d2 > 0,
    {
        assert(n1 * d2 < (c * d1) * d2);
        assert((c * d1) * d2 == (c * d2) * d1);
        assert(n2 * d1 < (c * d2) * d1);
    }
    if e > 0 {
        let c = pow2((p + e - 1) as nat);
        assert(c * d2 <= n2) by (nonlinear_arith)
            requires
                c * d1 <= n1,
                n1 * d2 == n2 * d1,
                d1 > 0,
                d2 > 0,
        {
            assert((c * d1) * d2 <= n1 * d2);
            assert((c * d1) * d2 == (c * d2) * d1);
            assert((c * d2) * d1 <= n2 * d1);
        }
    }
    lemma_nearest_at(n2, d2, p, e);
    lemma_pow2_pos(e);
    let t = pow2(e);
    assert(d1 * t > 0 && d2 * t > 0) by (nonlinear_arith)
        requires
            d1 > 0,
            d2 > 0,
            t > 0,
    ;
    lemma_half_even_scale(n1, d1 * t, d2);
    lemma_half_even_scale(n2, d2 * t, d1);
    assert((d1 * t) * d2 == (d2 * t) * d1) by (nonlinear_arith);
}

/// A value far below the last kept bit of `m * 2^e` does not change the rounding.
pub proof fn lemma_nearest_absorb(m: nat, e: nat, delta: nat, p: nat)
    requires
        p >= 2,
        e >= 1,
        pow2((p - 1) as nat) <= m < pow2(p),
        4 * delta < pow2(e),
    ensures
        m * pow2(e) >= delta,
        nearest(m * pow2(e) + delta, 1, p) == e * pow2((p - 1) as nat) + m,
        nearest((m * pow2(e) - delta) as nat, 1, p) == e * pow2((p - 1) as nat) + m,
{
    let t = pow2(e);
    let c = pow2((p - 1) as nat);
    lemma_pow2_pos(e);
    lemma_pow2_pos((p - 1) as nat);
    lemma_pow2_unfold(p);
    lemma_pow2_adds(p, e);
    lemma_pow2_adds((p - 1) as nat, e);
    let n = m * t + delta;
    assert(n < pow2(p) * t) by (nonlinear_arith)
        requires
            n == m * t + delta,
            m + 1 <= pow2(p),
            delta < t,
    ;
    assert(c * t <= m * t) by (nonlinear_arith)
        requires
            c <= m,
    ;
    assert(m * t >= t) by (nonlinear_arith)
        requires
            m >= 1,
    ;
    lemma_nearest_at(n, 1, p, e);
    assert(m * t == t * m) by (nonlinear_arith);
    lemma_fundamental_div_mod_converse(n as int, t as int, m as int, delta as int);
    let l = (m * t - delta) as nat;
    if delta == 0 {
    } else if m > c {
        assert(c * t <= l) by (nonlinear_arith)
            requires
                c + 1 <= m,
                l == m * t - delta,
                delta < t,
        ;
        lemma_nearest_at(l, 1, p, e);
        assert(l == t * (m - 1) + (t - delta)) by (nonlinear_arith)
            requires
                l == m * t - delta,
        ;
        assert(t * (m - 1) == (m - 1) * t) by (nonlinear_arith);
        lemma_fundamental_div_mod_converse(l as int, t as int, m - 1, t - delta);
    } else {
        let e1 = (e - 1) as nat;
        let h = pow2(e1);
        lemma_pow2_unfold(e);
        lemma_pow2_pos(e1);
        lemma_pow2_adds(p, e1);
        assert(m * t == pow2(p) * h) by (nonlinear_arith)
            requires
                t == 2 * h,
                pow2(p) == 2 * m,
        ;
        if e1 > 0 {
            lemma_pow2_adds((p - 1) as nat, e1);
            assert(c * h <= l) by (nonlinear_arith)
                requires
                    l == pow2(p) * h - delta,
                    pow2(p) == 2 * c,
                    delta < h,
                    c >= 1,
            ;
        }
        lemma_nearest_at(l, 1, p, e1);
        assert(l == h * (pow2(p) - 1) + (h - delta)) by (nonlinear_arith)
            requires
                l == pow2(p) * h - delta,
        ;
        assert(h * (pow2(p) - 1) == (pow2(p) - 1) * h) by (nonlinear_arith);
        lemma_fundamental_div_mod_converse(l as int, h as int, pow2(p) - 1, h - delta);
        assert(half_even(l, h) == pow2(p));
        assert(e1 * c + pow2(p) == e * c + m) by (nonlinear_arith)
            requires
                e1 == e - 1,
                pow2(p) == 2 * c,
                m == c,
        ;
    }
}

/// Rounding a quotient needs of its remainder only whether it is zero.
proof fn lemma_half_even_sticky(n: nat, d: nat, s: nat)
    requires
        d > 0,
        s >= 1,
    ensures
        half_even(n, d * pow2(s)) == half_even(
            2 * (n / d) + (if n % d == 0 { 0nat } else { 1nat }),
            pow2(s + 1),
        ),
{
    let q = n / d;
    let r = n % d;
    let st: nat = if r == 0 { 0nat } else { 1nat };
    let m = 2 * q + st;
    let t = pow2(s);
    let h = pow2((s - 1) as nat);
    lemma_pow2_pos(s);
    lemma_pow2_pos((s - 1) as nat);
    lemma_pow2_unfold(s);
    lemma_pow2_unfold(s + 1);
    lemma_fundamental_div_mod(n as int, d as int);
    lemma_mod_bound(n as int, d as int);
    let hi = q / t;
    let u = q % t;
    lemma_fundamental_div_mod(q as int, t as int);
    lemma_mod_bound(q as int, t as int);
    let dt = d * t;
    assert(dt > 0) by (nonlinear_arith)
        requires
            d > 0,
            t > 0,
            dt == d * t,
    ;
    let rn = d * u + r;
    assert(n == hi * dt + rn) by (nonlinear_arith)
        requires
            n == d * q + r,
            q == t * hi + u,
            dt == d * t,
            rn == d * u + r,
    ;
    assert(rn < dt) by (nonlinear_arith)
        requires
            rn == d * u + r,
            r < d,
            u + 1 <= t,
            dt == d * t,
    ;
    lemma_fundamental_div_mod_converse(n as int, dt as int, hi as int, rn as int);
    let rm = 2 * u + st;
    assert(m == hi * (2 * t) + rm) by (nonlinear_arith)
        requires
            m == 2 * q + st,
            q == t * hi + u,
            rm == 2 * u + st,
    ;
    assert(rm < 2 * t);
    lemma_fundamental_div_mod_converse(m as int, (2 * t) as int, hi as int, rm as int);
    let dh = d * h;
    assert(dt == 2 * dh) by (nonlinear_arith)
        requires
            dt == d * t,
            t == 2 * h,
            dh == d * h,
    ;
    if u < h {
        assert(rn < dh) by (nonlinear_arith)
            requires
                rn == d * u + r,
                r < d,
                u + 1 <= h,
                dh == d * h,
        ;
    } else if u > h {
        assert(rn > dh) by (nonlinear_arith)
            requires
                rn == d * u + r,
                u >= h + 1,
                dh == d * h,
                d > 0,
                r >= 0,
        ;
    } else {
        assert(rn == dh + r);
    }
}

/// A quotient with enough bits, doubled, with its lowest bit set where there is a
/// remainder, rounds as the exact quotient does.
pub proof fn lemma_nearest_sticky(n: nat, d: nat, k: int, p: nat)
    requires
        d > 0,
        p >= 1,
        n / d >= pow2(p + 2),
    ensures
        ({
            let m = 2 * (n / d) + (if n % d == 0 { 0nat } else { 1nat });
            nearest(n * scaled_num(1, k), d * scaled_den(k), p) == nearest(
                scaled_num(m, k - 1),
                scaled_den(k - 1),
                p,
            )
        }),
{
    let q = n / d;
    let r = n % d;
    let m = 2 * q + (if r == 0 { 0nat } else { 1nat });
    lemma_pow2_pos(p + 2);
    lemma_fundamental_div_mod(n as int, d as int);
    lemma_mod_bound(n as int, d as int);
    let len = lemma_bit_len(m);
    let e: nat = if len + (k - 1) - p > 0 {
        (len + (k - 1) - p) as nat
    } else {
        0
    };
    lemma_nearest_scaled(m, k - 1, p, len, e);
    lemma_pow2_unfold(p + 3);
    if len < p + 4 {
        lemma_pow2_monotone(len, p + 3);
        assert(false);
    }
    let s = (e - k) as nat;
    assert(e - k >= 3);
    lemma_half_even_sticky(n, d, s);
    let a: nat = if k >= 0 { k as nat } else { 0 };
    let b: nat = if k >= 0 { 0 } else { (-k) as nat };
    lemma2_to64();
    let ta = scaled_num(1, k);
    let tb = scaled_den(k);
    assert(ta == pow2(a)) by {
        if k >= 0 {
            assert(1 * pow2(a) == pow2(a));
        }
    }
    assert(tb == pow2(b));
    lemma_pow2_pos(a);
    lemma_pow2_pos(b);
    lemma_pow2_unfold(len);
    lemma_pow2_unfold((len - 1) as nat);
    let l1 = pow2((len - 1) as nat);
    let l2 = pow2((len - 2) as nat);
    assert(q < l1);
    assert(l2 <= q);
    assert(n < l1 * d) by (nonlinear_arith)
        requires
            n == d * q + r,
            r < d,
            q + 1 <= l1,
    ;
    assert(l2 * d <= n) by (nonlinear_arith)
        requires
            n == d * q + r,
            r >= 0,
            q >= l2,
            d > 0,
    ;
    lemma_pow2_adds((len - 1) as nat, a);
    lemma_pow2_adds(p + e, b);
    lemma_pow2_monotone((len - 1 + a) as nat, p + e + b);
    let lhs = n * ta;
    let den = d * tb;
    let c = pow2(p + e);
    assert(lhs < c * den) by (nonlinear_arith)
        requires
            lhs == n * ta,
            n < l1 * d,
            l1 * ta <= c * tb,
            den == d * tb,
            ta > 0,
            d > 0,
    {
        assert(n * ta < (l1 * d) * ta);
        assert((l1 * d) * ta == (l1 * ta) * d);
        assert((l1 * ta) * d <= (c * tb) * d);
        assert((c * tb) * d == c * den);
    }
    if e > 0 {
        let c = pow2((p + e - 1) as nat);
        lemma_pow2_adds((p + e - 1) as nat, b);
        lemma_pow2_adds((len - 2) as nat, a);
        assert(p + e - 1 + b == len - 2 + a);
        assert(c * den <= lhs) by (nonlinear_arith)
            requires
                lhs == n * ta,
                l2 * d <= n,
                l2 * ta == c * tb,
                den == d * tb,
                ta > 0,
        {
            assert((l2 * d) * ta <= n * ta);
            assert((l2 * d) * ta == (l2 * ta) * d);
            assert((c * tb) * d == c * den);
        }
    }
    assert(den > 0) by (nonlinear_arith)
        requires
            den == d * tb,
            d > 0,
            tb > 0,
    ;
    lemma_nearest_at(lhs, den, p, e);
    lemma_pow2_pos(s);
    lemma_pow2_adds(b, e);
    lemma_pow2_adds(s, a);
    assert(b + e == s + a);
    assert(den * pow2(e) == (d * pow2(s)) * ta) by (nonlinear_arith)
        requires
            den == d * tb,
            tb * pow2(e) == pow2(s) * ta,
    ;
    assert(d * pow2(s) > 0) by (nonlinear_arith)
        requires
            d > 0,
            pow2(s) > 0,
    ;
    lemma_half_even_scale(n, d * pow2(s), ta);
    assert(e - (k - 1) == s + 1);
}

proof fn lemma_bit_len(m: nat) -> (len: nat)
    ensures
        m < pow2(len),
        m > 0 ==> len >= 1 && pow2((len - 1) as nat) <= m,
        m == 0 ==> len == 0,
    decreases m,
{
    lemma2_to64();
    if m == 0 {
        0
    } else {
        let h = lemma_bit_len(m / 2);
        lemma_pow2_unfold(h + 1);
        if h > 0 {
            lemma_pow2_unfold(h);
        }
        h + 1
    }
}

} // verus!
