//! Arithmetic on magnitude words, for any binary format up to 53 bits.

use crate::ieee::round;
use vstd::arithmetic::div_mod::*;
use vstd::arithmetic::mul::*;
use vstd::arithmetic::power2::*;
use vstd::bits::*;
use vstd::prelude::*;

verus! {

/// A binary format: `p` significant bits, infinity at exponent field `top`, and
/// `2^unit` smallest positive values to the number one.
#[derive(Clone, Copy, Debug, PartialEq, Eq, Structural)]
pub struct Format {
    pub p: u32,
    pub top: u32,
    pub unit: u32,
}

impl Format {
    pub open spec fn wf(self) -> bool {
        &&& 2 <= self.p <= 53
        &&& 2 <= self.top <= 2047
        &&& self.unit <= 1100
    }

    /// The magnitude word of infinity.
    pub open spec fn inf(self) -> nat {
        self.top as nat * pow2((self.p - 1) as nat)
    }
}

proof fn lemma_format_bounds(f: Format)
    requires
        f.wf(),
    ensures
        pow2((f.p - 1) as nat) >= 2,
        pow2((f.p - 1) as nat) <= 0x10_0000_0000_0000,
        pow2(f.p as nat) == 2 * pow2((f.p - 1) as nat),
        f.inf() < 0x8000_0000_0000_0000,
{
    lemma2_to64();
    lemma2_to64_rest();
    round::lemma_pow2_monotone((f.p - 1) as nat, 52);
    round::lemma_pow2_monotone(1, (f.p - 1) as nat);
    lemma_pow2_unfold(f.p as nat);
    assert(f.inf() <= 2047 * 0x10_0000_0000_0000) by (nonlinear_arith)
        requires
            f.inf() == f.top as nat * pow2((f.p - 1) as nat),
            f.top <= 2047,
            pow2((f.p - 1) as nat) <= 0x10_0000_0000_0000,
    ;
}

fn shifted(x: u64, s: u32) -> (r: u64)
    requires
        s < 64,
        x * pow2(s as nat) <= u64::MAX,
    ensures
        r == x * pow2(s as nat),
{
    proof {
        lemma_u64_shl_is_mul(x, s as u64);
    }
    x << (s as u64)
}

fn shifted_wide(x: u128, s: u32) -> (r: u128)
    requires
        s < 128,
        x * pow2(s as nat) <= u128::MAX,
    ensures
        r == x * pow2(s as nat),
{
    proof {
        round::lemma_wide_shl(x, s as u128);
    }
    x << (s as u128)
}

/// `m / 2^s` rounded to the nearest integer, ties to even.
fn shift_half_even(m: u128, s: u32) -> (q: u128)
    requires
        1 <= s <= 127,
    ensures
        q == round::half_even(m as nat, pow2(s as nat)),
{
    let hi: u128 = m >> (s as u128);
    proof {
        lemma_u128_shr_is_div(m, s as u128);
        lemma_pow2_pos(s as nat);
        lemma_fundamental_div_mod(m as int, pow2(s as nat) as int);
        lemma_mod_bound(m as int, pow2(s as nat) as int);
        assert(hi * pow2(s as nat) == pow2(s as nat) * hi) by (nonlinear_arith);
        lemma_pow2_unfold(s as nat);
        lemma2_to64();
        lemma2_to64_rest();
        lemma_pow2_adds(63, 64);
        round::lemma_pow2_monotone((s - 1) as nat, 126);
        round::lemma_pow2_monotone(126, 127);
        assert(pow2(63) * pow2(64) < u128::MAX) by (nonlinear_arith)
            requires
                pow2(63) == 0x8000_0000_0000_0000,
                pow2(64) == 0x1_0000_0000_0000_0000,
        ;
        assert(1 * pow2((s - 1) as nat) == pow2((s - 1) as nat));
    }
    let low: u128 = m - shifted_wide(hi, s);
    let half: u128 = shifted_wide(1, s - 1);
    proof {
        assert(hi < u128::MAX) by (nonlinear_arith)
            requires
                m == pow2(s as nat) * hi + low,
                pow2(s as nat) >= 2,
                m <= u128::MAX,
                hi >= 0,
                low >= 0,
        ;
        lemma_pow2_pos((s - 1) as nat);
    }
    if low < half || (low == half && hi % 2 == 0) {
        hi
    } else {
        hi + 1
    }
}

/// The word nearest to `m * 2^k` units.
pub fn round_scaled(m: u128, k: i32, f: Format) -> (w: u64)
    requires
        f.wf(),
        -8000 <= k <= 8000,
        m < 0x8000_0000_0000_0000_0000_0000_0000_0000,
    ensures
        w == round::rounded(round::scaled_num(m as nat, k as int), round::scaled_den(k as int), f.p as nat, f.top as nat),
        w <= f.inf(),
{
    let ghost p = f.p as nat;
    let ghost c = pow2((f.p - 1) as nat);
    proof {
        lemma_format_bounds(f);
        if m == 0 {
            lemma_pow2_pos((-k) as nat);
            assert(0 * pow2(k as nat) == 0);
            let d = round::scaled_den(k as int);
            lemma_pow2_pos(p);
            assert(pow2(p) * d > 0) by (nonlinear_arith)
                requires
                    pow2(p) > 0,
                    d > 0,
            ;
            lemma2_to64();
            round::lemma_nearest_at(0, d, p, 0);
            assert(d * 1 == d);
            assert(0nat / d == 0 && 0nat % d == 0) by {
                lemma_fundamental_div_mod_converse(0, d as int, 0, 0);
            }
        }
    }
    if m == 0 {
        return 0;
    }
    let len: u32 = round::bit_len_wide(m);
    proof {
        lemma2_to64();
        lemma2_to64_rest();
        lemma_pow2_adds(63, 64);
        assert(pow2(63) * pow2(64) == 0x8000_0000_0000_0000_0000_0000_0000_0000) by (nonlinear_arith)
            requires
                pow2(63) == 0x8000_0000_0000_0000,
                pow2(64) == 0x1_0000_0000_0000_0000,
        ;
        if len > 127 {
            round::lemma_pow2_monotone(127, (len - 1) as nat);
        }
    }
    let inf: u64 = shifted(f.top as u64, f.p - 1);
    let room: i32 = len as i32 + k - f.p as i32;
    let e: i32 = if room > 0 { room } else { 0 };
    proof {
        round::lemma_nearest_scaled(m as nat, k as int, p, len as nat, e as nat);
        assert(e as nat * c >= 0) by (nonlinear_arith);
        if e >= f.top {
            assert(e as nat * c >= f.top as nat * c) by (nonlinear_arith)
                requires
                    e >= f.top,
            ;
        } else {
            assert(e as nat * c <= (f.top - 1) * c) by (nonlinear_arith)
                requires
                    0 <= e <= f.top - 1,
            ;
            assert((f.top - 1) * c == f.top * c - c) by (nonlinear_arith);
        }
    }
    if e >= f.top as i32 {
        return inf;
    }
    let s: i32 = e - k;
    let q: u64 = if s <= 0 {
        proof {
            lemma_pow2_adds(len as nat, (-s) as nat);
            round::lemma_pow2_monotone((len - s) as nat, p);
            lemma_pow2_pos((-s) as nat);
            assert(m * pow2((-s) as nat) < pow2(p)) by (nonlinear_arith)
                requires
                    m < pow2(len as nat),
                    pow2(len as nat) * pow2((-s) as nat) <= pow2(p),
                    pow2((-s) as nat) > 0,
            ;
            if s == 0 {
                assert(m * pow2(0) == m);
                lemma_fundamental_div_mod_converse(m as int, 1, m as int, 0);
                assert(pow2(0) == 1);
                assert(round::half_even(m as nat, 1) == m);
            }
        }
        shifted_wide(m, (-s) as u32) as u64
    } else if s > len as i32 {
        proof {
            lemma_pow2_unfold(s as nat);
            round::lemma_pow2_monotone(len as nat, (s - 1) as nat);
            lemma_fundamental_div_mod_converse(m as int, pow2(s as nat) as int, 0, m as int);
        }
        0
    } else {
        let q128: u128 = shift_half_even(m, s as u32);
        proof {
            lemma_pow2_pos(s as nat);
            lemma_fundamental_div_mod(m as int, pow2(s as nat) as int);
            lemma_mod_bound(m as int, pow2(s as nat) as int);
            lemma_pow2_adds(p, s as nat);
            round::lemma_pow2_monotone(len as nat, (p + s) as nat);
            let hi = m as int / pow2(s as nat) as int;
            assert(hi < pow2(p)) by (nonlinear_arith)
                requires
                    m < pow2(p) * pow2(s as nat),
                    m == pow2(s as nat) * hi + m as int % pow2(s as nat) as int,
                    m as int % pow2(s as nat) as int >= 0,
                    pow2(s as nat) > 0,
            ;
        }
        q128 as u64
    };
    let w: u64 = shifted(e as u64, f.p - 1) + q;
    if w < inf {
        w
    } else {
        inf
    }
}

/// The value of a magnitude word, in units.
pub open spec fn value(w: u64, f: Format) -> nat {
    round::units(w as nat, f.p as nat)
}

/// The value of a word with a sign, in units.
pub open spec fn signed(neg: bool, w: u64, f: Format) -> int {
    if neg {
        -(value(w, f) as int)
    } else {
        value(w, f) as int
    }
}

pub open spec fn magnitude(t: int) -> nat {
    if t < 0 {
        (-t) as nat
    } else {
        t as nat
    }
}

/// The number of units in a word as a significand and an exponent.
fn unpack(w: u64, f: Format) -> (r: (u64, u32))
    requires
        f.wf(),
        w < f.inf(),
    ensures
        r.0 * pow2(r.1 as nat) == value(w, f),
        r.0 < pow2(f.p as nat),
        r.1 > 0 ==> r.0 >= pow2((f.p - 1) as nat),
        r.1 * pow2((f.p - 1) as nat) + r.0 == w,
        r.1 < f.top,
{
    let ghost c = pow2((f.p - 1) as nat);
    proof {
        lemma_format_bounds(f);
        lemma_u64_shr_is_div(w, (f.p - 1) as u64);
        lemma_fundamental_div_mod(w as int, c as int);
        lemma_mod_bound(w as int, c as int);
        lemma2_to64();
    }
    let field: u64 = w >> ((f.p - 1) as u64);
    proof {
        assert(field < f.top) by (nonlinear_arith)
            requires
                w < f.top * c,
                w == c * field + w as int % c as int,
                w as int % c as int >= 0,
                c > 0,
        ;
        assert(c * field == field * c) by (nonlinear_arith);
    }
    if field == 0 {
        proof {
            assert(w * pow2(0) == w);
            assert(0 * c == 0);
        }
        (w, 0)
    } else {
        proof {
            assert(field * c >= c) by (nonlinear_arith)
                requires
                    field >= 1,
            ;
            assert(1 * c == c);
        }
        let base: u64 = shifted(field, f.p - 1);
        let frac: u64 = w - base;
        let hidden: u64 = shifted(1, f.p - 1);
        proof {
            assert((field - 1) * c + (frac + c) == w) by (nonlinear_arith)
                requires
                    field * c + frac == w,
            ;
        }
        (frac + hidden, (field - 1) as u32)
    }
}

/// The magnitude of a sum of two finite words.
pub open spec fn sum_word(na: bool, a: u64, nb: bool, b: u64, f: Format) -> nat {
    round::rounded(magnitude(signed(na, a, f) + signed(nb, b, f)), 1, f.p as nat, f.top as nat)
}

/// The sign of a sum of two finite words: an exact zero is positive unless both
/// operands are negative.
pub open spec fn sum_neg(na: bool, a: u64, nb: bool, b: u64, f: Format) -> bool {
    let t = signed(na, a, f) + signed(nb, b, f);
    t < 0 || (t == 0 && na && nb)
}

fn sum_ordered(na: bool, a: u64, nb: bool, b: u64, f: Format) -> (r: (bool, u64))
    requires
        f.wf(),
        b <= a < f.inf(),
    ensures
        r.0 == sum_neg(na, a, nb, b, f),
        r.1 == sum_word(na, a, nb, b, f),
        r.1 <= f.inf(),
{
    let (ma, ea) = unpack(a, f);
    let (mb, eb) = unpack(b, f);
    let ghost c = pow2((f.p - 1) as nat);
    let ghost p = f.p as nat;
    proof {
        lemma_format_bounds(f);
        lemma2_to64();
        lemma2_to64_rest();
        if ea < eb {
            assert(b > a) by (nonlinear_arith)
                requires
                    ea + 1 <= eb,
                    ea * c + ma == a,
                    eb * c + mb == b,
                    ma < 2 * c,
                    mb >= c,
            ;
        }
    }
    let gap: u32 = ea - eb;
    if gap > 64 {
        proof {
            let delta = (mb * pow2(eb as nat)) as nat;
            lemma_pow2_adds(p, eb as nat);
            lemma_pow2_adds(2, (p + eb) as nat);
            lemma_pow2_pos(eb as nat);
            assert(delta < pow2((p + eb) as nat)) by (nonlinear_arith)
                requires
                    delta == mb * pow2(eb as nat),
                    mb < pow2(p),
                    pow2(eb as nat) > 0,
                    pow2((p + eb) as nat) == pow2(p) * pow2(eb as nat),
            ;
            assert(pow2((2 + (p + eb)) as nat) == 4 * pow2((p + eb) as nat));
            round::lemma_pow2_monotone((2 + (p + eb)) as nat, ea as nat);
            round::lemma_nearest_absorb(ma as nat, ea as nat, delta, p);
            lemma_pow2_pos(ea as nat);
            assert(ma * pow2(ea as nat) >= pow2(ea as nat)) by (nonlinear_arith)
                requires
                    ma >= 1,
            ;
        }
        return (na, a);
    }
    proof {
        lemma_pow2_pos(gap as nat);
        round::lemma_pow2_monotone(gap as nat, 64);
        assert(ma * pow2(gap as nat) < 0x40_0000_0000_0000 * 0x1_0000_0000_0000_0000) by (nonlinear_arith)
            requires
                ma < 0x40_0000_0000_0000,
                pow2(gap as nat) <= 0x1_0000_0000_0000_0000,
                pow2(gap as nat) > 0,
        ;
        assert(0x40_0000_0000_0000 * 0x1_0000_0000_0000_0000 == 0x40_0000_0000_0000_0000_0000_0000_0000);
        lemma_pow2_adds(gap as nat, eb as nat);
        lemma_pow2_pos(eb as nat);
    }
    let wide: u128 = shifted_wide(ma as u128, gap);
    let ghost t = pow2(eb as nat);
    proof {
        assert(wide * t == ma * pow2(ea as nat)) by (nonlinear_arith)
            requires
                wide == ma * pow2(gap as nat),
                pow2(ea as nat) == pow2(gap as nat) * t,
        ;
        assert((wide + mb) * t == wide * t + mb * t) by (nonlinear_arith);
        assert(wide >= mb) by {
            if gap > 0 {
                lemma_pow2_unfold(gap as nat);
                lemma_pow2_pos((gap - 1) as nat);
                assert(wide >= 2 * ma) by (nonlinear_arith)
                    requires
                        wide == ma * pow2(gap as nat),
                        pow2(gap as nat) >= 2,
                ;
            } else {
                assert(pow2(gap as nat) == 1);
                assert(ma * 1 == ma);
                assert(wide == ma);
            }
        }
        assert((wide - mb) * t == wide * t - mb * t) by (nonlinear_arith);
        assert((wide - mb) * t > 0 <==> wide > mb) by (nonlinear_arith)
            requires
                t > 0,
                wide >= mb,
        ;
        assert((wide + mb) * t > 0 <==> wide + mb > 0) by (nonlinear_arith)
            requires
                t > 0,
        ;
    }
    if na == nb {
        (na, round_scaled(wide + mb as u128, eb as i32, f))
    } else {
        let diff: u128 = wide - mb as u128;
        (na && diff > 0, round_scaled(diff, eb as i32, f))
    }
}

/// The sum of two finite words with signs.
pub fn sum(na: bool, a: u64, nb: bool, b: u64, f: Format) -> (r: (bool, u64))
    requires
        f.wf(),
        a < f.inf(),
        b < f.inf(),
    ensures
        r.0 == sum_neg(na, a, nb, b, f),
        r.1 == sum_word(na, a, nb, b, f),
        r.1 <= f.inf(),
{
    if b <= a {
        sum_ordered(na, a, nb, b, f)
    } else {
        sum_ordered(nb, b, na, a, f)
    }
}

/// The magnitude of a product of two finite words.
pub open spec fn product_word(a: u64, b: u64, f: Format) -> nat {
    round::rounded(value(a, f) * value(b, f), pow2(f.unit as nat), f.p as nat, f.top as nat)
}

/// The product of two finite magnitude words.
pub fn product(a: u64, b: u64, f: Format) -> (r: u64)
    requires
        f.wf(),
        a < f.inf(),
        b < f.inf(),
    ensures
        r == product_word(a, b, f),
        r <= f.inf(),
{
    let (ma, ea) = unpack(a, f);
    let (mb, eb) = unpack(b, f);
    proof {
        lemma_format_bounds(f);
    }
    assert(ma * mb < 0x40_0000_0000_0000 * 0x40_0000_0000_0000) by (nonlinear_arith)
        requires
            ma < 0x20_0000_0000_0001,
            mb < 0x20_0000_0000_0001,
    ;
    let m: u128 = ma as u128 * mb as u128;
    let k: i32 = ea as i32 + eb as i32 - f.unit as i32;
    proof {
        let x = pow2(ea as nat);
        let y = pow2(eb as nat);
        let u = pow2(f.unit as nat);
        lemma_pow2_pos(f.unit as nat);
        lemma_pow2_adds(ea as nat, eb as nat);
        assert(value(a, f) * value(b, f) == m * (x * y)) by (nonlinear_arith)
            requires
                value(a, f) == ma * x,
                value(b, f) == mb * y,
                m == ma * mb,
        ;
        if k >= 0 {
            lemma_pow2_adds(k as nat, f.unit as nat);
            assert((m * pow2(k as nat)) * u == m * (x * y)) by (nonlinear_arith)
                requires
                    pow2(k as nat) * u == x * y,
            ;
        } else {
            lemma_pow2_pos((-k) as nat);
            lemma_pow2_adds((-k) as nat, (ea + eb) as nat);
            assert(m * u == (m * (x * y)) * pow2((-k) as nat)) by (nonlinear_arith)
                requires
                    u == pow2((-k) as nat) * (x * y),
            ;
        }
        round::lemma_nearest_same(
            round::scaled_num(m as nat, k as int),
            round::scaled_den(k as int),
            value(a, f) * value(b, f),
            u,
            f.p as nat,
        );
    }
    round_scaled(m, k, f)
}

/// The magnitude of a quotient of two finite words.
pub open spec fn quotient_word(a: u64, b: u64, f: Format) -> nat {
    round::rounded(value(a, f) * pow2(f.unit as nat), value(b, f), f.p as nat, f.top as nat)
}

/// The quotient of `ma * 2^ea` by `mb * 2^eb`, written with a widened numerator.
proof fn lemma_quotient_fraction(
    ma: nat,
    ea: nat,
    mb: nat,
    eb: nat,
    up: nat,
    f: Format,
    k: int,
)
    requires
        f.wf(),
        mb > 0,
        k == ea - eb + f.unit - up,
    ensures
        round::nearest(
            (ma * pow2(up)) * round::scaled_num(1, k),
            mb * round::scaled_den(k),
            f.p as nat,
        ) == round::nearest(
            (ma * pow2(ea)) * pow2(f.unit as nat),
            mb * pow2(eb),
            f.p as nat,
        ),
{
    let unit = f.unit as nat;
    let x = pow2(ea);
    let y = pow2(eb);
    let u = pow2(unit);
    let z = pow2(up);
    lemma_pow2_pos(unit);
    lemma_pow2_pos(ea);
    lemma_pow2_pos(eb);
    let sn = round::scaled_num(1, k);
    let sd = round::scaled_den(k);
    assert(sn > 0 && sd > 0 && sn * (y * z) == sd * (x * u)) by {
        lemma_pow2_adds(eb, up);
        lemma_pow2_adds(ea, unit);
        if k >= 0 {
            lemma_pow2_pos(k as nat);
            assert(1 * pow2(k as nat) == pow2(k as nat));
            lemma_pow2_adds(k as nat, (eb + up) as nat);
            assert(1 * (x * u) == x * u);
        } else {
            lemma_pow2_pos((-k) as nat);
            lemma_pow2_adds((-k) as nat, (ea + unit) as nat);
            assert(1 * (y * z) == y * z);
        }
    }
    let n1 = (ma * z) * sn;
    let d1 = mb * sd;
    let n2 = (ma * x) * u;
    let d2 = mb * y;
    assert(d1 > 0 && d2 > 0) by (nonlinear_arith)
        requires
            d1 == mb * sd,
            d2 == mb * y,
            mb > 0,
            sd > 0,
            y > 0,
    ;
    let g = y * z;
    let h = x * u;
    assert(n1 * d2 == (ma * mb) * (sn * g)) by (nonlinear_arith)
        requires
            n1 == (ma * z) * sn,
            d2 == mb * y,
            g == y * z,
    ;
    assert(n2 * d1 == (ma * mb) * (sd * h)) by (nonlinear_arith)
        requires
            n2 == (ma * x) * u,
            d1 == mb * sd,
            h == x * u,
    ;
    round::lemma_nearest_same(n1, d1, n2, d2, f.p as nat);
}

/// A quotient of significands with enough bits to round, doubled, with its lowest
/// bit set where the division leaves a remainder; and the shift that was used.
fn sticky_quotient(ma: u64, mb: u64, f: Format) -> (r: (u128, u32))
    requires
        f.wf(),
        0 < ma < pow2(f.p as nat),
        0 < mb < pow2(f.p as nat),
    ensures
        r.1 <= 200,
        r.0 < 0x8000_0000_0000_0000_0000_0000_0000_0000,
        ({
            let n = ma as nat * pow2(r.1 as nat);
            &&& n / mb as nat >= pow2((f.p + 2) as nat)
            &&& r.0 == 2 * (n / mb as nat) + (if n % mb as nat == 0 { 0nat } else { 1nat })
        }),
{
    let ghost p = f.p as nat;
    let len: u32 = round::bit_len(ma);
    proof {
        if len > f.p {
            round::lemma_pow2_monotone(p, (len - 1) as nat);
        }
    }
    let up: u32 = (f.p - len) + f.p + 3;
    let ghost z = pow2(up as nat);
    let ghost top = pow2((len + up) as nat);
    let ghost bot = pow2((len - 1 + up) as nat);
    proof {
        lemma_pow2_adds(len as nat, up as nat);
        lemma_pow2_pos(up as nat);
        lemma_pow2_adds((len - 1) as nat, up as nat);
        round::lemma_pow2_monotone((len + up) as nat, 109);
        assert(pow2(109) == 0x2000_0000_0000_0000_0000_0000_0000) by {
            lemma_pow2_adds(64, 45);
            lemma2_to64();
            lemma2_to64_rest();
            assert(0x1_0000_0000_0000_0000 * 0x2000_0000_0000 == 0x2000_0000_0000_0000_0000_0000_0000);
        }
        assert(ma * z < top) by (nonlinear_arith)
            requires
                ma < pow2(len as nat),
                top == pow2(len as nat) * z,
                z > 0,
        ;
        assert(ma * z >= bot) by (nonlinear_arith)
            requires
                ma >= pow2((len - 1) as nat),
                bot == pow2((len - 1) as nat) * z,
        ;
    }
    let num: u128 = shifted_wide(ma as u128, up);
    let den: u128 = mb as u128;
    let q: u128 = num / den;
    let rem: u128 = num % den;
    proof {
        lemma_fundamental_div_mod(num as int, den as int);
        lemma_mod_bound(num as int, den as int);
        let g = pow2((p + 2) as nat);
        let h = pow2(p);
        lemma_pow2_adds((p + 2) as nat, p);
        assert(q >= g) by (nonlinear_arith)
            requires
                num == den * q + rem,
                rem < den,
                den < h,
                num >= g * h,
                den > 0,
        {
            if q < g {
                assert(den * (q + 1) <= den * g);
                assert(den * g <= h * g);
            }
        }
        assert(q <= num) by (nonlinear_arith)
            requires
                num == den * q + rem,
                den >= 1,
                rem >= 0,
                q >= 0,
        ;
    }
    (if rem == 0 { 2 * q } else { 2 * q + 1 }, up)
}

/// The quotient of two finite magnitude words.
pub fn quotient(a: u64, b: u64, f: Format) -> (r: u64)
    requires
        f.wf(),
        a < f.inf(),
        0 < b < f.inf(),
    ensures
        r == quotient_word(a, b, f),
        r <= f.inf(),
{
    let (ma, ea) = unpack(a, f);
    let (mb, eb) = unpack(b, f);
    proof {
        let u = pow2(f.unit as nat);
        let x = pow2(ea as nat);
        let y = pow2(eb as nat);
        lemma_format_bounds(f);
        lemma_pow2_pos(eb as nat);
        if mb == 0 {
            assert(eb * pow2((f.p - 1) as nat) == 0) by (nonlinear_arith)
                requires
                    eb == 0,
            ;
        }
        assert(mb * y > 0) by (nonlinear_arith)
            requires
                mb > 0,
                y > 0,
        ;
        if ma == 0 {
            assert(0 * x == 0);
            assert(value(a, f) * u == 0) by (nonlinear_arith)
                requires
                    value(a, f) == 0,
            ;
            lemma_zero_rounds(value(b, f), f);
        }
    }
    if ma == 0 {
        return 0;
    }
    let (m, up) = sticky_quotient(ma, mb, f);
    let k: i32 = ea as i32 - eb as i32 + f.unit as i32 - up as i32;
    proof {
        let n = ma as nat * pow2(up as nat);
        round::lemma_nearest_sticky(n, mb as nat, k as int, f.p as nat);
        lemma_quotient_fraction(ma as nat, ea as nat, mb as nat, eb as nat, up as nat, f, k as int);
    }
    round_scaled(m, k - 1, f)
}

/// The magnitude of the remainder of two finite words, the second not zero.
pub open spec fn remainder_word(a: u64, b: u64, f: Format) -> nat {
    round::rounded(value(a, f) % value(b, f), 1, f.p as nat, f.top as nat)
}

/// `(m * 2^k) % d`, by doubling.
fn doubled_mod(m: u64, k: u32, d: u64) -> (r: u64)
    requires
        0 < d < 0x4000_0000_0000_0000,
    ensures
        r == (m * pow2(k as nat)) % (d as int),
        r < d,
{
    let mut r: u64 = m % d;
    let mut i: u32 = 0;
    proof {
        lemma2_to64();
        assert(m * pow2(0) == m);
    }
    while i < k
        invariant
            0 < d < 0x4000_0000_0000_0000,
            i <= k,
            r < d,
            r == (m * pow2(i as nat)) % (d as int),
        decreases k - i,
    {
        proof {
            lemma_pow2_unfold((i + 1) as nat);
            let x = m * pow2(i as nat);
            assert(m * pow2((i + 1) as nat) == 2 * x) by (nonlinear_arith)
                requires
                    x == m * pow2(i as nat),
                    pow2((i + 1) as nat) == 2 * pow2(i as nat),
            ;
            lemma_mul_mod_noop_right(2, x as int, d as int);
        }
        r = (2 * r) % d;
        i = i + 1;
    }
    r
}

proof fn lemma_mod_scale(x: nat, d: nat, c: nat)
    requires
        d > 0,
        c > 0,
    ensures
        (x * c) % (d * c) == (x % d) * c,
{
    lemma_fundamental_div_mod(x as int, d as int);
    lemma_mod_bound(x as int, d as int);
    let q = x as int / d as int;
    let r = x as int % d as int;
    assert(x * c == q * (d * c) + r * c && 0 <= r * c < d * c) by (nonlinear_arith)
        requires
            x == d * q + r,
            0 <= r < d,
            c > 0,
    ;
    lemma_fundamental_div_mod_converse((x * c) as int, (d * c) as int, q, r * c);
}

/// The remainder of two finite magnitude words, the second not zero.
pub fn remainder(a: u64, b: u64, f: Format) -> (r: u64)
    requires
        f.wf(),
        a < f.inf(),
        0 < b < f.inf(),
    ensures
        r == remainder_word(a, b, f),
        r <= f.inf(),
{
    let (ma, ea) = unpack(a, f);
    let (mb, eb) = unpack(b, f);
    proof {
        lemma_format_bounds(f);
        assert(mb > 0) by {
            if mb == 0 {
                assert(eb == 0);
                assert(0 * pow2((f.p - 1) as nat) == 0);
            }
        }
    }
    if ea < eb {
        proof {
            lemma_pow2_adds((eb - ea) as nat, ea as nat);
            lemma_pow2_unfold((eb - ea) as nat);
            lemma_pow2_pos((eb - ea - 1) as nat);
            lemma_pow2_pos(ea as nat);
            assert(ma * pow2(ea as nat) < mb * pow2(eb as nat)) by (nonlinear_arith)
                requires
                    ma < 2 * mb,
                    pow2(eb as nat) == pow2((eb - ea) as nat) * pow2(ea as nat),
                    pow2((eb - ea) as nat) >= 2,
                    pow2(ea as nat) > 0,
            ;
            lemma_small_mod(value(a, f), value(b, f));
        }
        round_scaled(ma as u128, ea as i32, f)
    } else {
        let m: u64 = doubled_mod(ma, ea - eb, mb);
        proof {
            let x = ma * pow2((ea - eb) as nat);
            let c = pow2(eb as nat);
            lemma_pow2_pos(eb as nat);
            lemma_pow2_adds((ea - eb) as nat, eb as nat);
            assert(x * c == value(a, f)) by (nonlinear_arith)
                requires
                    x == ma * pow2((ea - eb) as nat),
                    value(a, f) == ma * pow2(ea as nat),
                    pow2(ea as nat) == pow2((ea - eb) as nat) * c,
            ;
            lemma_mod_scale(x as nat, mb as nat, c);
        }
        round_scaled(m as u128, eb as i32, f)
    }
}

proof fn lemma_zero_rounds(d: nat, f: Format)
    requires
        d > 0,
        f.wf(),
    ensures
        round::rounded(0, d, f.p as nat, f.top as nat) == 0,
{
    let p = f.p as nat;
    lemma_format_bounds(f);
    lemma_pow2_pos(p);
    assert(pow2(p) * d > 0) by (nonlinear_arith)
        requires
            pow2(p) > 0,
            d > 0,
    ;
    lemma2_to64();
    round::lemma_nearest_at(0, d, p, 0);
    assert(d * 1 == d);
    lemma_fundamental_div_mod_converse(0, d as int, 0, 0);
    assert(0 * pow2((p - 1) as nat) == 0);
    assert(f.inf() > 0) by (nonlinear_arith)
        requires
            f.inf() == f.top as nat * pow2((f.p - 1) as nat),
            f.top >= 2,
            pow2((f.p - 1) as nat) >= 2,
    ;
}

/// The magnitude word nearest to the integer `n`.
pub open spec fn int_word(n: nat, f: Format) -> nat {
    round::rounded(n * pow2(f.unit as nat), 1, f.p as nat, f.top as nat)
}

/// The magnitude word nearest to an integer.
pub fn from_int(n: u64, f: Format) -> (w: u64)
    requires
        f.wf(),
    ensures
        w == int_word(n as nat, f),
        w <= f.inf(),
{
    round_scaled(n as u128, f.unit as i32, f)
}

/// The word of format `g` nearest to a finite word of format `f`.
pub open spec fn convert_word(w: u64, f: Format, g: Format) -> nat {
    round::rounded(
        value(w, f) * pow2(g.unit as nat),
        pow2(f.unit as nat),
        g.p as nat,
        g.top as nat,
    )
}

/// A finite word of one format in another.
pub fn convert(w: u64, f: Format, g: Format) -> (r: u64)
    requires
        f.wf(),
        g.wf(),
        w < f.inf(),
    ensures
        r == convert_word(w, f, g),
        r <= g.inf(),
{
    let (m, e) = unpack(w, f);
    let k: i32 = e as i32 + g.unit as i32 - f.unit as i32;
    proof {
        lemma_format_bounds(f);
        let x = pow2(e as nat);
        let u = pow2(f.unit as nat);
        let v = pow2(g.unit as nat);
        lemma_pow2_pos(f.unit as nat);
        lemma_pow2_adds(e as nat, g.unit as nat);
        assert((m * x) * v == m * (x * v)) by (nonlinear_arith);
        if k >= 0 {
            lemma_pow2_adds(k as nat, f.unit as nat);
            assert((m * pow2(k as nat)) * u == m * (x * v)) by (nonlinear_arith)
                requires
                    pow2(k as nat) * u == x * v,
            ;
            assert((m * (x * v)) * 1 == m * (x * v));
        } else {
            lemma_pow2_pos((-k) as nat);
            lemma_pow2_adds((-k) as nat, (e + g.unit) as nat);
            assert(m * u == (m * (x * v)) * pow2((-k) as nat)) by (nonlinear_arith)
                requires
                    u == pow2((-k) as nat) * (x * v),
            ;
        }
        round::lemma_nearest_same(
            round::scaled_num(m as nat, k as int),
            round::scaled_den(k as int),
            value(w, f) * v,
            u,
            g.p as nat,
        );
    }
    round_scaled(m as u128, k, g)
}

/// The integer part of a finite word.
pub open spec fn whole(w: u64, f: Format) -> nat {
    value(w, f) / pow2(f.unit as nat)
}

/// What a finite word has beyond its integer part, in units.
pub open spec fn beyond(w: u64, f: Format) -> nat {
    value(w, f) % pow2(f.unit as nat)
}

proof fn lemma_split(m: nat, e: nat, s: nat)
    ensures
        (m * pow2(e)) / pow2(s + e) == m / pow2(s),
        (m * pow2(e)) % pow2(s + e) == (m % pow2(s)) * pow2(e),
{
    let t = pow2(s);
    let x = pow2(e);
    lemma_pow2_pos(s);
    lemma_pow2_pos(e);
    lemma_pow2_adds(s, e);
    let q = m / t;
    let r = m % t;
    lemma_fundamental_div_mod(m as int, t as int);
    lemma_mod_bound(m as int, t as int);
    assert(m * x == q * (t * x) + r * x) by (nonlinear_arith)
        requires
            m == t * q + r,
    ;
    assert(0 <= r * x < t * x) by (nonlinear_arith)
        requires
            0 <= r < t,
            x > 0,
    ;
    lemma_fundamental_div_mod_converse((m * x) as int, (t * x) as int, q as int, (r * x) as int);
}

/// The integer part of a finite word, capped at `limit`.
pub fn whole_capped(w: u64, f: Format, limit: u64) -> (n: u64)
    requires
        f.wf(),
        w < f.inf(),
    ensures
        n == (if whole(w, f) < limit { whole(w, f) } else { limit as nat }),
{
    let (m, e) = unpack(w, f);
    proof {
        lemma_format_bounds(f);
        lemma2_to64();
        lemma2_to64_rest();
        lemma_pow2_pos(f.unit as nat);
    }
    if e >= f.unit {
        let s: u32 = e - f.unit;
        proof {
            lemma_pow2_adds(s as nat, f.unit as nat);
            let u = pow2(f.unit as nat);
            assert(m * pow2(e as nat) == (m * pow2(s as nat)) * u) by (nonlinear_arith)
                requires
                    pow2(e as nat) == pow2(s as nat) * u,
            ;
            lemma_div_multiples_vanish((m * pow2(s as nat)) as int, u as int);
            assert(u * (m * pow2(s as nat)) == (m * pow2(s as nat)) * u) by (nonlinear_arith);
        }
        if s >= 64 {
            if m == 0 {
                proof {
                    assert(0 * pow2(s as nat) == 0);
                }
                return 0;
            }
            proof {
                round::lemma_pow2_monotone(64, s as nat);
                assert(m * pow2(s as nat) >= pow2(64)) by (nonlinear_arith)
                    requires
                        m >= 1,
                        pow2(s as nat) >= pow2(64),
                ;
            }
            return limit;
        }
        proof {
            lemma_pow2_pos(s as nat);
            round::lemma_pow2_monotone(s as nat, 63);
            assert(m * pow2(s as nat) < 0x40_0000_0000_0000 * 0x8000_0000_0000_0000) by (nonlinear_arith)
                requires
                    m < 0x40_0000_0000_0000,
                    pow2(s as nat) <= 0x8000_0000_0000_0000,
                    pow2(s as nat) > 0,
            ;
            assert(0x40_0000_0000_0000 * 0x8000_0000_0000_0000 == 0x20_0000_0000_0000_0000_0000_0000_0000);
        }
        let v: u128 = shifted_wide(m as u128, s);
        if v < limit as u128 {
            v as u64
        } else {
            limit
        }
    } else {
        let (v, _none, _half) = split_fraction(m, e, f);
        if v < limit {
            v
        } else {
            limit
        }
    }
}

/// The integer part of `m * 2^e` units, whether nothing is left beyond it, and
/// whether what is left is at least one half.
fn split_fraction(m: u64, e: u32, f: Format) -> (r: (u64, bool, bool))
    requires
        f.wf(),
        m < pow2(f.p as nat),
        e < f.unit,
    ensures
        r.0 == (m * pow2(e as nat)) as nat / pow2(f.unit as nat),
        r.1 == ((m * pow2(e as nat)) as nat % pow2(f.unit as nat) == 0),
        r.2 == (2 * ((m * pow2(e as nat)) as nat % pow2(f.unit as nat)) >= pow2(f.unit as nat)),
        r.0 < pow2(f.p as nat),
{
    let s: u32 = f.unit - e;
    let ghost x = pow2(e as nat);
    let ghost t = pow2(s as nat);
    proof {
        lemma_format_bounds(f);
        lemma2_to64();
        lemma2_to64_rest();
        lemma_split(m as nat, e as nat, s as nat);
        lemma_pow2_pos(e as nat);
        lemma_pow2_pos(s as nat);
        lemma_pow2_adds(s as nat, e as nat);
        lemma_pow2_unfold(s as nat);
        lemma_fundamental_div_mod(m as int, t as int);
        lemma_mod_bound(m as int, t as int);
        let r = m as int % t as int;
        assert(r * x == 0 <==> r == 0) by (nonlinear_arith)
            requires
                x > 0,
        ;
        assert(2 * (r * x) >= t * x <==> 2 * r >= t) by (nonlinear_arith)
            requires
                x > 0,
        ;
    }
    if s >= 64 {
        proof {
            round::lemma_pow2_monotone(63, (s - 1) as nat);
            lemma_fundamental_div_mod_converse(m as int, t as int, 0, m as int);
        }
        return (0, m == 0, false);
    }
    proof {
        lemma_u64_shr_is_div(m, s as u64);
        let hi = m as int / t as int;
        assert(hi * t == t * hi) by (nonlinear_arith);
        assert(hi <= m) by (nonlinear_arith)
            requires
                m == t * hi + m as int % t as int,
                m as int % t as int >= 0,
                t >= 1,
                hi >= 0,
        ;
        assert(1 * pow2((s - 1) as nat) == pow2((s - 1) as nat));
        round::lemma_pow2_monotone((s - 1) as nat, 63);
    }
    let hi: u64 = m >> (s as u64);
    let low: u64 = m - shifted(hi, s);
    let half: u64 = shifted(1, s - 1);
    (hi, low == 0, low >= half)
}

/// How a fraction is dropped.
#[derive(Clone, Copy, Debug, PartialEq, Eq, Structural)]
pub enum Toward {
    /// To the integer of the smaller magnitude.
    Zero,
    /// To the integer of the larger magnitude.
    Away,
    /// To the nearer integer, and from the middle to the larger magnitude.
    Nearest,
}

/// A finite word with its fraction dropped.
pub open spec fn integral_word(w: u64, t: Toward, f: Format) -> nat {
    let up = match t {
        Toward::Zero => false,
        Toward::Away => true,
        Toward::Nearest => 2 * beyond(w, f) >= pow2(f.unit as nat),
    };
    if beyond(w, f) == 0 {
        w as nat
    } else if up {
        int_word(whole(w, f) + 1, f)
    } else {
        int_word(whole(w, f), f)
    }
}

/// Drops the fraction of a finite word.
pub fn integral(w: u64, t: Toward, f: Format) -> (r: u64)
    requires
        f.wf(),
        w < f.inf(),
    ensures
        r == integral_word(w, t, f),
        r <= f.inf(),
{
    let (m, e) = unpack(w, f);
    if e >= f.unit {
        proof {
            lemma_pow2_pos(f.unit as nat);
            let s = (e - f.unit) as nat;
            let u = pow2(f.unit as nat);
            lemma_pow2_adds(s, f.unit as nat);
            assert(m * pow2(e as nat) == (m * pow2(s)) * u) by (nonlinear_arith)
                requires
                    pow2(e as nat) == pow2(s) * u,
            ;
            lemma_mod_multiples_basic((m * pow2(s)) as int, u as int);
        }
        return w;
    }
    let (n, exact, half) = split_fraction(m, e, f);
    proof {
        lemma_format_bounds(f);
    }
    if exact {
        return w;
    }
    let up: bool = match t {
        Toward::Zero => false,
        Toward::Away => true,
        Toward::Nearest => half,
    };
    if up {
        from_int(n + 1, f)
    } else {
        from_int(n, f)
    }
}

/// The integer square root: the largest number whose square is at most `n`.
pub open spec fn isqrt(n: nat) -> nat
    decreases n,
{
    if n == 0 {
        0
    } else {
        let r = isqrt((n - 1) as nat);
        if (r + 1) * (r + 1) <= n {
            r + 1
        } else {
            r
        }
    }
}

/// The defining property of the integer square root, and that nothing else has it.
pub proof fn lemma_isqrt(n: nat, r: nat)
    ensures
        isqrt(n) * isqrt(n) <= n < (isqrt(n) + 1) * (isqrt(n) + 1),
        r * r <= n < (r + 1) * (r + 1) ==> r == isqrt(n),
    decreases n,
{
    if n > 0 {
        lemma_isqrt((n - 1) as nat, r);
        let v = isqrt((n - 1) as nat);
        let q = isqrt(n);
        assert((v + 2) * (v + 2) > (v + 1) * (v + 1)) by (nonlinear_arith);
        if q == v + 1 {
            assert((q + 1) * (q + 1) == (v + 2) * (v + 2));
            assert(q * q == (v + 1) * (v + 1));
        } else {
            assert(q == v);
        }
    } else {
        let q = isqrt(n);
        assert(q * q == 0 && (q + 1) * (q + 1) == 1) by (nonlinear_arith)
            requires
                q == 0,
        ;
    }
    let q = isqrt(n);
    if r < q {
        assert((r + 1) * (r + 1) <= q * q) by (nonlinear_arith)
            requires
                r + 1 <= q,
        ;
    } else if r > q {
        assert((q + 1) * (q + 1) <= r * r) by (nonlinear_arith)
            requires
                q + 1 <= r,
        ;
    }
}

/// The magnitude of the square root of a finite word. In units the root is that of
/// `value * 2^unit`, a number of far more bits than are kept, so its integer part
/// and whether that is exact settle the rounding.
pub open spec fn root_word(w: u64, f: Format) -> nat {
    let n = value(w, f) * pow2(f.unit as nat);
    let r = isqrt(n);
    round::rounded(2 * r + (if r * r == n { 0nat } else { 1nat }), 2, f.p as nat, f.top as nat)
}

/// The integer square root of a word of up to 112 bits.
fn isqrt_wide(x: u128) -> (q: u64)
    requires
        x < 0x1_0000_0000_0000_0000_0000_0000_0000,
    ensures
        q == isqrt(x as nat),
        q < 0x100_0000_0000_0000,
{
    let mut q: u128 = 0;
    let mut i: u32 = 56;
    proof {
        lemma2_to64();
        lemma2_to64_rest();
        assert(0x100_0000_0000_0000 * 0x100_0000_0000_0000
            == 0x1_0000_0000_0000_0000_0000_0000_0000);
    }
    while i > 0
        invariant
            i <= 56,
            q + pow2(i as nat) <= 0x100_0000_0000_0000,
            q * q <= x,
            x < (q + pow2(i as nat)) * (q + pow2(i as nat)),
        decreases i,
    {
        let ghost wide = pow2(i as nat);
        i = i - 1;
        proof {
            lemma_pow2_unfold((i + 1) as nat);
            lemma_pow2_pos(i as nat);
            assert(1 * pow2(i as nat) == pow2(i as nat));
        }
        let bit: u128 = shifted_wide(1, i);
        let c: u128 = q + bit;
        assert(c * c <= 0x100_0000_0000_0000 * 0x100_0000_0000_0000) by (nonlinear_arith)
            requires
                c <= 0x100_0000_0000_0000,
        ;
        assert(q + wide == c + bit);
        if c * c <= x {
            q = c;
        }
    }
    proof {
        lemma2_to64();
    }
    proof {
        lemma_isqrt(x as nat, q as nat);
    }
    q as u64
}

/// The root of `x * 4^h` rounds as the root of `x` with its inexactness does.
proof fn lemma_root_sticky(x: nat, h: nat, p: nat)
    requires
        p >= 1,
        x >= pow2(2 * p + 4),
    ensures
        ({
            let n = x * pow2(2 * h);
            let r = isqrt(n);
            let q = isqrt(x);
            round::nearest(2 * r + (if r * r == n { 0nat } else { 1nat }), 2, p) == round::nearest(
                round::scaled_num(2 * q + (if q * q == x { 0nat } else { 1nat }), h - 1),
                round::scaled_den(h - 1),
                p,
            )
        }),
{
    let n = x * pow2(2 * h);
    let r = isqrt(n);
    let q = isqrt(x);
    let t = pow2(h);
    lemma_pow2_pos(h);
    lemma_pow2_adds(h, h);
    assert(2 * h == h + h);
    lemma_isqrt(n, 0);
    lemma_isqrt(x, 0);
    lemma_pow2_adds(p + 2, p + 2);
    let g = pow2(p + 2);
    assert(q >= g) by (nonlinear_arith)
        requires
            x >= g * g,
            x < (q + 1) * (q + 1),
            g >= 0,
            q >= 0,
    {
        if q < g {
            assert((q + 1) * (q + 1) <= g * g);
        }
    }
    assert((q * t) * (q * t) <= n < ((q + 1) * t) * ((q + 1) * t)) by (nonlinear_arith)
        requires
            q * q <= x < (q + 1) * (q + 1),
            n == x * (t * t),
            t > 0,
    {
        assert((q * q) * (t * t) <= x * (t * t));
        assert((q * t) * (q * t) == (q * q) * (t * t));
        assert(x * (t * t) < ((q + 1) * (q + 1)) * (t * t));
        assert(((q + 1) * t) * ((q + 1) * t) == ((q + 1) * (q + 1)) * (t * t));
    }
    if r < q * t {
        assert((r + 1) * (r + 1) <= (q * t) * (q * t)) by (nonlinear_arith)
            requires
                r + 1 <= q * t,
        ;
    }
    if r >= (q + 1) * t {
        assert(r * r >= ((q + 1) * t) * ((q + 1) * t)) by (nonlinear_arith)
            requires
                r >= (q + 1) * t,
                (q + 1) * t >= 0,
        ;
    }
    let low = (r - q * t) as nat;
    assert((q + 1) * t == q * t + t) by (nonlinear_arith);
    let st: nat = if r * r == n { 0nat } else { 1nat };
    let m = 2 * r + st;
    let d = 2 * t;
    lemma_pow2_unfold(h + 1);
    assert(m == q * d + (2 * low + st)) by (nonlinear_arith)
        requires
            m == 2 * r + st,
            r == q * t + low,
            d == 2 * t,
    ;
    lemma_fundamental_div_mod_converse(m as int, d as int, q as int, (2 * low + st) as int);
    if q * q == x {
        assert((q * t) * (q * t) == n) by (nonlinear_arith)
            requires
                q * q == x,
                n == x * (t * t),
        ;
        lemma_isqrt(n, q * t);
        assert((q * t + 1) * (q * t + 1) > (q * t) * (q * t)) by (nonlinear_arith);
        assert(low == 0 && st == 0);
    } else if low == 0 && st == 0 {
        assert(q * q == x) by (nonlinear_arith)
            requires
                r == q * t,
                r * r == n,
                n == x * (t * t),
                t > 0,
        {
            assert((q * q) * (t * t) == x * (t * t));
        }
    }
    round::lemma_nearest_sticky(m, d, h as int, p);
    assert(1 * pow2(h) == t);
    assert(d * 1 == d);
    assert((m * t) * 2 == m * d) by (nonlinear_arith)
        requires
            d == 2 * t,
    ;
    round::lemma_nearest_same(m * t, d, m, 2, p);
}

/// The square root of a finite magnitude word.
pub fn root(w: u64, f: Format) -> (r: u64)
    requires
        f.wf(),
        w < f.inf(),
        f.unit >= 2 * f.p + 6,
    ensures
        r == root_word(w, f),
        r <= f.inf(),
{
    let (m, e) = unpack(w, f);
    let ghost p = f.p as nat;
    let ghost u = pow2(f.unit as nat);
    proof {
        lemma_format_bounds(f);
        lemma_pow2_pos(f.unit as nat);
        if m == 0 {
            assert(value(w, f) * u == 0) by (nonlinear_arith)
                requires
                    value(w, f) == m * pow2(e as nat),
                    m == 0,
            ;
            assert(isqrt(0) == 0);
            assert(0nat * 0nat == 0);
            lemma_zero_rounds(2, f);
        }
    }
    if m == 0 {
        return 0;
    }
    let len: u32 = round::bit_len(m);
    proof {
        if len > f.p {
            round::lemma_pow2_monotone(p, (len - 1) as nat);
        }
    }
    let all: u32 = e + f.unit;
    let near: u32 = 2 * f.p + 5 - len;
    let up: u32 = if (all - near) % 2 == 0 { near } else { near + 1 };
    let h: u32 = (all - up) / 2;
    let ghost z = pow2(up as nat);
    proof {
        lemma_pow2_pos(up as nat);
        lemma_pow2_adds(len as nat, up as nat);
        lemma_pow2_adds((len - 1) as nat, up as nat);
        round::lemma_pow2_monotone((len + up) as nat, 112);
        assert(pow2(112) == 0x1_0000_0000_0000_0000_0000_0000_0000) by {
            lemma_pow2_adds(64, 48);
            lemma2_to64();
            lemma2_to64_rest();
            assert(0x1_0000_0000_0000_0000 * 0x1_0000_0000_0000
                == 0x1_0000_0000_0000_0000_0000_0000_0000);
        }
        assert(m * z < pow2((len + up) as nat)) by (nonlinear_arith)
            requires
                m < pow2(len as nat),
                pow2((len + up) as nat) == pow2(len as nat) * z,
                z > 0,
        ;
        assert(m * z >= pow2((len - 1 + up) as nat)) by (nonlinear_arith)
            requires
                m >= pow2((len - 1) as nat),
                pow2((len - 1 + up) as nat) == pow2((len - 1) as nat) * z,
        ;
        round::lemma_pow2_monotone((2 * f.p + 4) as nat, (len - 1 + up) as nat);
    }
    let x: u128 = shifted_wide(m as u128, up);
    let q: u64 = isqrt_wide(x);
    proof {
        lemma_pow2_adds(e as nat, f.unit as nat);
        lemma_pow2_adds(up as nat, (2 * h) as nat);
        assert((m * pow2(e as nat)) * u == (m * z) * pow2((2 * h) as nat)) by (nonlinear_arith)
            requires
                pow2(e as nat) * u == z * pow2((2 * h) as nat),
        ;
        lemma_root_sticky(x as nat, h as nat, p);
        assert(q * q <= 0x100_0000_0000_0000 * 0x100_0000_0000_0000) by (nonlinear_arith)
            requires
                q < 0x100_0000_0000_0000,
        ;
    }
    let sticky: u128 = if q as u128 * q as u128 == x { 0 } else { 1 };
    round_scaled(2 * (q as u128) + sticky, h as i32 - 1, f)
}

/// A magnitude times `ten`, rounded to an integer, ties to even.
pub fn times_rounded(w: u64, f: Format, ten: u64) -> (n: u64)
    requires
        f.wf(),
        f.p <= 24,
        w < f.inf(),
        w < (f.unit + 2) * pow2((f.p - 1) as nat),
        1 <= ten <= 10_000,
    ensures
        n == round::half_even(value(w, f) * ten as nat, pow2(f.unit as nat)),
{
    let (m, e): (u64, u32) = unpack(w, f);
    let ghost c = pow2((f.p - 1) as nat);
    proof {
        lemma_format_bounds(f);
        lemma2_to64();
        round::lemma_pow2_monotone(f.p as nat, 24);
        assert(e <= f.unit) by {
            if e > 0 {
                assert((e + 1) * c <= w) by (nonlinear_arith)
                    requires
                        e * c + m == w,
                        m >= c,
                ;
                assert(e + 1 < f.unit + 2) by (nonlinear_arith)
                    requires
                        (e + 1) * c < (f.unit + 2) * c,
                        c >= 2,
                ;
            }
        }
        assert(m * ten <= 0x100_0000 * 10_000) by (nonlinear_arith)
            requires
                m < 0x100_0000,
                ten <= 10_000,
        ;
    }
    let k: u64 = m * ten;
    let s: u32 = f.unit - e;
    proof {
        lemma_pow2_adds(s as nat, e as nat);
        lemma_pow2_pos(s as nat);
        lemma_pow2_pos(e as nat);
        assert(value(w, f) * ten as nat == (k as nat) * pow2(e as nat)) by (nonlinear_arith)
            requires
                value(w, f) == m * pow2(e as nat),
                k == m * ten,
        ;
        round::lemma_half_even_scale(k as nat, pow2(s as nat), pow2(e as nat));
    }
    if s == 0 {
        proof {
            assert(pow2(0) == 1);
            lemma_fundamental_div_mod(k as int, 1);
        }
        k
    } else if s <= 127 {
        proof {
            lemma_small_half_even(k as nat, s as nat);
        }
        shift_half_even(k as u128, s) as u64
    } else {
        proof {
            round::lemma_pow2_monotone(64, s as nat);
            lemma2_to64_rest();
            lemma_small_mod(k as nat, pow2(s as nat));
            lemma_basic_div(k as int, pow2(s as nat) as int);
        }
        0
    }
}

/// The integer that a word of at least 2^(p - 1) stands for.
pub fn whole_wide(w: u64, f: Format) -> (n: u128)
    requires
        f.wf(),
        f.p <= 24,
        1 <= f.unit,
        f.top <= f.unit + 106,
        w < f.inf(),
        w >= (f.unit + 1) * pow2((f.p - 1) as nat),
    ensures
        n * pow2(f.unit as nat) == value(w, f),
{
    let (m, e): (u64, u32) = unpack(w, f);
    let ghost c = pow2((f.p - 1) as nat);
    proof {
        lemma_format_bounds(f);
        lemma2_to64();
        lemma_pow2_unfold(f.p as nat);
        round::lemma_pow2_monotone(f.p as nat, 24);
        assert(e >= f.unit) by (nonlinear_arith)
            requires
                e * c + m == w,
                m < 2 * c,
                w >= (f.unit + 1) * c,
                c > 0,
        ;
        assert(e + 1 < f.top) by (nonlinear_arith)
            requires
                e * c + m == w,
                e > 0 ==> m >= c,
                e >= f.unit,
                f.unit > 0,
                w < f.top * c,
                c > 0,
        ;
        let s = (e - f.unit) as nat;
        round::lemma_pow2_monotone(s, 104);
        lemma_pow2_adds(24, 104);
        lemma_pow2_adds(64, 64);
        lemma_pow2_pos(s);
        assert(m * pow2(s) <= u128::MAX) by (nonlinear_arith)
            requires
                m < pow2(24),
                pow2(s) <= pow2(104),
                pow2(24) * pow2(104) == pow2(128),
                pow2(128) == 0x1_0000_0000_0000_0000_0000_0000_0000_0000int,
                pow2(s) > 0,
        ;
        lemma_pow2_adds(s, f.unit as nat);
        assert((m * pow2(s)) * pow2(f.unit as nat) == m * (pow2(s) * pow2(f.unit as nat)))
            by (nonlinear_arith);
    }
    shifted_wide(m as u128, e - f.unit)
}

/// Half of a number is no more than the number.
proof fn lemma_small_half_even(k: nat, s: nat)
    requires
        s >= 1,
    ensures
        round::half_even(k, pow2(s)) <= k + 1,
{
    lemma_pow2_pos(s);
    lemma_div_is_ordered_by_denominator(k as int, 1, pow2(s) as int);
}

} // verus!
