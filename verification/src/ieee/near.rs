//! Numbers of single precision as the real numbers that they stand for, and how far a result lies
//! from what it stands for.

use crate::ieee::binary;
use crate::ieee::facts;
use crate::ieee::order;
use crate::ieee::order::val;
use crate::ieee::round;
use crate::ieee::single;
use crate::ieee::single::Single;
use vstd::arithmetic::power2::*;
use vstd::prelude::*;

verus! {

/// The real number that a finite number stands for.
pub open spec fn real_of(x: Single) -> real {
    val(x) as real / pow2(149) as real
}

/// A real number without its sign.
pub open spec fn size(v: real) -> real {
    if v < 0real {
        -v
    } else {
        v
    }
}

/// How far rounding moves a number, as a part of it.
pub open spec fn eps() -> real {
    1real / 16777216real
}

/// Half of the smallest number: how far rounding moves a number at the least.
pub open spec fn tiny() -> real {
    1real / (2 * pow2(149)) as real
}

/// What the sizes of numbers stay below.
pub open spec fn limit() -> real {
    1267650600228229401496703205376real
}

/// What the sizes of numbers stay above.
pub open spec fn floor() -> real {
    1real / limit()
}

/// Whether `x` stands for `v`, which is at most `m` in size, but for `c` roundings of numbers of that
/// size.
pub open spec fn roughly(x: Single, v: real, m: real, c: real) -> bool {
    &&& x.is_finite()
    &&& size(v) <= m
    &&& size(real_of(x) - v) <= c * eps() * m
}

proof fn lemma_constants()
    ensures
        0real < tiny(),
        4real * tiny() <= eps() * floor(),
        pow2(100) as real == limit(),
        pow2(149) as real > 0real,
        pow2(276) as real == pow2(149) as real * (134217728real * limit()),
{
    lemma2_to64();
    lemma_pow2_adds(25, 25);
    lemma_pow2_adds(24, 25);
    lemma_pow2_adds(50, 50);
    lemma_pow2_adds(100, 49);
    lemma_pow2_adds(149, 127);
    lemma_pow2_adds(100, 27);
    assert(pow2(100) == 1125899906842624 * 1125899906842624);
    assert(1125899906842624 * 1125899906842624 == 1267650600228229401496703205376) by (nonlinear_arith);
    let (a, b) = (pow2(100), pow2(49));
    assert(b == 562949953421312);
    assert(pow2(149) == 562949953421312 * a) by (nonlinear_arith)
        requires
            pow2(149) == a * b,
            b == 562949953421312,
    ;
    assert(pow2(149) as real == 562949953421312real * a as real);
    assert(pow2(276) as real == pow2(149) as real * pow2(127) as real) by (nonlinear_arith)
        requires
            pow2(276) == pow2(149) * pow2(127),
    ;
    assert(pow2(127) as real == 134217728real * limit());
    let l = limit();
    assert(tiny() > 0real) by (nonlinear_arith)
        requires
            tiny() == 1real / (2real * (562949953421312real * l)),
            l > 0real,
    ;
    assert(4real * tiny() <= eps() * floor()) by (nonlinear_arith)
        requires
            tiny() == 1real / (2real * (562949953421312real * l)),
            eps() == 1real / 16777216real,
            floor() == 1real / l,
            l > 0real,
    ;
}

/// Rounding moves a fraction by no more than the given part of it.
proof fn lemma_rounds(n: nat, d: nat, k: nat)
    requires
        d > 0,
        k >= 24,
        n < pow2(k) * d,
    ensures
        round::nearest(n, d, 24) <= (k - 22) * pow2(23),
        16777216 * (round::units(round::nearest(n, d, 24), 24) * d - n) <= n + 8388608 * d,
        16777216 * (n - round::units(round::nearest(n, d, 24), 24) * d) <= n + 8388608 * d,
    decreases k,
{
    lemma2_to64();
    if k > 24 && n < pow2((k - 1) as nat) * d {
        lemma_rounds(n, d, (k - 1) as nat);
        assert((k - 1 - 22) * pow2(23) <= (k - 22) * pow2(23)) by (nonlinear_arith);
    } else {
        order::lemma_nearest_close(n, d, k);
        let t = round::units(round::nearest(n, d, 24), 24) * d;
        let e = pow2((k - 24) as nat);
        if k > 24 {
            lemma_pow2_adds(23, (k - 24) as nat);
            assert(8388608 * (d * e) <= n) by (nonlinear_arith)
                requires
                    n >= pow2((k - 1) as nat) * d,
                    pow2((k - 1) as nat) == 8388608 * e,
            ;
        } else {
            assert(e == 1);
            assert(d * e == d) by (nonlinear_arith)
                requires
                    e == 1,
            ;
        }
    }
}

/// What rounding a fraction gives, as real numbers: `n / (2^149 d)` is moved to `w / 2^149`.
proof fn lemma_rounds_real(n: nat, d: nat, e: real)
    requires
        d > 0,
        e == n as real / (d as real * pow2(149) as real),
        e < 134217728real * limit(),
    ensures
        ({
            let w = round::nearest(n, d, 24);
            let r = round::units(w, 24) as real / pow2(149) as real;
            &&& w < 0x7f80_0000
            &&& size(r - e) <= eps() * e + tiny()
        }),
{
    let u = pow2(149) as real;
    lemma_constants();
    lemma2_to64();
    let (nr, dr) = (n as real, d as real);
    assert(nr == e * (dr * u) && nr < dr * (u * (134217728real * limit()))) by (nonlinear_arith)
        requires
            e == nr / (dr * u),
            e < 134217728real * limit(),
            dr > 0real,
            u > 0real,
    ;
    assert((pow2(276) * d) as real == pow2(276) as real * dr) by (nonlinear_arith)
        requires
            dr == d as real,
    ;
    assert(nr < (pow2(276) * d) as real) by (nonlinear_arith)
        requires
            nr < dr * (u * (134217728real * limit())),
            pow2(276) as real == u * (134217728real * limit()),
            (pow2(276) * d) as real == pow2(276) as real * dr,
    ;
    lemma_rounds(n, d, 276);
    let w = round::nearest(n, d, 24);
    assert(254 * pow2(23) < 0x7f80_0000);
    let t = round::units(w, 24);
    let tr = t as real;
    assert((t * d) as real == tr * dr) by (nonlinear_arith)
        requires
            tr == t as real,
            dr == d as real,
    ;
    let a = t * d;
    assert(16777216real * (a as real - nr) <= nr + 8388608real * dr);
    assert(16777216real * (nr - a as real) <= nr + 8388608real * dr);
    let r = tr / u;
    let x = r - e;
    assert(x * (dr * u) == a as real - nr) by (nonlinear_arith)
        requires
            x == tr / u - e,
            nr == e * (dr * u),
            a as real == tr * dr,
            u > 0real,
    ;
    let y = eps() * e + tiny();
    assert(y * (dr * u) * (16777216real) == nr + 8388608real * dr) by (nonlinear_arith)
        requires
            y == e / 16777216real + 1real / (2real * u),
            nr == e * (dr * u),
            u > 0real,
    ;
    assert(dr * u > 0real) by (nonlinear_arith)
        requires
            dr > 0real,
            u > 0real,
    ;
    assert(x <= y && -x <= y) by (nonlinear_arith)
        requires
            16777216real * (x * (dr * u)) <= y * (dr * u) * (16777216real),
            16777216real * -(x * (dr * u)) <= y * (dr * u) * (16777216real),
            dr * u > 0real,
    ;
}

/// A sum is rounded by no more than the given part of it.
pub proof fn lemma_sum(x: Single, y: Single)
    requires
        x.is_finite(),
        y.is_finite(),
        size(real_of(x) + real_of(y)) < 2real * limit(),
    ensures
        (x + y).is_finite(),
        size(real_of(x + y) - (real_of(x) + real_of(y))) <= eps() * size(real_of(x) + real_of(y)) + tiny(),
{
    let u = pow2(149) as real;
    lemma_constants();
    lemma2_to64();
    reveal(Single::spec_add);
    let f = single::layout();
    assert(f.top * pow2(23) == 0x7f80_0000);
    let s = val(x) + val(y);
    let n = binary::magnitude(s);
    let e = n as real / (1real * u);
    assert(real_of(x) + real_of(y) == s as real / u) by (nonlinear_arith)
        requires
            real_of(x) == val(x) as real / u,
            real_of(y) == val(y) as real / u,
            s as real == val(x) as real + val(y) as real,
            u > 0real,
    ;
    assert(e == size(real_of(x) + real_of(y))) by (nonlinear_arith)
        requires
            e == n as real / (1real * u),
            n as real == size(s as real),
            real_of(x) + real_of(y) == s as real / u,
            u > 0real,
    ;
    lemma_rounds_real(n, 1, e);
    let w = round::nearest(n, 1, 24);
    let t = round::units(w, 24);
    assert(s == 0 ==> round::units(round::nearest(0, 1, 24), 24) == 0) by {
        assert(round::units(0, 24) == 0);
        facts::lemma_nearest_exact(0, 24);
    }
    assert(val(x + y) == (if s < 0 {
        -(t as int)
    } else {
        t as int
    }));
    let (r, q) = (t as real / u, real_of(x + y));
    assert(s < 0 ==> q == -r) by (nonlinear_arith)
        requires
            s < 0 ==> val(x + y) as real == -(t as real),
            r == t as real / u,
            q == val(x + y) as real / u,
            u > 0real,
    ;
    let z = real_of(x) + real_of(y);
    assert((s < 0 ==> z < 0real) && (s >= 0 ==> z >= 0real)) by (nonlinear_arith)
        requires
            z == s as real / u,
            u > 0real,
    ;
}

/// The opposite number stands for the opposite.
pub proof fn lemma_opposite(x: Single)
    ensures
        real_of(x.negated()) == -real_of(x),
        x.is_finite() ==> x.negated().is_finite(),
{
    let u = pow2(149) as real;
    lemma_constants();
    order::lemma_val_negated(x);
    assert(real_of(x.negated()) == -real_of(x)) by (nonlinear_arith)
        requires
            real_of(x.negated()) == -(val(x) as real) / u,
            real_of(x) == val(x) as real / u,
            u > 0real,
    ;
}

/// A product is rounded by no more than the given part of it.
pub proof fn lemma_product(x: Single, y: Single)
    requires
        x.is_finite(),
        y.is_finite(),
        size(real_of(x) * real_of(y)) < 2real * limit(),
    ensures
        (x * y).is_finite(),
        size(real_of(x * y) - real_of(x) * real_of(y)) <= eps() * size(real_of(x) * real_of(y)) + tiny(),
{
    let u = pow2(149) as real;
    lemma_constants();
    lemma2_to64();
    reveal(Single::spec_mul);
    let f = single::layout();
    assert(f.top * pow2(23) == 0x7f80_0000);
    let (a, b) = (binary::value(x.mag(), f), binary::value(y.mag(), f));
    let n = a * b;
    let d = pow2(149);
    let e = n as real / (d as real * u);
    let z = real_of(x) * real_of(y);
    let neg = x.minus() != y.minus();
    assert(n as real == a as real * b as real) by (nonlinear_arith)
        requires
            n == a * b,
    ;
    assert(z == (if neg {
        -e
    } else {
        e
    })) by (nonlinear_arith)
        requires
            z == real_of(x) * real_of(y),
            real_of(x) == (if x.minus() {
                -(a as real)
            } else {
                a as real
            }) / u,
            real_of(y) == (if y.minus() {
                -(b as real)
            } else {
                b as real
            }) / u,
            e == (a as real * b as real) / (u * u),
            neg == (x.minus() != y.minus()),
            u > 0real,
    ;
    assert(e >= 0real) by (nonlinear_arith)
        requires
            e == n as real / (u * u),
            n as real >= 0real,
            u > 0real,
    ;
    lemma_rounds_real(n, d, e);
    let t = round::units(round::nearest(n, d, 24), 24);
    assert(val(x * y) == (if neg {
        -(t as int)
    } else {
        t as int
    }));
    let (r, q) = (t as real / u, real_of(x * y));
    assert(q == (if neg {
        -r
    } else {
        r
    })) by (nonlinear_arith)
        requires
            val(x * y) as real == (if neg {
                -(t as real)
            } else {
                t as real
            }),
            r == t as real / u,
            q == val(x * y) as real / u,
            u > 0real,
    ;
}

/// A quotient is rounded by no more than the given part of it.
pub proof fn lemma_ratio(x: Single, y: Single)
    requires
        x.is_finite(),
        y.is_finite(),
        real_of(y) != 0real,
        size(real_of(x) / real_of(y)) < 2real * limit(),
    ensures
        (x / y).is_finite(),
        size(real_of(x / y) - real_of(x) / real_of(y)) <= eps() * size(real_of(x) / real_of(y)) + tiny(),
{
    let u = pow2(149) as real;
    lemma_constants();
    lemma2_to64();
    reveal(Single::spec_euclidean_or_real_div);
    let f = single::layout();
    assert(f.top * pow2(23) == 0x7f80_0000);
    let (a, b) = (binary::value(x.mag(), f), binary::value(y.mag(), f));
    assert(b > 0 && y.mag() > 0) by {
        assert(round::units(0, 24) == 0);
        if b == 0 {
            assert(0real / u == 0real) by (nonlinear_arith)
                requires
                    u > 0real,
            ;
        }
    }
    let n = a * pow2(149);
    let e = n as real / (b as real * u);
    let z = real_of(x) / real_of(y);
    let neg = x.minus() != y.minus();
    assert(n as real == a as real * u) by (nonlinear_arith)
        requires
            n == a * pow2(149),
            u == pow2(149) as real,
    ;
    let (ar, br) = (a as real, b as real);
    assert(e == ar / br) by (nonlinear_arith)
        requires
            e == (ar * u) / (br * u),
            br > 0real,
            u > 0real,
    ;
    let (p, q) = (ar / u, br / u);
    assert(q > 0real) by (nonlinear_arith)
        requires
            q == br / u,
            br > 0real,
            u > 0real,
    ;
    assert(p / q == e) by (nonlinear_arith)
        requires
            e == ar / br,
            p == ar / u,
            q == br / u,
            br > 0real,
            u > 0real,
            q > 0real,
    ;
    assert((-p) / q == -e && p / (-q) == -e && (-p) / (-q) == e) by (nonlinear_arith)
        requires
            p / q == e,
            q > 0real,
    ;
    assert((-ar) / u == -p && (-br) / u == -q) by (nonlinear_arith)
        requires
            p == ar / u,
            q == br / u,
            u > 0real,
    ;
    assert(z == (if neg {
        -e
    } else {
        e
    }));
    assert(e >= 0real) by (nonlinear_arith)
        requires
            e == ar / br,
            ar >= 0real,
            br > 0real,
    ;
    lemma_rounds_real(n, b, e);
    let t = round::units(round::nearest(n, b, 24), 24);
    assert(val(x / y) == (if neg {
        -(t as int)
    } else {
        t as int
    }));
    let (r, s) = (t as real / u, real_of(x / y));
    assert(s == (if neg {
        -r
    } else {
        r
    })) by (nonlinear_arith)
        requires
            val(x / y) as real == (if neg {
                -(t as real)
            } else {
                t as real
            }),
            r == t as real / u,
            s == val(x / y) as real / u,
            u > 0real,
    ;
}

/// A number stands for itself.
pub proof fn lemma_itself(x: Single, m: real)
    requires
        x.is_finite(),
        size(real_of(x)) <= m,
    ensures
        roughly(x, real_of(x), m, 0real),
{
    assert(0real * eps() * m == 0real) by (nonlinear_arith);
}

/// More roundings of larger numbers.
pub proof fn lemma_looser(x: Single, v: real, m: real, c: real, n: real, d: real)
    requires
        roughly(x, v, m, c),
        m <= n,
        0real <= c <= d,
    ensures
        roughly(x, v, n, d),
{
    assert(c * eps() * m <= d * eps() * n) by (nonlinear_arith)
        requires
            0real <= m <= n,
            0real <= c <= d,
            eps() == 1real / 16777216real,
    ;
}

/// A sum of numbers that were rounded before.
pub proof fn lemma_add(x: Single, v: real, m: real, y: Single, w: real, n: real, c: real)
    requires
        roughly(x, v, m, c),
        roughly(y, w, n, c),
        0real <= c <= 4000real,
        floor() <= m + n <= limit(),
    ensures
        roughly(x + y, v + w, m + n, c + 2real),
{
    lemma_constants();
    let k = m + n;
    let (a, b) = (real_of(x), real_of(y));
    let e = eps();
    assert(0real <= c * e * m && 0real <= c * e * n && c * e * m + c * e * n == c * e * k && c * e * k
        <= k / 4000real) by (nonlinear_arith)
        requires
            0real <= m,
            0real <= n,
            k == m + n,
            0real <= c <= 4000real,
            e == 1real / 16777216real,
    ;
    assert(size(a + b - (v + w)) <= c * e * k);
    assert(size(a + b) <= k + k / 4000real);
    lemma_sum(x, y);
    let r = real_of(x + y);
    assert(e * size(a + b) + tiny() <= 2real * e * k) by (nonlinear_arith)
        requires
            size(a + b) <= k + k / 4000real,
            2real * tiny() <= e * floor(),
            floor() <= k,
            e == 1real / 16777216real,
    ;
    assert((c + 2real) * e * k == c * e * k + 2real * e * k) by (nonlinear_arith);
}

/// The opposite of a number that was rounded before.
pub proof fn lemma_turned(x: Single, v: real, m: real, c: real)
    requires
        roughly(x, v, m, c),
    ensures
        roughly(x.negated(), -v, m, c),
{
    lemma_opposite(x);
}

/// A difference of numbers that were rounded before.
pub proof fn lemma_less(x: Single, v: real, m: real, y: Single, w: real, n: real, c: real)
    requires
        roughly(x, v, m, c),
        roughly(y, w, n, c),
        0real <= c <= 4000real,
        floor() <= m + n <= limit(),
    ensures
        roughly(x - y, v - w, m + n, c + 2real),
{
    lemma_turned(y, w, n, c);
    lemma_add(x, v, m, y.negated(), -w, n, c);
}

/// A product of numbers that were rounded before.
pub proof fn lemma_times(x: Single, v: real, m: real, c: real, y: Single, w: real, n: real, d: real)
    requires
        roughly(x, v, m, c),
        roughly(y, w, n, d),
        0real <= c <= 2000real,
        0real <= d <= 2000real,
        floor() <= m * n <= limit(),
    ensures
        roughly(x * y, v * w, m * n, c + d + 2real),
{
    lemma_constants();
    let k = m * n;
    let (a, b) = (real_of(x), real_of(y));
    let e = eps();
    let (p, q) = (a - v, b - w);
    let (f, g) = (c * e, d * e);
    assert(0real <= f <= 1real / 4000real && 0real <= g <= 1real / 4000real) by (nonlinear_arith)
        requires
            f == c * e,
            g == d * e,
            0real <= c <= 2000real,
            0real <= d <= 2000real,
            e == 1real / 16777216real,
    ;
    assert(size(v * w) <= k) by (nonlinear_arith)
        requires
            size(v) <= m,
            size(w) <= n,
            k == m * n,
    ;
    assert(a * b - v * w == v * q + p * w + p * q) by (nonlinear_arith)
        requires
            p == a - v,
            q == b - w,
    ;
    assert(size(v * q) <= g * k) by (nonlinear_arith)
        requires
            size(v) <= m,
            size(q) <= g * n,
            k == m * n,
            0real <= m,
            0real <= g * n,
    ;
    assert(size(p * w) <= f * k) by (nonlinear_arith)
        requires
            size(p) <= f * m,
            size(w) <= n,
            k == m * n,
            0real <= f * m,
            0real <= n,
    ;
    assert(size(p * q) <= f * g * k) by (nonlinear_arith)
        requires
            size(p) <= f * m,
            size(q) <= g * n,
            k == m * n,
            0real <= f * m,
            0real <= g * n,
    ;
    assert(0real <= f * g * k <= e * (k / 2real) && 0real <= f * k <= k / 4000real && 0real <= g * k <= k
        / 4000real) by (nonlinear_arith)
        requires
            0real <= k,
            f == c * e,
            g == d * e,
            0real <= c <= 2000real,
            0real <= d <= 2000real,
            e == 1real / 16777216real,
    ;
    assert(size(a * b) <= k + k / 1000real);
    lemma_product(x, y);
    assert(e * size(a * b) + tiny() <= e * (3real * k / 2real)) by (nonlinear_arith)
        requires
            size(a * b) <= k + k / 1000real,
            2real * tiny() <= e * floor() / 2real,
            floor() <= k,
            e == 1real / 16777216real,
    ;
    assert((c + d + 2real) * e * k == f * k + g * k + 2real * (e * k)) by (nonlinear_arith)
        requires
            f == c * e,
            g == d * e,
    ;
    assert(e * (3real * k / 2real) + e * (k / 2real) == 2real * (e * k)) by (nonlinear_arith);
}

/// A quotient of numbers that were rounded before.
pub proof fn lemma_over(x: Single, v: real, m: real, c: real, y: Single, w: real, d: real)
    requires
        roughly(x, v, m, c),
        roughly(y, w, size(w), d),
        w != 0real,
        0real <= c <= 2000real,
        0real <= d <= 2000real,
        floor() <= m / size(w) <= limit(),
    ensures
        roughly(x / y, v / w, m / size(w), c + d + 3real),
{
    lemma_constants();
    let n = size(w);
    let k = m / n;
    let (a, b) = (real_of(x), real_of(y));
    let e = eps();
    let (p, q) = (a - v, b - w);
    let (f, g) = (c * e, d * e);
    assert(0real <= f <= 1real / 8000real && 0real <= g <= 1real / 8000real) by (nonlinear_arith)
        requires
            f == c * e,
            g == d * e,
            0real <= c <= 2000real,
            0real <= d <= 2000real,
            e == 1real / 16777216real,
    ;
    assert(g * n <= n / 8000real) by (nonlinear_arith)
        requires
            g <= 1real / 8000real,
            n > 0real,
    ;
    assert(b != 0real && size(b) >= n - g * n);
    let (z, t) = (v / w, a / b);
    assert(m == k * n && v == z * w && a == t * b) by (nonlinear_arith)
        requires
            k == m / n,
            z == v / w,
            t == a / b,
            n > 0real,
            w != 0real,
            b != 0real,
    ;
    assert(size(z) <= k) by (nonlinear_arith)
        requires
            size(v) <= k * n,
            v == z * w,
            size(w) == n,
            n > 0real,
    ;
    let h = t - z;
    assert(h * b == p - z * q) by (nonlinear_arith)
        requires
            h == t - z,
            p == a - v,
            q == b - w,
            a == t * b,
            v == z * w,
    ;
    assert(size(z * q) <= g * k * n) by (nonlinear_arith)
        requires
            size(z) <= k,
            size(q) <= g * n,
            0real <= k,
            0real <= g * n,
    ;
    assert(size(p) <= f * k * n) by (nonlinear_arith)
        requires
            size(p) <= f * m,
            m == k * n,
    ;
    let s = (f + g) * k;
    assert(f * k * n + g * k * n == s * n) by (nonlinear_arith)
        requires
            s == (f + g) * k,
    ;
    assert(size(h * b) <= s * n);
    assert(0real <= s) by (nonlinear_arith)
        requires
            s == (f + g) * k,
            0real <= f,
            0real <= g,
            0real <= k,
    ;
    assert(size(h) * (1real - g) <= s) by (nonlinear_arith)
        requires
            size(h * b) <= s * n,
            size(b) >= n - g * n,
            0real <= g <= 1real / 8000real,
            n > 0real,
    ;
    assert(size(h) <= s + 2real * g * s) by (nonlinear_arith)
        requires
            size(h) * (1real - g) <= s,
            0real <= g <= 1real / 8000real,
            0real <= s,
            0real <= size(h),
    ;
    assert(2real * g * s <= e * k && 0real <= s <= k / 4000real) by (nonlinear_arith)
        requires
            s == (f + g) * k,
            f == c * e,
            g == d * e,
            0real <= c <= 2000real,
            0real <= d <= 2000real,
            e == 1real / 16777216real,
            0real <= k,
    ;
    assert(e * k <= k / 4000real) by (nonlinear_arith)
        requires
            e == 1real / 16777216real,
            0real <= k,
    ;
    assert(size(t) <= k + k / 1000real);
    lemma_ratio(x, y);
    assert(e * size(t) + tiny() <= e * (2real * k)) by (nonlinear_arith)
        requires
            size(t) <= k + k / 1000real,
            2real * tiny() <= e * floor(),
            floor() <= k,
            e == 1real / 16777216real,
    ;
    assert((c + d + 3real) * e * k == s + e * k + e * (2real * k)) by (nonlinear_arith)
        requires
            s == (f + g) * k,
            f == c * e,
            g == d * e,
    ;
}

/// A number below another stands for less.
pub proof fn lemma_real_order(x: Single, y: Single)
    requires
        x.is_finite(),
        y.is_finite(),
    ensures
        x.le(y) <==> real_of(x) <= real_of(y),
        x.lt(y) <==> real_of(x) < real_of(y),
{
    lemma_constants();
    order::lemma_val_order(x, y);
    let u = pow2(149) as real;
    let (a, b) = (val(x) as real, val(y) as real);
    assert((a <= b <==> a / u <= b / u) && (a < b <==> a / u < b / u)) by (nonlinear_arith)
        requires
            u > 0real,
    ;
}

/// What a word with a small exponent stands for.
pub proof fn lemma_word(w: u32, e: nat, q: nat, k: nat)
    requires
        w as nat == e * 0x80_0000 + q,
        0x80_0000 <= q < 0x100_0000,
        e + k == 149,
        w < 0x7f80_0000,
    ensures
        single::of(w).is_finite(),
        real_of(single::of(w)) == q as real / pow2(k) as real,
{
    lemma2_to64();
    lemma_pow2_pos(k);
    lemma_pow2_pos(e);
    order::lemma_units_at(e, q);
    lemma_pow2_adds(e, k);
    let (a, b, c, u) = (q as real, pow2(e) as real, pow2(k) as real, pow2(149) as real);
    assert(u == b * c) by (nonlinear_arith)
        requires
            pow2(149) == pow2(e) * pow2(k),
            u == pow2(149) as real,
            b == pow2(e) as real,
            c == pow2(k) as real,
    ;
    assert((q * pow2(e)) as real == a * b) by (nonlinear_arith)
        requires
            a == q as real,
            b == pow2(e) as real,
    ;
    assert((a * b) / u == a / c) by (nonlinear_arith)
        requires
            u == b * c,
            b > 0real,
            c > 0real,
    ;
}

/// What a count of up to 24 bits stands for.
pub proof fn lemma_count(n: int)
    requires
        0 <= n <= 0x100_0000,
    ensures
        Single::from_int(n).is_finite(),
        real_of(Single::from_int(n)) == n as real,
{
    lemma_constants();
    facts::lemma_single_from_int(n);
    let u = pow2(149) as real;
    assert((n * pow2(149)) as real == n as real * u) by (nonlinear_arith)
        requires
            u == pow2(149) as real,
    ;
    assert((n as real * u) / u == n as real) by (nonlinear_arith)
        requires
            u > 0real,
    ;
}

} // verus!
