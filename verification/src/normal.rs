//! What the networks' inputs stand for, as real numbers.

use crate::ieee::convert;
use crate::ieee::decimal;
use crate::ieee::near;
use crate::ieee::near::{eps, real_of, roughly, size};
use crate::ieee::single;
use crate::ieee::single::Single;
use crate::ieee::words;
use crate::pnp::linear;
use crate::preprocess;
use crate::preprocess::{baked, ColorNorm};
use crate::retinaface::{with_margin, Det};
use vstd::arithmetic::power2::*;
use vstd::prelude::*;

verus! {

/// A word that a fraction was rounded to.
proof fn lemma_fraction(w: u32, e: nat, q: nat, k: nat, p: real, v: real)
    requires
        w as nat == e * 0x80_0000 + q,
        0x80_0000 <= q < 0x100_0000,
        e + k == 149,
        w < 0x7f80_0000,
        pow2(k) as real == p,
        p > 0real,
        v > 0real,
        size(q as real / p - v) <= 1real * eps() * v,
    ensures
        roughly(single::of(w), v, v, 1real),
{
    let a = q as real;
    let r = a / p;
    assert(a == r * p) by (nonlinear_arith)
        requires
            r == a / p,
            p > 0real,
    ;
    words::lemma_word_value(w, e, q, k, p, r);
}

/// The means and the deviations of the colours.
proof fn lemma_colours()
    ensures
        roughly(single::of(preprocess::IMAGENET_MEAN_R), 485real / 1000real, 485real / 1000real, 1real),
        roughly(single::of(preprocess::IMAGENET_MEAN_G), 456real / 1000real, 456real / 1000real, 1real),
        roughly(single::of(preprocess::IMAGENET_MEAN_B), 406real / 1000real, 406real / 1000real, 1real),
        roughly(single::of(preprocess::IMAGENET_STD_R), 229real / 1000real, 229real / 1000real, 1real),
        roughly(single::of(preprocess::IMAGENET_STD_G), 224real / 1000real, 224real / 1000real, 1real),
        roughly(single::of(preprocess::IMAGENET_STD_B), 225real / 1000real, 225real / 1000real, 1real),
{
    lemma2_to64();
    lemma_fraction(preprocess::IMAGENET_MEAN_R, 124, 16273900, 25, 33554432real, 485real / 1000real);
    lemma_fraction(preprocess::IMAGENET_STD_R, 123, 15367930, 26, 67108864real, 229real / 1000real);
    lemma_fraction(preprocess::IMAGENET_MEAN_G, 124, 15300821, 25, 33554432real, 456real / 1000real);
    lemma_fraction(preprocess::IMAGENET_STD_G, 123, 15032386, 26, 67108864real, 224real / 1000real);
    lemma_fraction(preprocess::IMAGENET_MEAN_B, 124, 13623099, 25, 33554432real, 406real / 1000real);
    lemma_fraction(preprocess::IMAGENET_STD_B, 123, 15099494, 26, 67108864real, 225real / 1000real);
}

/// A sample that is scaled and biased.
proof fn lemma_sample(x: int, mean: u32, dev: u32, m: real, d: real)
    requires
        0 <= x < 256,
        roughly(single::of(mean), m, m, 1real),
        roughly(single::of(dev), d, d, 1real),
        2real / 10real <= d <= 3real / 10real,
        4real / 10real <= m <= 5real / 10real,
    ensures
        ({
            let (scale, bias) = (preprocess::inverse_std(dev), preprocess::mean_bias(mean, dev));
            let v = Single::from_int(x) * scale + bias;
            v.is_finite() && size(real_of(v) - (x as real / 255real - m) / d) <= 1real / 10000real
        }),
{
    let (mw, dw, one) = (single::of(mean), single::of(dev), single::of(single::ONE));
    let full = single::of(preprocess::FULL);
    lemma2_to64();
    words::lemma_words();
    words::lemma_word_value(preprocess::FULL, 133, 0xff_0000, 16, 65536real, 255real);
    near::lemma_itself(one, 1real);
    near::lemma_itself(full, 255real);
    near::lemma_times(dw, d, d, 1real, full, 255real, 255real, 0real);
    let df = d * 255real;
    assert(df == 255real * d) by (nonlinear_arith)
        requires
            df == d * 255real,
    ;
    let s = 1real / df;
    linear::lemma_quotient(1real, df);
    assert(s > 0real) by (nonlinear_arith)
        requires
            s * df == 1real,
            df > 0real,
    ;
    assert(s <= 2real / 100real) by (nonlinear_arith)
        requires
            s * df == 1real,
            df >= 51real,
            s > 0real,
    ;
    assert(s >= 1real / 100real) by (nonlinear_arith)
        requires
            s * df == 1real,
            df <= 100real,
            s > 0real,
    ;
    near::lemma_over(one, 1real, 1real, 0real, dw * full, df, 3real);
    let scale = one / (dw * full);
    near::lemma_count(x);
    let xs = Single::from_int(x);
    near::lemma_itself(xs, 255real);
    let xr = x as real;
    near::lemma_looser(scale, s, s, 6real, 2real / 100real, 12real);
    near::lemma_times(xs, xr, 255real, 0real, scale, s, 2real / 100real, 12real);
    assert(255real * (2real / 100real) == 51real / 10real);
    let b = m / d;
    linear::lemma_quotient(m, d);
    assert(b > 0real) by (nonlinear_arith)
        requires
            b * d == m,
            d > 0real,
            m > 0real,
    ;
    assert(b <= 3real) by (nonlinear_arith)
        requires
            b * d == m,
            d >= 2real / 10real,
            m <= 5real / 10real,
            b > 0real,
    ;
    assert(b >= 1real) by (nonlinear_arith)
        requires
            b * d == m,
            d <= 3real / 10real,
            m >= 4real / 10real,
            b > 0real,
    ;
    near::lemma_over(mw, m, m, 1real, dw, d, 1real);
    near::lemma_turned(mw / dw, b, b, 5real);
    let bias = (mw / dw).negated();
    near::lemma_looser(bias, -b, b, 5real, 3real, 14real);
    near::lemma_add(xs * scale, xr * s, 51real / 10real, bias, -b, 3real, 14real);
    let t = (xr / 255real - m) / d;
    linear::lemma_quotient(xr / 255real - m, d);
    let sd = s * d;
    assert(s * df == 255real * sd) by (nonlinear_arith)
        requires
            df == 255real * d,
            sd == s * d,
    ;
    linear::lemma_order(xr, s, d);
    assert(xr * sd == xr / 255real) by (nonlinear_arith)
        requires
            sd == 1real / 255real,
    ;
    let (p, z) = (xr * s, xr * s - b);
    assert((p - b) * d == p * d - b * d) by (nonlinear_arith);
    assert(z == t) by (nonlinear_arith)
        requires
            z * d == t * d,
            d > 0real,
    ;
}

/// The networks that were trained on ImageNet see red, green and blue planes, in which a sample of a picture of blue,
/// green and red ones stands for `(x / 255 - mean) / deviation` with the means and deviations of the colours, before
/// it is rounded to half precision.
pub proof fn lemma_imagenet_sample(norm: ColorNorm, x: int)
    requires
        norm.is_imagenet(),
        0 <= x < 256,
    ensures
        norm.src@ == seq![2usize, 1, 0],
        forall|c: int|
            0 <= c < 3 ==> #[trigger] norm.lut[c][x] == convert::half_word(
                Single::from_int(x) * norm.scale[c] + norm.bias[c],
            ),
        ({
            let v = |c: int| real_of(Single::from_int(x) * norm.scale[c] + norm.bias[c]);
            let f = x as real / 255real;
            &&& size(v(0) - (f - 485real / 1000real) / (229real / 1000real)) <= 1real / 10000real
            &&& size(v(1) - (f - 456real / 1000real) / (224real / 1000real)) <= 1real / 10000real
            &&& size(v(2) - (f - 406real / 1000real) / (225real / 1000real)) <= 1real / 10000real
        }),
{
    lemma_colours();
    lemma_sample(x, preprocess::IMAGENET_MEAN_R, preprocess::IMAGENET_STD_R, 485real / 1000real, 229real / 1000real);
    lemma_sample(x, preprocess::IMAGENET_MEAN_G, preprocess::IMAGENET_STD_G, 456real / 1000real, 224real / 1000real);
    lemma_sample(x, preprocess::IMAGENET_MEAN_B, preprocess::IMAGENET_STD_B, 406real / 1000real, 225real / 1000real);
    let (s, b) = (norm.scale@, norm.bias@);
    assert(s[0] == norm.scale[0] && s[1] == norm.scale[1] && s[2] == norm.scale[2]);
    assert(b[0] == norm.bias[0] && b[1] == norm.bias[1] && b[2] == norm.bias[2]);
    assert forall|c: int| 0 <= c < 3 implies #[trigger] norm.lut[c][x] == convert::half_word(
        Single::from_int(x) * norm.scale[c] + norm.bias[c],
    ) by {
        assert(0 <= norm.src[c] < 3);
        assert(norm.lut[c][x] == baked(x, norm.scale[c], norm.bias[c]));
    }
}

/// A face that was found is looked at with a margin: 15 percent of its width on either side and 20 percent of its height
/// above and below; but for rounding. Its corners are at most `m` in size.
pub proof fn lemma_margin(d: Det, m: real)
    requires
        d.x1.is_finite() && d.y1.is_finite() && d.x2.is_finite() && d.y2.is_finite(),
        size(real_of(d.x1)) <= m && size(real_of(d.y1)) <= m,
        size(real_of(d.x2)) <= m && size(real_of(d.y2)) <= m,
        1real <= m <= 1000000000000real,
    ensures
        ({
            let r = with_margin(d);
            let (w, h) = (real_of(d.x2) - real_of(d.x1), real_of(d.y2) - real_of(d.y1));
            &&& r.len() == 4
            &&& roughly(r[0], real_of(d.x1) - 15real / 100real * w, 4real * m, 12real)
            &&& roughly(r[1], real_of(d.y1) - 20real / 100real * h, 4real * m, 12real)
            &&& roughly(r[2], w + 2real * (15real / 100real * w), 4real * m, 12real)
            &&& roughly(r[3], h + 2real * (20real / 100real * h), 4real * m, 12real)
        }),
{
    lemma2_to64();
    lemma_fraction(decimal::N0_15, 123, 0x99_999a, 26, 67108864real, 15real / 100real);
    lemma_fraction(decimal::N0_2, 123, 0xcc_cccd, 26, 67108864real, 20real / 100real);
    lemma_margin_axis(d.x1, d.x2, decimal::N0_15, 15real / 100real, m);
    lemma_margin_axis(d.y1, d.y2, decimal::N0_2, 20real / 100real, m);
}

proof fn lemma_margin_axis(x: Single, y: Single, k: u32, v: real, m: real)
    requires
        x.is_finite() && y.is_finite(),
        size(real_of(x)) <= m && size(real_of(y)) <= m,
        1real <= m <= 1000000000000real,
        roughly(single::of(k), v, v, 1real),
        1real / 10real <= v <= 1real / 5real,
    ensures
        ({
            let b = y - x;
            let u = b * single::of(k);
            let w = real_of(y) - real_of(x);
            &&& roughly(x - u, real_of(x) - v * w, 4real * m, 12real)
            &&& roughly(b + u * single::of(decimal::N2), w + 2real * (v * w), 4real * m, 12real)
        }),
{
    let two = single::of(decimal::N2);
    words::lemma_words();
    near::lemma_itself(two, 2real);
    near::lemma_itself(x, m);
    near::lemma_itself(y, m);
    near::lemma_less(y, real_of(y), m, x, real_of(x), m, 0real);
    let (b, w) = (y - x, real_of(y) - real_of(x));
    let t = m + m;
    near::lemma_looser(single::of(k), v, v, 1real, 1real / 5real, 2real);
    near::lemma_times(b, w, t, 2real, single::of(k), v, 1real / 5real, 2real);
    let u = b * single::of(k);
    let n = t * (1real / 5real);
    assert(n == 4real * m / 10real && w * v == v * w) by (nonlinear_arith)
        requires
            n == t * (1real / 5real),
            t == m + m,
    ;
    near::lemma_looser(x, real_of(x), m, 0real, m, 6real);
    near::lemma_less(x, real_of(x), m, u, v * w, n, 6real);
    near::lemma_looser(x - u, real_of(x) - v * w, m + n, 8real, 4real * m, 12real);
    near::lemma_times(u, v * w, n, 6real, two, 2real, 2real, 0real);
    assert(n * 2real == 8real * m / 10real && (v * w) * 2real == 2real * (v * w)) by (nonlinear_arith)
        requires
            n == 4real * m / 10real,
    ;
    near::lemma_looser(b, w, t, 2real, t, 8real);
    near::lemma_add(b, w, t, u * two, 2real * (v * w), 8real * m / 10real, 8real);
    near::lemma_looser(b + u * two, w + 2real * (v * w), t + 8real * m / 10real, 10real, 4real * m, 12real);
}

} // verus!
