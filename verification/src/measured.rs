//! What the measures of a face say of its points, as real numbers.

use crate::features;
use crate::features::{FOUR, SIX, SMALL, THREE, TWO};
use crate::ieee::near;
use crate::ieee::near::{eps, real_of, roughly, size};
use crate::ieee::rises;
use crate::ieee::single;
use crate::ieee::single::Single;
use crate::ieee::words;
use vstd::arithmetic::power2::*;
use vstd::prelude::*;

verus! {

/// Whether the coordinates of the points of a face are numbers of at most `b` in size.
pub open spec fn points_within(p: Seq<[Single; 3]>, b: real) -> bool {
    &&& p.len() >= 66
    &&& forall|i: int, c: int|
        0 <= i < 66 && 0 <= c < 3 ==> (#[trigger] p[i][c]).is_finite() && size(real_of(p[i][c])) <= b
}

/// A coordinate as a real number.
pub open spec fn at(p: Seq<[Single; 3]>, i: int, c: int) -> real {
    real_of(p[i][c])
}

/// A mean of three heights.
pub open spec fn mean_height(p: Seq<[Single; 3]>, i: int, j: int, k: int) -> real {
    (at(p, i, 1) + at(p, j, 1) + at(p, k, 1)) / 3real
}

/// The length of the bridge of the nose, of which each of its three parts is a third.
pub open spec fn bridge(p: Seq<[Single; 3]>) -> real {
    size(at(p, 27, 1) - at(p, 30, 1)) / 3real
}

/// The width of the face: the mean of its two upper lines across.
pub open spec fn breadth(p: Seq<[Single; 3]>) -> real {
    size(at(p, 0, 0) - at(p, 16, 0) + at(p, 1, 0) - at(p, 15, 0)) / 2real
}

proof fn lemma_counts()
    ensures
        single::of(TWO).is_finite() && real_of(single::of(TWO)) == 2real,
        single::of(THREE).is_finite() && real_of(single::of(THREE)) == 3real,
        single::of(FOUR).is_finite() && real_of(single::of(FOUR)) == 4real,
        single::of(SIX).is_finite() && real_of(single::of(SIX)) == 6real,
        single::of(single::ONE).is_finite() && real_of(single::of(single::ONE)) == 1real,
        single::of(SMALL).is_finite() && 0real <= real_of(single::of(SMALL)) <= 1real / 500000real,
{
    lemma2_to64();
    words::lemma_words();
    words::lemma_word_value(THREE, 127, 0xc0_0000, 22, 4194304real, 3real);
    words::lemma_word_value(FOUR, 128, 0x80_0000, 21, 2097152real, 4real);
    words::lemma_word_value(SIX, 128, 0xc0_0000, 21, 2097152real, 6real);
    lemma_pow2_adds(21, 22);
    words::lemma_word_value(SMALL, 106, 0x86_37bd, 43, 8796093022208real, 8796093real / 8796093022208real);
}

/// A number without its sign.
pub proof fn lemma_abs(x: Single, v: real, m: real, c: real)
    requires
        roughly(x, v, m, c),
    ensures
        roughly(x.abs(), size(v), m, c),
        real_of(x.abs()) == size(real_of(x)),
        x.abs().is_finite(),
{
    near::lemma_opposite(x);
    words::lemma_nothing();
    near::lemma_real_order(x, single::of(0));
    if x.minus() {
        assert(x.abs() == x.negated());
    } else {
        assert(x.abs() == x);
    }
}

/// The sum of two coordinates, and their difference.
pub proof fn lemma_pair(x: Single, y: Single, b: real)
    requires
        x.is_finite() && y.is_finite(),
        size(real_of(x)) <= b,
        size(real_of(y)) <= b,
        words::least() <= b <= words::most(),
    ensures
        roughly(x + y, real_of(x) + real_of(y), 2real * b, 2real),
        roughly(x - y, real_of(x) - real_of(y), 2real * b, 2real),
{
    near::lemma_itself(x, b);
    near::lemma_itself(y, b);
    near::lemma_add(x, real_of(x), b, y, real_of(y), b, 0real);
    near::lemma_less(x, real_of(x), b, y, real_of(y), b, 0real);
}

/// The mean of three heights.
proof fn lemma_mean(p: Seq<[Single; 3]>, i: int, j: int, k: int, b: real)
    requires
        points_within(p, b),
        0 <= i < 66 && 0 <= j < 66 && 0 <= k < 66,
        words::least() <= b <= words::most(),
    ensures
        roughly(features::mean3(p, i, j, k), mean_height(p, i, j, k), b, 7real),
{
    lemma_counts();
    assert(p[i][1].is_finite() && p[j][1].is_finite() && p[k][1].is_finite());
    lemma_pair(p[i][1], p[j][1], b);
    let s = p[i][1] + p[j][1];
    near::lemma_itself(p[k][1], b);
    near::lemma_looser(p[k][1], at(p, k, 1), b, 0real, b, 2real);
    near::lemma_add(s, at(p, i, 1) + at(p, j, 1), 2real * b, p[k][1], at(p, k, 1), b, 2real);
    near::lemma_itself(single::of(THREE), 3real);
    let t = at(p, i, 1) + at(p, j, 1) + at(p, k, 1);
    near::lemma_over(s + p[k][1], t, 2real * b + b, 4real, single::of(THREE), 3real, 0real);
    assert((2real * b + b) / 3real == b);
}

/// Whether a length that others are measured in is large enough: `b` is at most 64 times as large.
pub open spec fn measures(n: real, b: real) -> bool {
    &&& 1real / 100000real <= n
    &&& n <= 3real * b
    &&& b <= 64real * n
    &&& b <= 1000000000000real
}

/// A length that others are measured in.
proof fn lemma_norm(x: Single, n: real, b: real)
    requires
        x.is_finite(),
        size(real_of(x) - n) <= 20real * eps() * b,
        measures(n, b),
    ensures
        roughly(x.max(single::of(SMALL)), n, size(n), 20real * (b / n)),
        x.max(single::of(SMALL)) == x,
        single::of(0).lt(x),
        0real < b / n <= 64real,
        1real / 3real <= b / n,
{
    let k = b / n;
    let e = eps();
    assert(0real < k <= 64real && k >= 1real / 3real && k * n == b) by (nonlinear_arith)
        requires
            k == b / n,
            n <= 3real * b,
            b <= 64real * n,
            n >= 1real / 100000real,
    ;
    assert(20real * k * e * n == 20real * e * b) by (nonlinear_arith)
        requires
            k * n == b,
    ;
    assert(20real * e * b <= n / 1000real) by (nonlinear_arith)
        requires
            e == 1real / 16777216real,
            b <= 64real * n,
            n > 0real,
    ;
    lemma_counts();
    words::lemma_nothing();
    near::lemma_real_order(x, single::of(SMALL));
    near::lemma_real_order(single::of(0), x);
}

/// The height that distances up and down are measured in is a third of the bridge of the nose, and
/// the width that distances across are measured in is that of the face; but for rounding.
pub proof fn lemma_norms(p: Seq<[Single; 3]>, b: real)
    requires
        points_within(p, b),
    ensures
        measures(bridge(p), b) ==> {
            let (n, k) = (features::norm_y(p), b / bridge(p));
            roughly(n, bridge(p), bridge(p), 20real * k) && single::of(0).lt(n) && 1real / 3real <= k <= 64real
        },
        measures(breadth(p), b) ==> {
            let (n, k) = (features::norm_x(p), b / breadth(p));
            roughly(n, breadth(p), breadth(p), 20real * k) && single::of(0).lt(n) && 1real / 3real <= k <= 64real
        },
{
    lemma_counts();
    assert(p[27][1].is_finite() && p[28][1].is_finite() && p[29][1].is_finite() && p[30][1].is_finite());
    assert(p[0][0].is_finite() && p[1][0].is_finite() && p[15][0].is_finite() && p[16][0].is_finite());
    let (two, three) = (single::of(TWO), single::of(THREE));
    near::lemma_itself(two, 2real);
    near::lemma_itself(three, 3real);
    if measures(bridge(p), b) {
        let (y7, y8, y9, y0) = (at(p, 27, 1), at(p, 28, 1), at(p, 29, 1), at(p, 30, 1));
        let (x, y, z) = (p[27][1] - p[28][1], p[28][1] - p[29][1], p[29][1] - p[30][1]);
        lemma_pair(p[27][1], p[28][1], b);
        lemma_pair(p[28][1], p[29][1], b);
        lemma_pair(p[29][1], p[30][1], b);
        near::lemma_add(x, y7 - y8, 2real * b, y, y8 - y9, 2real * b, 2real);
        near::lemma_looser(z, y9 - y0, 2real * b, 2real, 2real * b, 4real);
        let v = (y7 - y8) + (y8 - y9) + (y9 - y0);
        near::lemma_add(x + y, (y7 - y8) + (y8 - y9), 2real * b + 2real * b, z, y9 - y0, 2real * b, 4real);
        let six = 2real * b + 2real * b + 2real * b;
        near::lemma_over(x + y + z, v, six, 6real, three, 3real, 0real);
        assert(six / 3real == 2real * b && v == y7 - y0);
        let q = (x + y + z) / three;
        lemma_abs(q, v / 3real, 2real * b, 9real);
        assert(size(v / 3real) == bridge(p));
        assert(9real * eps() * (2real * b) <= 20real * eps() * b) by (nonlinear_arith)
            requires
                eps() == 1real / 16777216real,
                b > 0real,
        ;
        lemma_norm(q.abs(), bridge(p), b);
    }
    if measures(breadth(p), b) {
        let (x0, x1, x5, x6) = (at(p, 0, 0), at(p, 1, 0), at(p, 15, 0), at(p, 16, 0));
        let (x, y) = (p[0][0] - p[16][0], p[1][0] - p[15][0]);
        lemma_pair(p[0][0], p[16][0], b);
        lemma_pair(p[1][0], p[15][0], b);
        near::lemma_add(x, x0 - x6, 2real * b, y, x1 - x5, 2real * b, 2real);
        let v = (x0 - x6) + (x1 - x5);
        let four = 2real * b + 2real * b;
        near::lemma_over(x + y, v, four, 4real, two, 2real, 0real);
        assert(four / 2real == 2real * b);
        let q = (x + y) / two;
        lemma_abs(q, v / 2real, 2real * b, 7real);
        assert(size(v / 2real) == breadth(p));
        assert(7real * eps() * (2real * b) <= 20real * eps() * b) by (nonlinear_arith)
            requires
                eps() == 1real / 16777216real,
                b > 0real,
        ;
        lemma_norm(q.abs(), breadth(p), b);
    }
}

/// How far a measure may lie from what it stands for, for points of at most `b` that are at most `k`
/// times the length that they are measured in.
pub open spec fn slack(k: real, b: real) -> real {
    (20real * k + 60real) * eps() * (40real * k + 8real + b)
}

/// Whether `x` stands for `v`, as far as a measure does.
pub open spec fn says(x: Single, v: real, k: real, b: real) -> bool {
    x.is_finite() && size(real_of(x) - v) <= slack(k, b)
}

/// What is known of a measure, told less closely.
proof fn lemma_says(x: Single, v: real, m: real, c: real, k: real, b: real)
    requires
        roughly(x, v, m, c),
        0real <= c <= 20real * k + 60real,
        m <= 40real * k + 8real + b,
    ensures
        says(x, v, k, b),
{
    let e = eps();
    let (d, n) = (20real * k + 60real, 40real * k + 8real + b);
    assert(c * e * m <= d * e * n) by (nonlinear_arith)
        requires
            0real <= c <= d,
            0real <= m <= n,
            e == 1real / 16777216real,
    ;
}

/// A distance over a length.
pub proof fn lemma_measure(x: Single, v: real, m: real, n: Single, w: real, b: real)
    requires
        roughly(x, v, m, 20real),
        m <= 6real * b,
        words::least() <= m,
        measures(w, b),
        roughly(n, w, w, 20real * (b / w)),
    ensures
        roughly(x / n, v / w, 6real * (b / w), 20real * (b / w) + 23real),
        1real / 3real <= b / w <= 64real,
{
    let k = b / w;
    assert(1real / 3real <= k <= 64real && k * w == b) by (nonlinear_arith)
        requires
            k == b / w,
            w <= 3real * b,
            b <= 64real * w,
            w >= 1real / 100000real,
    ;
    let six = 6real * b;
    near::lemma_looser(x, v, m, 20real, six, 20real);
    assert(size(w) == w);
    assert(six / w == 6real * k) by (nonlinear_arith)
        requires
            six == 6real * b,
            k * w == b,
            w > 0real,
    ;
    near::lemma_over(x, v, six, 20real, n, w, 20real * k);
    let (c, d) = (20real + 20real * k + 3real, 20real * k + 23real);
    assert(c == d);
}

/// The sum of six coordinates, over six.
proof fn lemma_sixth(p: Seq<[Single; 3]>, i: int, j: int, k: int, l: int, m: int, n: int, c: int, b: real)
    requires
        points_within(p, b),
        0 <= i < 66 && 0 <= j < 66 && 0 <= k < 66 && 0 <= l < 66 && 0 <= m < 66 && 0 <= n < 66,
        0 <= c < 3,
        words::least() <= b <= 1000000000000real,
    ensures
        roughly(
            (p[i][c] + p[j][c] + p[k][c] + p[l][c] + p[m][c] + p[n][c]) / single::of(SIX),
            (at(p, i, c) + at(p, j, c) + at(p, k, c) + at(p, l, c) + at(p, m, c) + at(p, n, c)) / 6real,
            b,
            13real,
        ),
{
    lemma_counts();
    assert(p[i][c].is_finite() && p[j][c].is_finite() && p[k][c].is_finite());
    assert(p[l][c].is_finite() && p[m][c].is_finite() && p[n][c].is_finite());
    lemma_pair(p[i][c], p[j][c], b);
    let (s2, v2) = (p[i][c] + p[j][c], at(p, i, c) + at(p, j, c));
    lemma_more(s2, v2, 2real * b, 2real, p[k][c], b);
    let (s3, v3) = (s2 + p[k][c], v2 + at(p, k, c));
    lemma_more(s3, v3, 3real * b, 4real, p[l][c], b);
    let (s4, v4) = (s3 + p[l][c], v3 + at(p, l, c));
    lemma_more(s4, v4, 4real * b, 6real, p[m][c], b);
    let (s5, v5) = (s4 + p[m][c], v4 + at(p, m, c));
    lemma_more(s5, v5, 5real * b, 8real, p[n][c], b);
    let (s6, v6) = (s5 + p[n][c], v5 + at(p, n, c));
    near::lemma_itself(single::of(SIX), 6real);
    near::lemma_over(s6, v6, 6real * b, 10real, single::of(SIX), 6real, 0real);
    assert(6real * b / 6real == b);
}

/// One more coordinate in a sum, or less.
proof fn lemma_more(s: Single, v: real, m: real, c: real, x: Single, b: real)
    requires
        roughly(s, v, m, c),
        0real <= c <= 1000real,
        x.is_finite(),
        size(real_of(x)) <= b,
        words::least() <= b <= words::most(),
        m <= 100real * b,
    ensures
        roughly(s + x, v + real_of(x), m + b, c + 2real),
        roughly(s - x, v - real_of(x), m + b, c + 2real),
{
    near::lemma_itself(x, b);
    near::lemma_looser(x, real_of(x), b, 0real, b, c);
    near::lemma_add(s, v, m, x, real_of(x), b, c);
    near::lemma_less(s, v, m, x, real_of(x), b, c);
}

/// What brows, corners of the mouth, lips and chin say of heights: how far a brow stands above the bridge
/// of the nose, a corner of the mouth below the upper lip, the lips apart and the chin below the nose, all
/// in thirds of the bridge of the nose; but for rounding.
pub proof fn lemma_heights(p: Seq<[Single; 3]>, t: features::Turns, b: real)
    requires
        points_within(p, b),
        measures(bridge(p), b),
    ensures
        ({
            let m = features::measures_of(p, t);
            let (n, k) = (bridge(p), b / bridge(p));
            &&& says(m.brow_l, ((at(p, 22, 1) + at(p, 26, 1)) / 2real - at(p, 27, 1)) / n, k, b)
            &&& says(m.brow_r, ((at(p, 17, 1) + at(p, 21, 1)) / 2real - at(p, 27, 1)) / n, k, b)
            &&& says(m.corner_l, (mean_height(p, 49, 50, 51) - at(p, 62, 1)) / n, k, b)
            &&& says(m.corner_r, (mean_height(p, 49, 50, 51) - at(p, 58, 1)) / n, k, b)
            &&& says(m.gap, size(mean_height(p, 59, 60, 61) - mean_height(p, 63, 64, 65)) / n, k, b)
            &&& says(m.jaw, size(at(p, 30, 1) - at(p, 8, 1)) / n, k, b)
        }),
{
    reveal(features::measures_of);
    let (n, k) = (bridge(p), b / bridge(p));
    lemma_norms(p, b);
    lemma_brow(p, 22, 26, b);
    lemma_brow(p, 17, 21, b);
    lemma_corner(p, 62, b);
    lemma_corner(p, 58, b);
    let y = features::norm_y(p);
    assert(p[30][1].is_finite() && p[8][1].is_finite());
    lemma_pair(p[30][1], p[8][1], b);
    let (j, vj) = (p[30][1] - p[8][1], at(p, 30, 1) - at(p, 8, 1));
    lemma_abs(j, vj, 2real * b, 2real);
    near::lemma_looser(j.abs(), size(vj), 2real * b, 2real, 2real * b, 20real);
    lemma_measure(j.abs(), size(vj), 2real * b, y, n, b);
    lemma_says(j.abs() / y, size(vj) / n, 6real * k, 20real * k + 23real, k, b);
    lemma_mean(p, 59, 60, 61, b);
    lemma_mean(p, 63, 64, 65, b);
    let (u, l) = (mean_height(p, 59, 60, 61), mean_height(p, 63, 64, 65));
    let (su, sl) = (features::mean3(p, 59, 60, 61), features::mean3(p, 63, 64, 65));
    near::lemma_less(su, u, b, sl, l, b, 7real);
    lemma_abs(su - sl, u - l, b + b, 9real);
    near::lemma_looser((su - sl).abs(), size(u - l), b + b, 9real, b + b, 20real);
    lemma_measure((su - sl).abs(), size(u - l), b + b, y, n, b);
    lemma_says((su - sl).abs() / y, size(u - l) / n, 6real * k, 20real * k + 23real, k, b);
}

proof fn lemma_brow(p: Seq<[Single; 3]>, i: int, j: int, b: real)
    requires
        points_within(p, b),
        measures(bridge(p), b),
        0 <= i < 66 && 0 <= j < 66,
    ensures
        says(
            features::brow_height(p, i, j),
            ((at(p, i, 1) + at(p, j, 1)) / 2real - at(p, 27, 1)) / bridge(p),
            b / bridge(p),
            b,
        ),
        ((p[i][1] + p[j][1]) / single::of(TWO)).is_finite(),
        ((p[i][1] + p[j][1]) / single::of(TWO) - p[27][1]).is_finite(),
        (p[i][1] + p[j][1]).is_finite(),
{
    let (n, k) = (bridge(p), b / bridge(p));
    lemma_counts();
    lemma_norms(p, b);
    assert(p[i][1].is_finite() && p[j][1].is_finite() && p[27][1].is_finite());
    lemma_pair(p[i][1], p[j][1], b);
    let (x, v) = (p[i][1] + p[j][1], at(p, i, 1) + at(p, j, 1));
    near::lemma_itself(single::of(TWO), 2real);
    near::lemma_over(x, v, 2real * b, 2real, single::of(TWO), 2real, 0real);
    assert(2real * b / 2real == b);
    lemma_more(x / single::of(TWO), v / 2real, b, 5real, p[27][1], b);
    let (d, w) = (x / single::of(TWO) - p[27][1], v / 2real - at(p, 27, 1));
    near::lemma_looser(d, w, b + b, 7real, b + b, 20real);
    lemma_measure(d, w, b + b, features::norm_y(p), n, b);
    lemma_says(d / features::norm_y(p), w / n, 6real * k, 20real * k + 23real, k, b);
}

proof fn lemma_corner(p: Seq<[Single; 3]>, i: int, b: real)
    requires
        points_within(p, b),
        measures(bridge(p), b),
        0 <= i < 66,
    ensures
        says(
            features::corner_height(p, i),
            (mean_height(p, 49, 50, 51) - at(p, i, 1)) / bridge(p),
            b / bridge(p),
            b,
        ),
{
    let (n, k) = (bridge(p), b / bridge(p));
    lemma_norms(p, b);
    assert(p[i][1].is_finite());
    lemma_mean(p, 49, 50, 51, b);
    let (x, v) = (features::mean3(p, 49, 50, 51), mean_height(p, 49, 50, 51));
    lemma_more(x, v, b, 7real, p[i][1], b);
    let (d, w) = (x - p[i][1], v - at(p, i, 1));
    near::lemma_looser(d, w, b + b, 9real, b + b, 20real);
    lemma_measure(d, w, b + b, features::norm_y(p), n, b);
    lemma_says(d / features::norm_y(p), w / n, 6real * k, 20real * k + 23real, k, b);
}

/// What the mouth says of widths: how wide it is, how far each corner lies from the middle of the face, and
/// how far the mouth lies to the side, in widths of the face, the latter from one on; but for rounding.
pub proof fn lemma_widths(p: Seq<[Single; 3]>, t: features::Turns, b: real)
    requires
        points_within(p, b),
        measures(breadth(p), b),
    ensures
        ({
            let m = features::measures_of(p, t);
            let (n, k) = (breadth(p), b / breadth(p));
            let middle = (at(p, 50, 0) + at(p, 60, 0) + at(p, 27, 0) + at(p, 30, 0) + at(p, 64, 0) + at(
                p,
                55,
                0,
            )) / 6real;
            let mouth = (at(p, 50, 0) + at(p, 55, 0) + at(p, 58, 0) + at(p, 60, 0) + at(p, 62, 0) + at(
                p,
                64,
                0,
            )) / 6real;
            &&& says(m.width, size(at(p, 58, 0) - at(p, 62, 0)) / n, k, b)
            &&& says(m.side_l, size(middle - at(p, 62, 0)) / n, k, b)
            &&& says(m.side_r, size(middle - at(p, 58, 0)) / n, k, b)
            &&& says(m.shift, mouth / n + 1real, k, b)
        }),
{
    reveal(features::measures_of);
    let (n, k) = (breadth(p), b / breadth(p));
    let x = features::norm_x(p);
    lemma_norms(p, b);
    lemma_counts();
    lemma_mouth_width(p, b);
    lemma_says(
        features::mouth_width(p),
        size(at(p, 58, 0) - at(p, 62, 0)) / n,
        6real * k,
        20real * k + 23real,
        k,
        b,
    );
    lemma_side(p, 62, b);
    lemma_side(p, 58, b);
    lemma_sixth(p, 50, 55, 58, 60, 62, 64, 0, b);
    let mouth = (at(p, 50, 0) + at(p, 55, 0) + at(p, 58, 0) + at(p, 60, 0) + at(p, 62, 0) + at(p, 64, 0)) / 6real;
    let s = (p[50][0] + p[55][0] + p[58][0] + p[60][0] + p[62][0] + p[64][0]) / single::of(SIX);
    near::lemma_looser(s, mouth, b, 13real, b, 20real);
    lemma_measure(s, mouth, b, x, n, b);
    let c = 20real * k + 23real;
    near::lemma_itself(single::of(single::ONE), 1real);
    near::lemma_looser(single::of(single::ONE), 1real, 1real, 0real, 1real, c);
    near::lemma_add(s / x, mouth / n, 6real * k, single::of(single::ONE), 1real, 1real, c);
    lemma_says(s / x + single::of(single::ONE), mouth / n + 1real, 6real * k + 1real, c + 2real, k, b);
}

proof fn lemma_mouth_width(p: Seq<[Single; 3]>, b: real)
    requires
        points_within(p, b),
        measures(breadth(p), b),
    ensures
        ({
            let k = b / breadth(p);
            roughly(
                features::mouth_width(p),
                size(at(p, 58, 0) - at(p, 62, 0)) / breadth(p),
                6real * k,
                20real * k + 23real,
            ) && 1real / 3real <= k <= 64real
        }),
{
    let n = breadth(p);
    lemma_norms(p, b);
    assert(p[58][0].is_finite() && p[62][0].is_finite());
    lemma_pair(p[58][0], p[62][0], b);
    let (d, v) = (p[58][0] - p[62][0], at(p, 58, 0) - at(p, 62, 0));
    lemma_abs(d, v, 2real * b, 2real);
    near::lemma_looser(d.abs(), size(v), 2real * b, 2real, 2real * b, 20real);
    lemma_measure(d.abs(), size(v), 2real * b, features::norm_x(p), n, b);
}

proof fn lemma_side(p: Seq<[Single; 3]>, i: int, b: real)
    requires
        points_within(p, b),
        measures(breadth(p), b),
        0 <= i < 66,
    ensures
        says(
            features::corner_width(p, i),
            size(
                (at(p, 50, 0) + at(p, 60, 0) + at(p, 27, 0) + at(p, 30, 0) + at(p, 64, 0) + at(p, 55, 0)) / 6real
                    - at(p, i, 0),
            ) / breadth(p),
            b / breadth(p),
            b,
        ),
{
    let (n, k) = (breadth(p), b / breadth(p));
    lemma_norms(p, b);
    lemma_sixth(p, 50, 60, 27, 30, 64, 55, 0, b);
    assert(p[i][0].is_finite());
    let middle = (at(p, 50, 0) + at(p, 60, 0) + at(p, 27, 0) + at(p, 30, 0) + at(p, 64, 0) + at(p, 55, 0)) / 6real;
    let s = (p[50][0] + p[60][0] + p[27][0] + p[30][0] + p[64][0] + p[55][0]) / single::of(SIX);
    lemma_more(s, middle, b, 13real, p[i][0], b);
    let (d, v) = (s - p[i][0], middle - at(p, i, 0));
    lemma_abs(d, v, b + b, 15real);
    near::lemma_looser(d.abs(), size(v), b + b, 15real, b + b, 20real);
    lemma_measure(d.abs(), size(v), b + b, features::norm_x(p), n, b);
    lemma_says(d.abs() / features::norm_x(p), size(v) / n, 6real * k, 20real * k + 23real, k, b);
}

/// What pressed and puckered lips say, and full cheeks: lips are pressed as the outer lips lie close to nose
/// and chin and to the inner lips, from six on; a mouth is puckered as it is narrow and comes forward; and
/// cheeks are full as they are wide, in distances between the outer corners of the eyes, and come forward;
/// but for rounding.
pub proof fn lemma_lips_and_cheeks(p: Seq<[Single; 3]>, t: features::Turns, b: real)
    requires
        points_within(p, b),
        measures(bridge(p), b),
        measures(breadth(p), b),
        measures(size(at(p, 36, 0) - at(p, 45, 0)), b),
    ensures
        ({
            let m = features::measures_of(p, t);
            let (ny, nx, ne) = (bridge(p), breadth(p), size(at(p, 36, 0) - at(p, 45, 0)));
            let (upper, lower) = (mean_height(p, 49, 50, 51), mean_height(p, 54, 55, 56));
            let (above, below) = (mean_height(p, 59, 60, 61), mean_height(p, 63, 64, 65));
            let press = (upper - at(p, 30, 1)) / ny - (lower - at(p, 8, 1)) / ny + 8real / 10real * ((upper
                - above) + (below - lower)) / ny + 6real;
            let forward = (at(p, 48, 2) + at(p, 52, 2) + at(p, 58, 2) + at(p, 62, 2)) / 4real - at(p, 30, 2);
            let cheeks = (size(at(p, 2, 0) - at(p, 14, 0)) + size(at(p, 3, 0) - at(p, 13, 0))) / 2real;
            let full = (at(p, 2, 2) + at(p, 3, 2) + at(p, 4, 2) + at(p, 12, 2) + at(p, 13, 2) + at(p, 14, 2)) / 6real;
            &&& says(m.press, press, b / ny, b)
            &&& says(m.pucker, 1real - size(at(p, 58, 0) - at(p, 62, 0)) / nx + 1real / 2real * forward, b / nx, b)
            &&& says(m.cheeks, cheeks / ne + 1real / 2real * full, b / ne, b)
        }),
{
    reveal(features::measures_of);
    lemma_press(p, b);
    lemma_pucker(p, b);
    lemma_cheeks(p, b);
}

proof fn lemma_press(p: Seq<[Single; 3]>, b: real)
    requires
        points_within(p, b),
        measures(bridge(p), b),
    ensures
        ({
            let ny = bridge(p);
            let (upper, lower) = (mean_height(p, 49, 50, 51), mean_height(p, 54, 55, 56));
            let (above, below) = (mean_height(p, 59, 60, 61), mean_height(p, 63, 64, 65));
            let press = (upper - at(p, 30, 1)) / ny - (lower - at(p, 8, 1)) / ny + 8real / 10real * ((upper
                - above) + (below - lower)) / ny + 6real;
            says(features::lip_press(p), press, b / ny, b)
        }),
{
    let n = bridge(p);
    let k = b / n;
    let y = features::norm_y(p);
    let (upper, lower) = (mean_height(p, 49, 50, 51), mean_height(p, 54, 55, 56));
    let (above, below) = (mean_height(p, 59, 60, 61), mean_height(p, 63, 64, 65));
    let (su, sl) = (features::mean3(p, 49, 50, 51), features::mean3(p, 54, 55, 56));
    let (sa, sb) = (features::mean3(p, 59, 60, 61), features::mean3(p, 63, 64, 65));
    lemma_norms(p, b);
    lemma_counts();
    lemma_mean(p, 49, 50, 51, b);
    lemma_mean(p, 54, 55, 56, b);
    lemma_mean(p, 59, 60, 61, b);
    lemma_mean(p, 63, 64, 65, b);
    assert(p[30][1].is_finite() && p[8][1].is_finite());
    let (tip, chin) = (at(p, 30, 1), at(p, 8, 1));
    near::lemma_itself(p[30][1], b);
    near::lemma_looser(p[30][1], tip, b, 0real, b, 7real);
    near::lemma_less(p[30][1], tip, b, su, upper, b, 7real);
    near::lemma_turned(p[30][1] - su, tip - upper, b + b, 9real);
    let d = (p[30][1] - su).negated();
    assert(-(tip - upper) == upper - tip);
    near::lemma_looser(d, upper - tip, b + b, 9real, b + b, 20real);
    lemma_measure(d, upper - tip, b + b, y, n, b);
    lemma_more(sl, lower, b, 7real, p[8][1], b);
    near::lemma_looser(sl - p[8][1], lower - chin, b + b, 9real, b + b, 20real);
    lemma_measure(sl - p[8][1], lower - chin, b + b, y, n, b);
    let c = 20real * k + 23real;
    let (x1, v1) = (d / y, (upper - tip) / n);
    let (x2, v2) = ((sl - p[8][1]) / y, (lower - chin) / n);
    near::lemma_less(x1, v1, 6real * k, x2, v2, 6real * k, c);
    near::lemma_less(su, upper, b, sa, above, b, 7real);
    near::lemma_less(sb, below, b, sl, lower, b, 7real);
    near::lemma_add(su - sa, upper - above, b + b, sb - sl, below - lower, b + b, 9real);
    let (g, vg) = ((su - sa) + (sb - sl), (upper - above) + (below - lower));
    let w = single::of(features::PRESS_W);
    lemma_press_weight();
    let four = b + b + (b + b);
    assert(8real / 10real * four <= 6real * b && 8real / 10real * four >= words::least());
    near::lemma_times(w, 8real / 10real, 8real / 10real, 1real, g, vg, four, 11real);
    near::lemma_looser(w * g, 8real / 10real * vg, 8real / 10real * four, 14real, 8real / 10real * four, 20real);
    lemma_measure(w * g, 8real / 10real * vg, 8real / 10real * four, y, n, b);
    let (x3, v3) = (w * g / y, 8real / 10real * vg / n);
    near::lemma_looser(x3, v3, 6real * k, c, 6real * k, c + 2real);
    near::lemma_add(x1 - x2, v1 - v2, 6real * k + 6real * k, x3, v3, 6real * k, c + 2real);
    let six = single::of(SIX);
    near::lemma_itself(six, 6real);
    near::lemma_looser(six, 6real, 6real, 0real, 6real, c + 4real);
    let m = 6real * k + 6real * k + 6real * k;
    near::lemma_add(x1 - x2 + x3, v1 - v2 + v3, m, six, 6real, 6real, c + 4real);
    lemma_says(x1 - x2 + x3 + six, v1 - v2 + v3 + 6real, m + 6real, c + 6real, k, b);
}

proof fn lemma_press_weight()
    ensures
        roughly(single::of(features::PRESS_W), 8real / 10real, 8real / 10real, 1real),
{
    lemma2_to64();
    let v = 13421773real / 16777216real;
    words::lemma_word_value(features::PRESS_W, 125, 0xcc_cccd, 24, 16777216real, v);
    assert(1real * eps() * (8real / 10real) == 1real / 20971520real);
}

/// Half of a number.
proof fn lemma_halved(x: Single, v: real, m: real, c: real)
    requires
        roughly(x, v, m, c),
        0real <= c <= 1000real,
        words::least() <= m <= words::most(),
    ensures
        roughly(single::of(0x3f00_0000) * x, 1real / 2real * v, m / 2real, c + 2real),
{
    words::lemma_words();
    let h = single::of(0x3f00_0000);
    near::lemma_itself(h, 1real / 2real);
    assert(1real / 2real * m == m / 2real && 0real + c + 2real == c + 2real);
    near::lemma_times(h, 1real / 2real, 1real / 2real, 0real, x, v, m, c);
}

proof fn lemma_pucker(p: Seq<[Single; 3]>, b: real)
    requires
        points_within(p, b),
        measures(breadth(p), b),
    ensures
        ({
            let n = breadth(p);
            let forward = (at(p, 48, 2) + at(p, 52, 2) + at(p, 58, 2) + at(p, 62, 2)) / 4real - at(p, 30, 2);
            says(
                features::pucker(p),
                1real - size(at(p, 58, 0) - at(p, 62, 0)) / n + 1real / 2real * forward,
                b / n,
                b,
            )
        }),
{
    let n = breadth(p);
    let k = b / n;
    lemma_counts();
    lemma_mouth_width(p, b);
    assert(p[48][2].is_finite() && p[52][2].is_finite() && p[58][2].is_finite() && p[62][2].is_finite()
        && p[30][2].is_finite());
    lemma_pair(p[48][2], p[52][2], b);
    let (s2, v2) = (p[48][2] + p[52][2], at(p, 48, 2) + at(p, 52, 2));
    lemma_more(s2, v2, 2real * b, 2real, p[58][2], b);
    let (s3, v3) = (s2 + p[58][2], v2 + at(p, 58, 2));
    lemma_more(s3, v3, 3real * b, 4real, p[62][2], b);
    let (s4, v4) = (s3 + p[62][2], v3 + at(p, 62, 2));
    near::lemma_itself(single::of(FOUR), 4real);
    near::lemma_over(s4, v4, 4real * b, 6real, single::of(FOUR), 4real, 0real);
    assert(4real * b / 4real == b);
    lemma_more(s4 / single::of(FOUR), v4 / 4real, b, 9real, p[30][2], b);
    let (z, vz) = (s4 / single::of(FOUR) - p[30][2], v4 / 4real - at(p, 30, 2));
    lemma_halved(z, vz, b + b, 11real);
    let h = single::of(0x3f00_0000);
    assert((b + b) / 2real == b);
    let c = 20real * k + 23real;
    let one = single::of(single::ONE);
    near::lemma_itself(one, 1real);
    near::lemma_looser(one, 1real, 1real, 0real, 1real, c);
    let (w, vw) = (features::mouth_width(p), size(at(p, 58, 0) - at(p, 62, 0)) / n);
    near::lemma_less(one, 1real, 1real, w, vw, 6real * k, c);
    near::lemma_looser(h * z, 1real / 2real * vz, b, 13real, b, c + 2real);
    near::lemma_add(one - w, 1real - vw, 1real + 6real * k, h * z, 1real / 2real * vz, b, c + 2real);
    lemma_says(
        one - w + h * z,
        1real - vw + 1real / 2real * vz,
        1real + 6real * k + b,
        c + 4real,
        k,
        b,
    );
}

proof fn lemma_cheeks(p: Seq<[Single; 3]>, b: real)
    requires
        points_within(p, b),
        measures(size(at(p, 36, 0) - at(p, 45, 0)), b),
    ensures
        ({
            let n = size(at(p, 36, 0) - at(p, 45, 0));
            let cheeks = (size(at(p, 2, 0) - at(p, 14, 0)) + size(at(p, 3, 0) - at(p, 13, 0))) / 2real;
            let full = (at(p, 2, 2) + at(p, 3, 2) + at(p, 4, 2) + at(p, 12, 2) + at(p, 13, 2) + at(p, 14, 2)) / 6real;
            says(features::cheek_fill(p), cheeks / n + 1real / 2real * full, b / n, b)
        }),
{
    let n = size(at(p, 36, 0) - at(p, 45, 0));
    let k = b / n;
    lemma_counts();
    assert(p[36][0].is_finite() && p[45][0].is_finite());
    assert(p[2][0].is_finite() && p[14][0].is_finite() && p[3][0].is_finite() && p[13][0].is_finite());
    lemma_pair(p[36][0], p[45][0], b);
    let (e, ve) = (p[36][0] - p[45][0], at(p, 36, 0) - at(p, 45, 0));
    lemma_abs(e, ve, 2real * b, 2real);
    assert(2real * eps() * (2real * b) <= 20real * eps() * b) by (nonlinear_arith)
        requires
            eps() == 1real / 16777216real,
            b > 0real,
    ;
    lemma_norm(e.abs(), n, b);
    let y = e.abs().max(single::of(SMALL));
    lemma_pair(p[2][0], p[14][0], b);
    lemma_pair(p[3][0], p[13][0], b);
    let (d1, v1) = (p[2][0] - p[14][0], at(p, 2, 0) - at(p, 14, 0));
    let (d2, v2) = (p[3][0] - p[13][0], at(p, 3, 0) - at(p, 13, 0));
    lemma_abs(d1, v1, 2real * b, 2real);
    lemma_abs(d2, v2, 2real * b, 2real);
    near::lemma_add(d1.abs(), size(v1), 2real * b, d2.abs(), size(v2), 2real * b, 2real);
    let two = single::of(TWO);
    near::lemma_itself(two, 2real);
    let four = 2real * b + 2real * b;
    near::lemma_over(d1.abs() + d2.abs(), size(v1) + size(v2), four, 4real, two, 2real, 0real);
    assert(four / 2real == 2real * b);
    let (s, vs) = ((d1.abs() + d2.abs()) / two, (size(v1) + size(v2)) / 2real);
    near::lemma_looser(s, vs, 2real * b, 7real, 2real * b, 20real);
    lemma_measure(s, vs, 2real * b, y, n, b);
    lemma_sixth(p, 2, 3, 4, 12, 13, 14, 2, b);
    let z = (p[2][2] + p[3][2] + p[4][2] + p[12][2] + p[13][2] + p[14][2]) / single::of(SIX);
    let vz = (at(p, 2, 2) + at(p, 3, 2) + at(p, 4, 2) + at(p, 12, 2) + at(p, 13, 2) + at(p, 14, 2)) / 6real;
    lemma_halved(z, vz, b, 13real);
    let h = single::of(0x3f00_0000);
    let c = 20real * k + 23real;
    near::lemma_looser(h * z, 1real / 2real * vz, b / 2real, 15real, b, c);
    near::lemma_add(s / y, vs / n, 6real * k, h * z, 1real / 2real * vz, b, c);
    lemma_says(s / y + h * z, vs / n + 1real / 2real * vz, 6real * k + b, c + 2real, k, b);
}

/// Whether two faces are the same but for the height of the brows, and the second one's stand no lower.
pub open spec fn brows_rise(p: Seq<[Single; 3]>, q: Seq<[Single; 3]>) -> bool {
    &&& p.len() == q.len()
    &&& forall|i: int| 0 <= i < 66 && !(17 <= i < 27) ==> #[trigger] p[i] == q[i]
    &&& p[17][1].le(q[17][1]) && p[21][1].le(q[21][1])
    &&& p[22][1].le(q[22][1]) && p[26][1].le(q[26][1])
}

/// Higher brows never measure lower.
pub proof fn lemma_brows_rise(p: Seq<[Single; 3]>, q: Seq<[Single; 3]>, t: features::Turns, u: features::Turns, b: real)
    requires
        points_within(p, b),
        points_within(q, b),
        measures(bridge(p), b),
        brows_rise(p, q),
    ensures
        features::measures_of(p, t).brow_l.le(features::measures_of(q, u).brow_l),
        features::measures_of(p, t).brow_r.le(features::measures_of(q, u).brow_r),
{
    reveal(features::measures_of);
    assert(p[27] == q[27] && p[28] == q[28] && p[29] == q[29] && p[30] == q[30]);
    assert(bridge(p) == bridge(q));
    assert(features::norm_y(p) == features::norm_y(q));
    lemma_brow_rises(p, q, 22, 26, b);
    lemma_brow_rises(p, q, 17, 21, b);
}

proof fn lemma_brow_rises(p: Seq<[Single; 3]>, q: Seq<[Single; 3]>, i: int, j: int, b: real)
    requires
        points_within(p, b),
        points_within(q, b),
        measures(bridge(p), b),
        bridge(p) == bridge(q),
        features::norm_y(p) == features::norm_y(q),
        p[27] == q[27],
        0 <= i < 66 && 0 <= j < 66,
        p[i][1].le(q[i][1]),
        p[j][1].le(q[j][1]),
    ensures
        features::brow_height(p, i, j).le(features::brow_height(q, i, j)),
{
    let (two, n) = (single::of(TWO), features::norm_y(p));
    lemma_counts();
    words::lemma_nothing();
    lemma_norms(p, b);
    lemma_brow(p, i, j, b);
    lemma_brow(q, i, j, b);
    assert(p[i][1].is_finite() && p[j][1].is_finite() && p[27][1].is_finite());
    assert(q[i][1].is_finite() && q[j][1].is_finite());
    near::lemma_real_order(single::of(0), two);
    rises::lemma_sum_rises(p[i][1], q[i][1], p[j][1]);
    rises::lemma_sum_rises(p[j][1], q[j][1], q[i][1]);
    let (x, y) = (p[i][1] + p[j][1], q[i][1] + q[j][1]);
    assert(x.le(y));
    rises::lemma_ratio_rises(x, y, two);
    rises::lemma_difference_falls(x / two, y / two, p[27][1]);
    rises::lemma_ratio_rises(x / two - p[27][1], y / two - p[27][1], n);
}

} // verus!
