//! What is found on heat maps.

use crate::decode;
use crate::decode::{cell_box, hottest, peak};
use crate::geom;
use crate::ieee::convert;
use crate::ieee::near;
use crate::ieee::near::{real_of, roughly, size};
use crate::ieee::order;
use crate::ieee::rises;
use crate::ieee::single;
use crate::ieee::single::Single;
use crate::ieee::words;
use vstd::arithmetic::power2::*;
use vstd::prelude::*;

verus! {

/// The peak of a heat map is the last of its largest cells.
pub proof fn lemma_peak_is_largest(data: Seq<u16>, base: int, n: int)
    requires
        1 <= n,
        forall|i: int| 0 <= i < n ==> !convert::from_half(#[trigger] data[base + i]).is_nan(),
    ensures
        ({
            let b = peak(data, base, n);
            &&& 0 <= b < n
            &&& forall|i: int|
                0 <= i < n ==> convert::from_half(#[trigger] data[base + i]).le(convert::from_half(data[base + b]))
            &&& forall|i: int|
                b < i < n ==> convert::from_half(#[trigger] data[base + i]).lt(convert::from_half(data[base + b]))
        }),
    decreases n,
{
    if n > 1 {
        lemma_peak_is_largest(data, base, n - 1);
        let (a, b) = (peak(data, base, n - 1), peak(data, base, n));
        assert(!convert::from_half(data[base + (n - 1)]).is_nan());
        assert(!convert::from_half(data[base + a]).is_nan());
        assert forall|i: int| 0 <= i < n implies convert::from_half(#[trigger] data[base + i]).le(
            convert::from_half(data[base + b]),
        ) by {
            if i < n - 1 {
                assert(convert::from_half(data[base + i]).le(convert::from_half(data[base + a])));
            }
        }
    } else {
        assert(!convert::from_half(data[base + 0]).is_nan());
    }
}

/// The hottest cell is one that is not taken, and none that is not taken is hotter; there is none only where
/// all are taken.
pub proof fn lemma_hottest(heat: Seq<Single>, taken: Seq<bool>, n: int)
    requires
        0 <= n <= heat.len(),
        forall|i: int| 0 <= i < n ==> !(#[trigger] heat[i]).is_nan(),
    ensures
        match hottest(heat, taken, n) {
            None => forall|i: int| 0 <= i < n ==> #[trigger] taken[i],
            Some(b) => {
                &&& 0 <= b < n
                &&& !taken[b]
                &&& forall|i: int| 0 <= i < n && !taken[i] ==> (#[trigger] heat[i]).le(heat[b])
                &&& forall|i: int| 0 <= i < b && !taken[i] ==> (#[trigger] heat[i]).lt(heat[b])
            },
        },
    decreases n,
{
    if n > 0 {
        lemma_hottest(heat, taken, n - 1);
        assert(!heat[n - 1].is_nan());
        match hottest(heat, taken, n - 1) {
            None => {
                assert forall|i: int| 0 <= i < n && !taken[i] implies i == n - 1 by {}
            },
            Some(b) => {
                assert(!heat[b].is_nan());
            },
        }
    }
}

/// The box of a cell stands about it, but for rounding: its middle lies four pixels of the network's 224 on
/// for each column and each row of 56, it reaches as far as its radius on either side, and it is stretched
/// from the network's pixels to the frame's. The radius is at most `r`, and the frame's sides are at most
/// `f`.
pub proof fn lemma_cell_box(i: int, rad: Single, heat: Single, fw: int, fh: int, r: real, f: real)
    requires
        0 <= i < 3136,
        rad.is_finite(),
        size(real_of(rad)) <= r,
        1real <= r <= 1000000000000real,
        0 <= fw <= 0x100_0000,
        0 <= fh <= 0x100_0000,
        fw as real <= f,
        fh as real <= f,
        1real <= f <= 16777216real,
    ensures
        ({
            let b = cell_box(i, rad, heat, fw, fh);
            let (x, y) = ((i % 56) as real, (i / 56) as real);
            let (sx, sy) = (fw as real / 224real, fh as real / 224real);
            let m = (224real + 2real * r) * (f / 224real);
            &&& b.len() == 5
            &&& roughly(b[0], (4real * x - real_of(rad)) * sx, m, 9real)
            &&& roughly(b[1], (4real * y - real_of(rad)) * sy, m, 9real)
            &&& roughly(b[2], 2real * real_of(rad) * sx, m, 9real)
            &&& roughly(b[3], 2real * real_of(rad) * sy, m, 9real)
            &&& b[4] == heat
        }),
{
    let (x, y) = (i % 56, i / 56);
    lemma_cell_axis(x, rad, fw, r, f);
    lemma_cell_axis(y, rad, fh, r, f);
}

proof fn lemma_cell_axis(x: int, rad: Single, fw: int, r: real, f: real)
    requires
        0 <= x < 56,
        rad.is_finite(),
        size(real_of(rad)) <= r,
        1real <= r <= 1000000000000real,
        0 <= fw <= 0x100_0000,
        fw as real <= f,
        1real <= f <= 16777216real,
    ensures
        ({
            let s = Single::from_int(fw) / single::of(decode::INPUT);
            let v = fw as real / 224real;
            let m = (224real + 2real * r) * (f / 224real);
            &&& roughly(
                (Single::from_int(x) * single::of(decode::CELL) - rad) * s,
                (4real * x as real - real_of(rad)) * v,
                m,
                9real,
            )
            &&& roughly(single::of(decode::TWO) * rad * s, 2real * real_of(rad) * v, m, 9real)
        }),
{
    let (four, two, side) = (single::of(decode::CELL), single::of(decode::TWO), single::of(decode::INPUT));
    lemma2_to64();
    words::lemma_words();
    words::lemma_word_value(decode::CELL, 128, 0x80_0000, 21, 2097152real, 4real);
    words::lemma_word_value(decode::INPUT, 133, 0xe0_0000, 16, 65536real, 224real);
    near::lemma_count(x);
    near::lemma_count(fw);
    near::lemma_itself(four, 4real);
    near::lemma_itself(two, 2real);
    near::lemma_itself(side, 224real);
    let (xs, rx, rr) = (Single::from_int(x), x as real, real_of(rad));
    near::lemma_itself(xs, 56real);
    near::lemma_itself(Single::from_int(fw), f);
    near::lemma_itself(rad, r);
    near::lemma_over(Single::from_int(fw), fw as real, f, 0real, side, 224real, 0real);
    let s = Single::from_int(fw) / side;
    let (v, g) = (fw as real / 224real, f / 224real);
    near::lemma_times(xs, rx, 56real, 0real, four, 4real, 4real, 0real);
    assert(rx * 4real == 4real * rx && 56real * 4real == 224real);
    near::lemma_looser(rad, rr, r, 0real, r, 2real);
    near::lemma_less(xs * four, 4real * rx, 224real, rad, rr, r, 2real);
    let p = 224real + 2real * r;
    let m = p * g;
    assert(m >= 1real / 1000real && m <= 1000000000000000000000000real) by (nonlinear_arith)
        requires
            m == p * g,
            226real <= p <= 3000000000000real,
            1real / 224real <= g <= 100000real,
    ;
    let d = 4real * rx - rr;
    near::lemma_looser(xs * four - rad, d, 224real + r, 4real, p, 4real);
    near::lemma_times(xs * four - rad, d, p, 4real, s, v, g, 3real);
    near::lemma_times(two, 2real, 2real, 0real, rad, rr, r, 0real);
    near::lemma_looser(two * rad, 2real * rr, 2real * r, 2real, p, 4real);
    near::lemma_times(two * rad, 2real * rr, p, 4real, s, v, g, 3real);
}

/// A larger probability never has smaller odds, so that an offset grows with what the network says of it.
pub proof fn lemma_odds_rise(p: Single, q: Single)
    requires
        p.le(q),
    ensures
        geom::odds(p).le(geom::odds(q)),
{
    let (lo, hi, one) = (single::of(geom::LEAST), single::of(geom::MOST), single::of(single::ONE));
    let (a, b) = (p.clamp(lo, hi), q.clamp(lo, hi));
    assert(lo.le(a) && a.le(b) && b.le(hi));
    rises::lemma_difference_falls(a, b, one);
    order::lemma_one_less(b);
    order::lemma_one_less(a);
    order::lemma_div_order(a, b, one - b, one - a);
}

} // verus!
