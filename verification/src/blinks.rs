//! What an eye that rests open makes of a lid that falls.

use crate::features;
use crate::features::{
    doubles, eye_next, eye_value, fed, new_eye, EyeModel, FeatureExtractor, Turns, EYE_ALPHA, EYE_CLOSED,
    EYE_FRAME_FRAC, EYE_MEDIAN_GATE, TINY,
};
use crate::ieee::facts;
use crate::ieee::near;
use crate::ieee::near::{eps, real_of, roughly};
use crate::ieee::order;
use crate::ieee::rises;
use crate::ieee::single;
use crate::ieee::single::Single;
use crate::ieee::words;
use crate::learned;
use crate::learned::{all_are, learns, levels_are, watches};
use crate::pnp::linear;
use vstd::arithmetic::power2::*;
use vstd::prelude::*;

verus! {

/// An eye after the same opening at some times.
pub open spec fn open_run(e: EyeModel, x: Single, times: Seq<Single>, conf: Option<Single>) -> EyeModel
    decreases times.len(),
{
    if times.len() == 0 {
        e
    } else {
        eye_next(open_run(e, x, times.drop_last(), conf), x, times.last(), conf)
    }
}

/// Whether an eye has seen the opening `x` alone and is at rest.
pub open spec fn rests_open(e: EyeModel, x: Single) -> bool {
    &&& e.state.last == single::of(0)
    &&& e.state.current_median == x
    &&& e.state.outlier_run == 0
    &&& levels_are(e.levels, x)
}

/// An eye that has seen an opening twice, if it still learned.
pub open spec fn eye_knows(e: EyeModel) -> bool {
    e.levels.len() == 1 ==> e.levels[0].len() >= 2 || !e.state.updating
}

/// An opening is not wider than usual against itself, and wide enough to be learned.
proof fn lemma_usual(x: Single)
    requires
        doubles(x),
        single::of(TINY).lt(x),
    ensures
        x.is_finite(),
        x.le(x * single::of(EYE_FRAME_FRAC)),
        (x * single::of(EYE_MEDIAN_GATE)).le(x),
{
    let one = single::of(single::ONE);
    order::lemma_half_of_double(x);
    facts::lemma_times_one(x);
    rises::lemma_product_rises(one, single::of(EYE_FRAME_FRAC), x);
    rises::lemma_product_rises(single::of(EYE_MEDIAN_GATE), one, x);
}

/// An eye at rest stays so when the same opening comes.
proof fn lemma_open_step(e: EyeModel, x: Single, now: Single, conf: Option<Single>)
    requires
        doubles(x),
        single::of(TINY).lt(x),
        !features::weak(conf),
        rests_open(e, x),
    ensures
        rests_open(eye_next(e, x, now, conf), x),
        eye_knows(eye_next(e, x, now, conf)),
{
    reveal(eye_next);
    lemma_usual(x);
    features::lemma_nothing_weighed(single::of(EYE_ALPHA));
    learned::lemma_fed_same(e.levels, 0, x);
    let g = fed(e.levels, 0, x);
    assert(all_are(g[g.len() - 1], x));
    learned::lemma_median_same(g.last(), x);
    if e.levels.len() == 1 {
        assert(e.levels[0] == e.levels.last());
        learned::lemma_fed_two(e.levels, x);
    }
}

/// An eye rests while the same opening comes.
proof fn lemma_open_run(max_updates: Single, x: Single, times: Seq<Single>, conf: Option<Single>)
    requires
        doubles(x),
        single::of(TINY).lt(x),
        !features::weak(conf),
        times.len() > 0,
        learns(max_updates, times[0]),
    ensures
        rests_open(open_run(new_eye(max_updates), x, times, conf), x),
        times.len() >= 2 ==> eye_knows(open_run(new_eye(max_updates), x, times, conf)),
    decreases times.len(),
{
    let new = new_eye(max_updates);
    let front = times.drop_last();
    if front.len() > 0 {
        assert(front[0] == times[0]);
        lemma_open_run(max_updates, x, front, conf);
        lemma_open_step(open_run(new, x, front, conf), x, times.last(), conf);
    } else {
        reveal(eye_next);
        assert(open_run(new, x, front, conf) == new);
        lemma_usual(x);
        features::lemma_nothing_weighed(single::of(EYE_ALPHA));
        assert(single::of(0).abs() == single::of(0));
        assert(all_are(new.levels[0], x));
        learned::lemma_fed_same(new.levels, 0, x);
        let g = fed(new.levels, 0, x);
        assert(all_are(g[g.len() - 1], x));
        learned::lemma_median_same(g.last(), x);
        learned::lemma_starts(max_updates, times.last());
    }
}

/// The value of an opening that is smaller than usual by a thousandth or more.
proof fn lemma_shut_value(x: Single, y: Single)
    requires
        x.is_finite() && y.is_finite(),
        1real / 1000real <= real_of(x) <= 1000real,
        0real <= real_of(y),
        real_of(x) - real_of(y) >= real_of(x) / 1000real,
        single::of(TINY).lt(x),
    ensures
        eye_value(y, x).is_finite(),
        -1real <= real_of(eye_value(y, x)) <= -1real / 2000real,
{
    let one = single::of(single::ONE);
    let c = single::of(EYE_CLOSED);
    let (rx, ry) = (real_of(x), real_of(y));
    lemma2_to64();
    words::lemma_words();
    words::lemma_nothing();
    let vc = 10737418real / 134217728real;
    words::lemma_word_value(EYE_CLOSED, 122, 0xa3_d70a, 27, 134217728real, vc);
    near::lemma_itself(one, 1real);
    near::lemma_itself(c, 1real);
    near::lemma_less(one, 1real, 1real, c, vc, 1real, 0real);
    let w = 1real - vc;
    near::lemma_itself(x, rx);
    near::lemma_itself(y, rx);
    near::lemma_less(y, ry, rx, x, rx, rx, 0real);
    let d = rx * w;
    assert(rx * (1real + 1real) == 2real * rx) by (nonlinear_arith);
    near::lemma_times(x, rx, rx, 0real, one - c, w, 1real + 1real, 2real);
    assert(rx * 9real / 10real <= d <= rx) by (nonlinear_arith)
        requires
            d == rx * w,
            9real / 10real <= w <= 1real,
            rx > 0real,
    ;
    let e = eps();
    let den = x * (one - c);
    assert(4real * e * (2real * rx) <= 16real * e * d) by (nonlinear_arith)
        requires
            e == 1real / 16777216real,
            rx * 9real / 10real <= d,
            rx > 0real,
    ;
    assert(roughly(den, d, d, 16real));
    let k = (rx + rx) / d;
    linear::lemma_quotient(rx + rx, d);
    assert(1real <= k <= 3real) by (nonlinear_arith)
        requires
            k * d == rx + rx,
            rx * 9real / 10real <= d <= rx,
            rx > 0real,
    ;
    near::lemma_over(y - x, ry - rx, rx + rx, 2real, den, d, 16real);
    let q = (y - x) / den;
    let v = (ry - rx) / d;
    linear::lemma_quotient(ry - rx, d);
    assert(v <= -1real / 1000real) by (nonlinear_arith)
        requires
            v * d == ry - rx,
            ry - rx <= -(rx / 1000real),
            d <= rx,
            d > 0real,
    ;
    assert(21real * e * k <= 1real / 100000real) by (nonlinear_arith)
        requires
            e == 1real / 16777216real,
            0real <= k <= 3real,
    ;
    assert(real_of(q) <= -1real / 2000real);
    near::lemma_opposite(one);
    near::lemma_real_order(y, x);
    near::lemma_real_order(x, y);
    near::lemma_real_order(q, one.negated());
    near::lemma_real_order(single::of(0), q);
    near::lemma_real_order(q, single::of(0));
    near::lemma_real_order(single::of(TINY), x);
    near::lemma_real_order(single::of(0), x);
    assert(x.abs() == x);
}

/// From rest, a lid that falls shuts the eye: an eye that was seen open the same way at two or more times, and then less
/// open by a thousandth or more, gives a result below zero.
pub proof fn lemma_lid_falls(
    max_updates: Single,
    x: Single,
    times: Seq<Single>,
    y: Single,
    now: Single,
    conf: Option<Single>,
)
    requires
        doubles(x),
        y.is_finite(),
        1real / 1000real <= real_of(x) <= 1000real,
        0real <= real_of(y),
        real_of(x) - real_of(y) >= real_of(x) / 1000real,
        times.len() >= 2,
        learns(max_updates, times[0]),
        !features::weak(conf),
    ensures
        ({
            let r = eye_next(open_run(new_eye(max_updates), x, times, conf), y, now, conf).state.last;
            r.is_finite() && r.lt(single::of(0)) && real_of(r) < 0real
        }),
{
    let e = open_run(new_eye(max_updates), x, times, conf);
    order::lemma_half_of_double(x);
    lemma_tiny();
    near::lemma_real_order(single::of(TINY), x);
    lemma_open_run(max_updates, x, times, conf);
    reveal(eye_next);
    lemma_usual(x);
    near::lemma_real_order(y, x);
    if e.levels.len() > 1 || e.levels[0].len() >= 2 {
        learned::lemma_fed_other(e.levels, x, y);
    }
    lemma_shut_value(x, y);
    lemma_weighed(eye_value(y, x));
}

proof fn lemma_tiny()
    ensures
        single::of(TINY).is_finite(),
        real_of(single::of(TINY)) < 1real / 1000real,
{
    lemma2_to64();
    lemma_pow2_adds(10, 23);
    words::lemma_word_value(0x3a80_0000, 116, 0x80_0000, 33, 8589934592real, 8388608real / 8589934592real);
    near::lemma_real_order(single::of(TINY), single::of(0x3a80_0000));
}

/// A value below zero, smoothed in from rest.
proof fn lemma_weighed(v: Single)
    requires
        v.is_finite(),
        -1real <= real_of(v) <= -1real / 2000real,
    ensures
        ({
            let (zero, one, alpha) = (single::of(0), single::of(single::ONE), single::of(EYE_ALPHA));
            let r = zero * alpha + v * (one - alpha);
            r.is_finite() && r.lt(zero) && real_of(r) < 0real
        }),
{
    let (zero, one, alpha) = (single::of(0), single::of(single::ONE), single::of(EYE_ALPHA));
    let rv = real_of(v);
    lemma2_to64();
    words::lemma_nothing();
    words::lemma_words();
    let va = 10066330real / 16777216real;
    words::lemma_word_value(EYE_ALPHA, 125, 0x99_999a, 24, 16777216real, va);
    near::lemma_itself(zero, 1real);
    near::lemma_itself(one, 1real);
    near::lemma_itself(alpha, 1real);
    near::lemma_itself(v, 1real);
    near::lemma_less(one, 1real, 1real, alpha, va, 1real, 0real);
    let w = 1real - va;
    assert(0real * va == 0real && 1real * 1real == 1real && 1real * (1real + 1real) == 2real) by (nonlinear_arith);
    near::lemma_times(zero, 0real, 1real, 0real, alpha, va, 1real, 0real);
    near::lemma_times(v, rv, 1real, 0real, one - alpha, w, 1real + 1real, 2real);
    near::lemma_looser(zero * alpha, 0real, 1real, 2real, 1real, 4real);
    near::lemma_add(zero * alpha, 0real, 1real, v * (one - alpha), rv * w, 2real, 4real);
    assert(rv * w <= -1real / 6000real) by (nonlinear_arith)
        requires
            rv <= -1real / 2000real,
            w >= 1real / 3real,
    ;
    let r = zero * alpha + v * (one - alpha);
    near::lemma_real_order(r, zero);
}

/// What the eyes have seen over a run of frames.
proof fn lemma_watched_eyes(
    es: Seq<FeatureExtractor>,
    rs: Seq<Seq<Single>>,
    p: Seq<[Single; 3]>,
    full: bool,
    conf: Option<Single>,
    times: Seq<Single>,
    t: Turns,
    max_updates: Single,
)
    requires
        watches(es, rs, p, full, conf, times, t, max_updates),
    ensures
        ({
            let m = features::measures_of(p, t);
            &&& es.last().eye_l@ == open_run(new_eye(max_updates), m.open_l, times, conf)
            &&& es.last().eye_r@ == open_run(new_eye(max_updates), m.open_r, times, conf)
        }),
    decreases times.len(),
{
    if times.len() > 0 {
        let n = times.len() - 1;
        let (fe, fr, ft) = (es.drop_last(), rs.drop_last(), times.drop_last());
        assert forall|i: int| #![trigger fr[i]] 0 <= i < ft.len() implies features::updated(
            fe[i],
            fe[i + 1],
            fr[i],
            p,
            full,
            conf,
            ft[i],
            t,
        ) by {
            assert(rs[i] == fr[i] && es[i] == fe[i] && es[i + 1] == fe[i + 1] && times[i] == ft[i]);
        }
        lemma_watched_eyes(fe, fr, p, full, conf, ft, t, max_updates);
        assert(fe.last() == es[n]);
        assert(es[n + 1] == es.last());
        assert(features::updated(es[n], es[n + 1], rs[n], p, full, conf, times[n], t));
    }
}

/// Whether an eye that was open closes by a thousandth or more of how far it was open.
pub open spec fn closes(x: Single, y: Single) -> bool {
    &&& doubles(x)
    &&& y.is_finite()
    &&& 1real / 1000real <= real_of(x) <= 1000real
    &&& 0real <= real_of(y)
    &&& real_of(x) - real_of(y) >= real_of(x) / 1000real
}

/// After a run of frames of a resting face, a frame in which an eye is less open says so of that eye, and of no other:
/// the result of an eye that stays as open as it was is zero.
pub proof fn lemma_eyes_close(
    es: Seq<FeatureExtractor>,
    rs: Seq<Seq<Single>>,
    p: Seq<[Single; 3]>,
    full: bool,
    conf: Option<Single>,
    times: Seq<Single>,
    t: Turns,
    max_updates: Single,
    e: FeatureExtractor,
    r: Seq<Single>,
    q: Seq<[Single; 3]>,
    now: Single,
    u: Turns,
)
    requires
        watches(es, rs, p, full, conf, times, t, max_updates),
        features::updated(es.last(), e, r, q, full, conf, now, u),
        times.len() >= 2,
        learns(max_updates, times[0]),
        !features::weak(conf),
    ensures
        ({
            let (m, n) = (features::measures_of(p, t), features::measures_of(q, u));
            &&& closes(m.open_l, n.open_l) ==> r[0].lt(single::of(0))
            &&& closes(m.open_r, n.open_r) ==> r[1].lt(single::of(0))
            &&& doubles(m.open_l) && single::of(TINY).lt(m.open_l) && n.open_l == m.open_l ==> r[0] == single::of(0)
            &&& doubles(m.open_r) && single::of(TINY).lt(m.open_r) && n.open_r == m.open_r ==> r[1] == single::of(0)
        }),
{
    lemma_watched_eyes(es, rs, p, full, conf, times, t, max_updates);
    let (m, n) = (features::measures_of(p, t), features::measures_of(q, u));
    if closes(m.open_l, n.open_l) {
        lemma_lid_falls(max_updates, m.open_l, times, n.open_l, now, conf);
    }
    if closes(m.open_r, n.open_r) {
        lemma_lid_falls(max_updates, m.open_r, times, n.open_r, now, conf);
    }
    if doubles(m.open_l) && single::of(TINY).lt(m.open_l) && n.open_l == m.open_l {
        lemma_open_run(max_updates, m.open_l, times, conf);
        lemma_open_step(es.last().eye_l@, m.open_l, now, conf);
    }
    if doubles(m.open_r) && single::of(TINY).lt(m.open_r) && n.open_r == m.open_r {
        lemma_open_run(max_updates, m.open_r, times, conf);
        lemma_open_step(es.last().eye_r@, m.open_r, now, conf);
    }
}

} // verus!
