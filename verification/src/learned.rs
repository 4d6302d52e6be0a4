//! What features make of a face that rests and then moves.

use crate::features;
use crate::features::{
    doubles, fed, median_of, next, settled, sorted, FeatureExtractor, FeatureModel, Turns, LEVEL,
};
use crate::ieee::near;
use crate::ieee::near::real_of;
use crate::ieee::order;
use crate::ieee::single;
use crate::ieee::single::Single;
use crate::ieee::words;
use vstd::arithmetic::power2::*;
use vstd::prelude::*;

verus! {

/// Whether all values are `x`.
pub open spec fn all_are(v: Seq<Single>, x: Single) -> bool {
    forall|i: int| 0 <= i < v.len() ==> #[trigger] v[i] == x
}

/// Whether all that was learned is `x`, and the last level holds some of it.
pub open spec fn levels_are(levels: Seq<Seq<Single>>, x: Single) -> bool {
    &&& levels.len() > 0
    &&& levels.last().len() > 0
    &&& forall|i: int| 0 <= i < levels.len() ==> all_are(#[trigger] levels[i], x)
}

proof fn lemma_inserted_same(v: Seq<Single>, x: Single)
    requires
        all_are(v, x),
    ensures
        all_are(features::inserted(v, x), x),
        features::inserted(v, x).len() == v.len() + 1,
{
    if v.len() > 0 {
        assert(v[v.len() - 1] == x);
        assert(!x.lt(v.last()));
    }
}

proof fn lemma_sorted_same(v: Seq<Single>, x: Single)
    requires
        all_are(v, x),
    ensures
        all_are(sorted(v), x),
        sorted(v).len() == v.len(),
    decreases v.len(),
{
    if v.len() > 0 {
        let w = v.drop_last();
        assert(all_are(w, x)) by {
            assert forall|i: int| 0 <= i < w.len() implies #[trigger] w[i] == x by {
                assert(v[i] == x);
            }
        }
        lemma_sorted_same(w, x);
        assert(v[v.len() - 1] == x);
        lemma_inserted_same(sorted(w), x);
    }
}

/// One other value among equal ones lies at an end once they are sorted.
proof fn lemma_inserted_other(v: Seq<Single>, x: Single, y: Single)
    requires
        all_are(v, x),
    ensures
        features::inserted(v, y).len() == v.len() + 1,
        forall|i: int| 1 <= i < v.len() ==> #[trigger] features::inserted(v, y)[i] == x,
        v.len() > 0 && y.lt(x) ==> features::inserted(v, y)[0] == y && features::inserted(v, y).last() == x,
    decreases v.len(),
{
    if v.len() > 0 {
        assert(v[v.len() - 1] == x);
        if y.lt(x) {
            let w = v.drop_last();
            assert(all_are(w, x)) by {
                assert forall|i: int| 0 <= i < w.len() implies #[trigger] w[i] == x by {
                    assert(v[i] == x);
                }
            }
            lemma_inserted_other(w, x, y);
            let r = features::inserted(w, y);
            assert(features::inserted(v, y) == r.push(x));
            if w.len() > 0 {
                assert(r.last() == x);
                assert(r[w.len() as int] == x);
            }
        }
    }
}

/// The median of equal values is that value.
pub proof fn lemma_median_same(v: Seq<Single>, x: Single)
    requires
        all_are(v, x),
        v.len() > 0,
        doubles(x),
    ensures
        median_of(v) == x,
{
    lemma_sorted_same(v, x);
    order::lemma_half_of_double(x);
    let w = sorted(v);
    let n = w.len() as int;
    assert(w[0] == x && w[n - 1] == x && w[n / 2] == x);
    if n >= 3 {
        assert(w[n / 2 - 1] == x);
    }
}

/// One other value does not move the median of two or more equal ones.
proof fn lemma_median_other(v: Seq<Single>, x: Single, y: Single)
    requires
        all_are(v, x),
        v.len() >= 2,
        doubles(x),
    ensures
        median_of(v.push(y)) == x,
{
    let u = v.push(y);
    assert(u.drop_last() =~= v);
    lemma_sorted_same(v, x);
    lemma_inserted_other(sorted(v), x, y);
    order::lemma_half_of_double(x);
    let w = sorted(u);
    let n = w.len() as int;
    assert(w == features::inserted(sorted(v), y));
    assert(w[n / 2] == x);
    if n % 2 == 0 {
        assert(w[n / 2 - 1] == x);
    }
}

/// Feeding the same value leaves the levels with it alone.
pub proof fn lemma_fed_same(levels: Seq<Seq<Single>>, i: int, x: Single)
    requires
        levels.len() > 0,
        forall|j: int| 0 <= j < levels.len() ==> all_are(#[trigger] levels[j], x),
        0 <= i <= levels.len(),
        levels.last().len() > 0 || i >= levels.len() - 1,
        doubles(x),
    ensures
        levels_are(fed(levels, i, x), x),
        fed(levels, i, x).len() >= levels.len(),
    decreases levels.len() - i,
{
    if i >= levels.len() {
        let all = levels.push(seq![x]);
        assert forall|j: int| 0 <= j < all.len() implies all_are(#[trigger] all[j], x) by {
            if j < levels.len() {
                assert(all[j] == levels[j]);
            }
        }
    } else {
        let l = levels[i].push(x);
        assert(all_are(levels[i], x));
        assert(all_are(l, x)) by {
            assert forall|j: int| 0 <= j < l.len() implies #[trigger] l[j] == x by {
                if j < levels[i].len() {
                    assert(l[j] == levels[i][j]);
                }
            }
        }
        if l.len() == LEVEL {
            lemma_median_same(l, x);
            let e = levels.update(i, Seq::empty());
            assert forall|j: int| 0 <= j < e.len() implies all_are(#[trigger] e[j], x) by {
                if j != i {
                    assert(e[j] == levels[j]);
                }
            }
            lemma_fed_same(e, i + 1, x);
        } else {
            let e = levels.update(i, l);
            assert forall|j: int| 0 <= j < e.len() implies all_are(#[trigger] e[j], x) by {
                if j != i {
                    assert(e[j] == levels[j]);
                }
            }
        }
    }
}

/// One other value does not move what was learned of a resting face.
pub proof fn lemma_fed_other(levels: Seq<Seq<Single>>, x: Single, y: Single)
    requires
        levels_are(levels, x),
        levels.len() == 1 ==> levels[0].len() >= 2,
        doubles(x),
    ensures
        settled(fed(levels, 0, y)) == x,
{
    let l = levels[0].push(y);
    assert(all_are(levels[0], x));
    if l.len() == LEVEL {
        lemma_median_other(levels[0], x, y);
        let e = levels.update(0, Seq::empty());
        assert forall|j: int| 0 <= j < e.len() implies all_are(#[trigger] e[j], x) by {
            if j != 0 {
                assert(e[j] == levels[j]);
            }
        }
        lemma_fed_same(e, 1, x);
        let r = fed(e, 1, x);
        assert(all_are(r[r.len() - 1], x));
        lemma_median_same(r.last(), x);
    } else {
        let e = levels.update(0, l);
        if levels.len() == 1 {
            lemma_median_other(levels[0], x, y);
            assert(e.last() == l);
        } else {
            assert(e.last() == levels.last());
            assert(all_are(levels[levels.len() - 1], x));
            lemma_median_same(levels.last(), x);
        }
    }
}

/// A feature after the same value at some times.
pub open spec fn run(f: FeatureModel, x: Single, times: Seq<Single>) -> FeatureModel
    decreases times.len(),
{
    if times.len() == 0 {
        f
    } else {
        next(run(f, x, times.drop_last()), x, times.last())
    }
}

/// Whether a feature learns at its first value: for ever, or for a while from a time that is a number.
pub open spec fn learns(max_updates: Single, first: Single) -> bool {
    max_updates.same(single::of(0)) || (single::of(0).lt(max_updates) && first.is_finite())
}

/// Whether a feature has seen `x` alone, some times, and is at rest.
pub open spec fn rests(f: FeatureModel, x: Single) -> bool {
    &&& f.state.min is None
    &&& f.state.max is None
    &&& f.state.last == single::of(0)
    &&& f.state.current_median == x
    &&& levels_are(f.levels, x)
}

/// A feature that has seen a value twice, if it still learned.
pub open spec fn knows(f: FeatureModel) -> bool {
    f.levels.len() == 1 ==> f.levels[0].len() >= 2 || !f.state.updating
}

/// Feeding a level that holds something makes it hold two, or fills it.
pub proof fn lemma_fed_two(levels: Seq<Seq<Single>>, x: Single)
    requires
        levels.len() == 1,
        levels[0].len() > 0,
    ensures
        fed(levels, 0, x).len() == 1 ==> fed(levels, 0, x)[0].len() >= 2,
{
    let l = levels[0].push(x);
    if l.len() == LEVEL {
        let e = levels.update(0, Seq::empty());
        assert(fed(levels, 0, x) == fed(e, 1, median_of(l)));
        assert(fed(e, 1, median_of(l)) == e.push(seq![median_of(l)]));
    } else {
        assert(fed(levels, 0, x) == levels.update(0, l));
    }
}

/// A feature at rest stays so when the same value comes.
proof fn lemma_step_rests(f: FeatureModel, x: Single, now: Single)
    requires
        doubles(x),
        rests(f, x),
    ensures
        rests(next(f, x, now), x),
        knows(next(f, x, now)),
        next(f, x, now).state.threshold == f.state.threshold,
        next(f, x, now).state.one_sided == f.state.one_sided,
{
    reveal(next);
    order::lemma_half_of_double(x);
    features::lemma_nothing_weighed(single::of(features::ALPHA));
    lemma_fed_same(f.levels, 0, x);
    let g = fed(f.levels, 0, x);
    assert(all_are(g[g.len() - 1], x));
    lemma_median_same(g.last(), x);
    if f.levels.len() == 1 {
        assert(f.levels[0] == f.levels.last());
        lemma_fed_two(f.levels, x);
    }
    assert(!x.lt(x) && x.le(x));
}

/// A feature rests while the same value comes.
proof fn lemma_run_rests(threshold: u32, max_updates: Single, one_sided: bool, x: Single, times: Seq<Single>)
    requires
        doubles(x),
        times.len() > 0,
        learns(max_updates, times[0]),
    ensures
        ({
            let f = run(features::new_feature(threshold, max_updates, one_sided), x, times);
            &&& rests(f, x)
            &&& times.len() >= 2 ==> knows(f)
            &&& f.state.threshold == single::of(threshold)
            &&& f.state.one_sided == one_sided
        }),
    decreases times.len(),
{
    let new = features::new_feature(threshold, max_updates, one_sided);
    let front = times.drop_last();
    let f = run(new, x, front);
    if front.len() > 0 {
        assert(front[0] == times[0]);
        lemma_run_rests(threshold, max_updates, one_sided, x, front);
        lemma_step_rests(f, x, times.last());
    } else {
        reveal(next);
        order::lemma_half_of_double(x);
        features::lemma_nothing_weighed(single::of(features::ALPHA));
        assert(f == new);
        assert(all_are(new.levels[0], x));
        lemma_fed_same(new.levels, 0, x);
        let g = fed(new.levels, 0, x);
        assert(all_are(g[g.len() - 1], x));
        lemma_median_same(g.last(), x);
        lemma_starts(max_updates, times.last());
        assert(!x.lt(x) && x.le(x));
    }
}

/// A new feature learns its first value.
pub proof fn lemma_starts(max_updates: Single, now: Single)
    requires
        learns(max_updates, now),
    ensures
        features::learning(
            true,
            max_updates,
            features::seen_at(max_updates, single::of(features::MINUS_ONE), now),
            now,
        ),
{
    if !max_updates.same(single::of(0)) {
        order::lemma_less_itself(now);
    }
}

/// How a new lowest or highest value is smoothed in from rest.
proof fn lemma_from_rest()
    ensures
        ({
            let (zero, one, alpha) = (single::of(0), single::of(single::ONE), single::of(features::ALPHA));
            let (low, high) = (zero * alpha + one.negated() * (one - alpha), zero * alpha + one * (one - alpha));
            &&& low.is_finite() && real_of(low) < -7real / 10real
            &&& high.is_finite() && real_of(high) > 7real / 10real
            &&& low.lt(zero)
            &&& zero.lt(high)
        }),
{
    let (zero, one, alpha) = (single::of(0), single::of(single::ONE), single::of(features::ALPHA));
    lemma2_to64();
    words::lemma_nothing();
    words::lemma_words();
    let v = 13421773real / 67108864real;
    lemma_pow2_adds(13, 13);
    words::lemma_word_value(features::ALPHA, 123, 0xcc_cccd, 26, 67108864real, v);
    near::lemma_itself(zero, 1real);
    near::lemma_itself(one, 1real);
    near::lemma_itself(alpha, 1real);
    near::lemma_less(one, 1real, 1real, alpha, v, 1real, 0real);
    near::lemma_turned(one, 1real, 1real, 0real);
    let two = 1real + 1real;
    let w = 1real - v;
    assert(0real * v == 0real && 1real * 1real == 1real && 1real * two == two && -1real * w == -w && 1real * w == w)
        by (nonlinear_arith)
        requires
            two == 2real,
    ;
    near::lemma_times(zero, 0real, 1real, 0real, alpha, v, 1real, 0real);
    near::lemma_times(one.negated(), -1real, 1real, 0real, one - alpha, w, two, 2real);
    near::lemma_times(one, 1real, 1real, 0real, one - alpha, w, two, 2real);
    near::lemma_looser(zero * alpha, 0real, 1real, 2real, 1real, 4real);
    near::lemma_add(zero * alpha, 0real, 1real, one.negated() * (one - alpha), -w, two, 4real);
    near::lemma_add(zero * alpha, 0real, 1real, one * (one - alpha), w, two, 4real);
    let (low, high) = (zero * alpha + one.negated() * (one - alpha), zero * alpha + one * (one - alpha));
    near::lemma_real_order(low, zero);
    near::lemma_real_order(zero, high);
}

/// From rest, the first value that lies below by more than the threshold of what rested says so: the result
/// of a feature that was fed the same value above zero at two or more times, and then a lower one, is below
/// zero.
pub proof fn lemma_falls_from_rest(
    threshold: u32,
    max_updates: Single,
    x: Single,
    times: Seq<Single>,
    y: Single,
    now: Single,
)
    requires
        doubles(x),
        single::of(0).lt(x),
        times.len() >= 2,
        learns(max_updates, times[0]),
        y.lt(x),
        ((x - y) / x).gt(single::of(threshold)),
    ensures
        ({
            let r = next(run(features::new_feature(threshold, max_updates, false), x, times), y, now).state.last;
            r.is_finite() && r.lt(single::of(0)) && real_of(r) < -7real / 10real
        }),
{
    let f = run(features::new_feature(threshold, max_updates, false), x, times);
    lemma_run_rests(threshold, max_updates, false, x, times);
    reveal(next);
    if f.levels.len() > 1 || f.levels[0].len() >= 2 {
        lemma_fed_other(f.levels, x, y);
    }
    lemma_from_rest();
}

/// From rest, the first value that lies above by more than the threshold of what rested says so in a feature
/// that counts what lies above alone: the result is above zero.
pub proof fn lemma_rises_from_rest(
    threshold: u32,
    max_updates: Single,
    x: Single,
    times: Seq<Single>,
    y: Single,
    now: Single,
)
    requires
        doubles(x),
        single::of(0).lt(x),
        times.len() >= 2,
        learns(max_updates, times[0]),
        x.lt(y),
        ((y - x) / x).gt(single::of(threshold)),
    ensures
        ({
            let r = next(run(features::new_feature(threshold, max_updates, true), x, times), y, now).state.last;
            r.is_finite() && single::of(0).lt(r) && real_of(r) > 7real / 10real
        }),
{
    let f = run(features::new_feature(threshold, max_updates, true), x, times);
    lemma_run_rests(threshold, max_updates, true, x, times);
    reveal(next);
    if f.levels.len() > 1 || f.levels[0].len() >= 2 {
        lemma_fed_other(f.levels, x, y);
    }
    lemma_from_rest();
}

/// Whether `es` are the features over a run of frames that show the same face, from new ones on.
pub open spec fn watches(
    es: Seq<FeatureExtractor>,
    rs: Seq<Seq<Single>>,
    p: Seq<[Single; 3]>,
    full: bool,
    conf: Option<Single>,
    times: Seq<Single>,
    t: Turns,
    max_updates: Single,
) -> bool {
    &&& es.len() == times.len() + 1
    &&& rs.len() == times.len()
    &&& es[0].is_new(max_updates)
    &&& forall|i: int|
        #![trigger rs[i]]
        0 <= i < times.len() ==> features::updated(es[i], es[i + 1], rs[i], p, full, conf, times[i], t)
}

/// What brows and jaw have seen over a run of frames.
proof fn lemma_watched(
    es: Seq<FeatureExtractor>,
    rs: Seq<Seq<Single>>,
    p: Seq<[Single; 3]>,
    full: bool,
    conf: Option<Single>,
    times: Seq<Single>,
    t: Turns,
    max_updates: Single,
)
    requires
        watches(es, rs, p, full, conf, times, t, max_updates),
    ensures
        ({
            let (e, m) = (es.last(), features::measures_of(p, t));
            let wide = features::new_feature(features::TH_WIDE, max_updates, false);
            &&& e.eyebrow_updown_l@ == run(wide, m.brow_l, times)
            &&& e.eyebrow_updown_r@ == run(wide, m.brow_r, times)
            &&& e.mouth_corner_updown_l@ == run(wide, m.corner_l, times)
            &&& e.mouth_corner_updown_r@ == run(wide, m.corner_r, times)
            &&& e.jaw_open@ == run(features::new_feature(features::TH_WIDE, max_updates, true), m.jaw, times)
        }),
    decreases times.len(),
{
    if times.len() > 0 {
        let n = times.len() - 1;
        let (fe, fr, ft) = (es.drop_last(), rs.drop_last(), times.drop_last());
        assert forall|i: int| #![trigger fr[i]] 0 <= i < ft.len() implies features::updated(
            fe[i],
            fe[i + 1],
            fr[i],
            p,
            full,
            conf,
            ft[i],
            t,
        ) by {
            assert(rs[i] == fr[i] && es[i] == fe[i] && es[i + 1] == fe[i + 1] && times[i] == ft[i]);
        }
        lemma_watched(fe, fr, p, full, conf, ft, t, max_updates);
        assert(fe.last() == es[n]);
        assert(es[n + 1] == es.last());
        assert(features::updated(es[n], es[n + 1], rs[n], p, full, conf, times[n], t));
    }
}

/// After a run of frames of a resting face, a frame whose brows stand lower, by more than the threshold of
/// how high they stood above the bridge of the nose, says so of the brows; so for the corners of the mouth;
/// and one whose chin lies lower says so of the jaw.
pub proof fn lemma_face_moves(
    es: Seq<FeatureExtractor>,
    rs: Seq<Seq<Single>>,
    p: Seq<[Single; 3]>,
    full: bool,
    conf: Option<Single>,
    times: Seq<Single>,
    t: Turns,
    max_updates: Single,
    e: FeatureExtractor,
    r: Seq<Single>,
    q: Seq<[Single; 3]>,
    now: Single,
    u: Turns,
)
    requires
        watches(es, rs, p, full, conf, times, t, max_updates),
        features::updated(es.last(), e, r, q, full, conf, now, u),
        times.len() >= 2,
        learns(max_updates, times[0]),
    ensures
        ({
            let (m, n) = (features::measures_of(p, t), features::measures_of(q, u));
            &&& moves_down(m.brow_l, n.brow_l) ==> r[3].lt(single::of(0)) && real_of(r[3]) < -7real / 10real
            &&& moves_down(m.brow_r, n.brow_r) ==> r[6].lt(single::of(0)) && real_of(r[6]) < -7real / 10real
            &&& moves_down(m.corner_l, n.corner_l) ==> r[8].lt(single::of(0)) && real_of(r[8]) < -7real / 10real
            &&& moves_down(m.corner_r, n.corner_r) ==> r[10].lt(single::of(0)) && real_of(r[10]) < -7real / 10real
            &&& moves_up(m.jaw, n.jaw) ==> single::of(0).lt(r[17]) && real_of(r[17]) > 7real / 10real
        }),
{
    lemma_watched(es, rs, p, full, conf, times, t, max_updates);
    let (m, n) = (features::measures_of(p, t), features::measures_of(q, u));
    let th = features::TH_WIDE;
    if moves_down(m.brow_l, n.brow_l) {
        lemma_falls_from_rest(th, max_updates, m.brow_l, times, n.brow_l, now);
    }
    if moves_down(m.brow_r, n.brow_r) {
        lemma_falls_from_rest(th, max_updates, m.brow_r, times, n.brow_r, now);
    }
    if moves_down(m.corner_l, n.corner_l) {
        lemma_falls_from_rest(th, max_updates, m.corner_l, times, n.corner_l, now);
    }
    if moves_down(m.corner_r, n.corner_r) {
        lemma_falls_from_rest(th, max_updates, m.corner_r, times, n.corner_r, now);
    }
    if moves_up(m.jaw, n.jaw) {
        lemma_rises_from_rest(th, max_updates, m.jaw, times, n.jaw, now);
    }
}

/// Whether a measure above zero falls by more than 0.15 of it.
pub open spec fn moves_down(x: Single, y: Single) -> bool {
    &&& doubles(x)
    &&& single::of(0).lt(x)
    &&& y.lt(x)
    &&& ((x - y) / x).gt(single::of(features::TH_WIDE))
}

/// Whether a measure above zero rises by more than 0.15 of it.
pub open spec fn moves_up(x: Single, y: Single) -> bool {
    &&& doubles(x)
    &&& single::of(0).lt(x)
    &&& x.lt(y)
    &&& ((y - x) / x).gt(single::of(features::TH_WIDE))
}

} // verus!
