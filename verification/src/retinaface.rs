//! Faces from the outputs of a detector with prior boxes.

use crate::decode::TensorF16;
use crate::ieee::convert;
use crate::ieee::decimal;
use crate::ieee::near;
use crate::ieee::near::{real_of, roughly, size};
use crate::ieee::rises;
use crate::ieee::words;
use crate::ieee::single;
use crate::ieee::single::Single;
use crate::preprocess::BgrImage;
use crate::rank;
use vstd::prelude::*;

verus! {

/// A face that was found: two corners and a score.
#[derive(Clone, Copy, Debug, PartialEq, Eq, Structural)]
pub struct Det {
    pub x1: Single,
    pub y1: Single,
    pub x2: Single,
    pub y2: Single,
    pub score: Single,
}

pub open spec fn area_spec(d: Det) -> Single {
    let one = single::of(single::ONE);
    (d.x2 - d.x1 + one) * (d.y2 - d.y1 + one)
}

/// The area of a box whose corners belong to it.
#[verifier::when_used_as_spec(area_spec)]
pub fn area(d: Det) -> (r: Single)
    ensures
        r == area_spec(d),
{
    let one: Single = single::of(single::ONE);
    (d.x2 - d.x1 + one) * (d.y2 - d.y1 + one)
}

pub open spec fn overlap_spec(a: Det, b: Det) -> Single {
    let one = single::of(single::ONE);
    let z = single::of(0);
    let w = (a.x2.min(b.x2) - a.x1.max(b.x1) + one).max(z);
    let h = (a.y2.min(b.y2) - a.y1.max(b.y1) + one).max(z);
    w * h / (area(a) + area(b) - w * h)
}

/// The area that two boxes share, as a part of the area of both.
#[verifier::when_used_as_spec(overlap_spec)]
pub fn overlap(a: Det, b: Det) -> (r: Single)
    ensures
        r == overlap_spec(a, b),
{
    let one: Single = single::of(single::ONE);
    let z: Single = single::of(0);
    let w: Single = (a.x2.min(b.x2) - a.x1.max(b.x1) + one).max(z);
    let h: Single = (a.y2.min(b.y2) - a.y1.max(b.y1) + one).max(z);
    let inter: Single = w * h;
    inter / (area(a) + area(b) - inter)
}

/// Those of `rest` that overlap with detection `i` by at most `thresh`.
pub open spec fn apart(dets: Seq<Det>, i: int, rest: Seq<int>, thresh: Single) -> Seq<int>
    decreases rest.len(),
{
    if rest.len() == 0 {
        Seq::empty()
    } else {
        let front = apart(dets, i, rest.drop_last(), thresh);
        if overlap(dets[i], dets[rest.last()]).le(thresh) {
            front.push(rest.last())
        } else {
            front
        }
    }
}

/// Those that are apart are the ones of `rest` that overlap by at most the threshold.
pub proof fn lemma_apart(dets: Seq<Det>, i: int, rest: Seq<int>, thresh: Single)
    ensures
        apart(dets, i, rest, thresh).len() <= rest.len(),
        forall|k: int|
            0 <= k < apart(dets, i, rest, thresh).len() ==> rest.contains(
                #[trigger] apart(dets, i, rest, thresh)[k],
            ) && overlap(dets[i], dets[apart(dets, i, rest, thresh)[k]]).le(thresh),
        forall|k: int|
            0 <= k < rest.len() && overlap(dets[i], dets[#[trigger] rest[k]]).le(thresh) ==> apart(
                dets,
                i,
                rest,
                thresh,
            ).contains(rest[k]),
    decreases rest.len(),
{
    if rest.len() > 0 {
        let front = rest.drop_last();
        lemma_apart(dets, i, front, thresh);
        let f = apart(dets, i, front, thresh);
        let a = apart(dets, i, rest, thresh);
        assert forall|k: int| 0 <= k < a.len() implies rest.contains(#[trigger] a[k]) && overlap(
            dets[i],
            dets[a[k]],
        ).le(thresh) by {
            if k < f.len() {
                assert(a[k] == f[k]);
                let m = choose|m: int| 0 <= m < front.len() && front[m] == f[k];
                assert(rest[m] == a[k]);
            } else {
                assert(rest[rest.len() - 1] == a[k]);
            }
        }
        assert forall|k: int| 0 <= k < rest.len() && overlap(dets[i], dets[#[trigger] rest[k]]).le(
            thresh,
        ) implies a.contains(rest[k]) by {
            if k < front.len() {
                assert(front[k] == rest[k]);
                let m = choose|m: int| 0 <= m < f.len() && f[m] == rest[k];
                assert(a[m] == rest[k]);
            } else {
                assert(a[a.len() - 1] == rest[k]);
            }
        }
    }
}

/// The detections that are kept: the first one, and of those apart from it the ones that are
/// kept in turn.
pub open spec fn survivors(dets: Seq<Det>, order: Seq<int>, thresh: Single) -> Seq<int>
    decreases order.len(),
{
    if order.len() == 0 {
        Seq::empty()
    } else {
        let rest = apart(dets, order[0], order.drop_first(), thresh);
        proof {
            lemma_apart(dets, order[0], order.drop_first(), thresh);
        }
        seq![order[0]] + survivors(dets, rest, thresh)
    }
}

/// Of the detections that are kept none overlaps with another by more than the threshold, and
/// each that is dropped overlaps by more than that with one that is kept.
pub proof fn lemma_survivors(dets: Seq<Det>, order: Seq<int>, thresh: Single)
    ensures
        ({
            let s = survivors(dets, order, thresh);
            &&& order.len() > 0 ==> s.len() > 0 && s[0] == order[0]
            &&& forall|a: int| 0 <= a < s.len() ==> order.contains(#[trigger] s[a])
            &&& forall|a: int, b: int|
                0 <= a < b < s.len() ==> overlap(dets[#[trigger] s[a]], dets[#[trigger] s[b]]).le(
                    thresh,
                )
            &&& forall|k: int|
                0 <= k < order.len() ==> s.contains(#[trigger] order[k]) || exists|a: int|
                    0 <= a < s.len() && !overlap(dets[#[trigger] s[a]], dets[order[k]]).le(thresh)
        }),
    decreases order.len(),
{
    let s = survivors(dets, order, thresh);
    if order.len() > 0 {
        let tail = order.drop_first();
        let rest = apart(dets, order[0], tail, thresh);
        lemma_apart(dets, order[0], tail, thresh);
        lemma_survivors(dets, rest, thresh);
        let t = survivors(dets, rest, thresh);
        assert(s =~= seq![order[0]] + t);
        assert forall|a: int| 0 <= a < s.len() implies order.contains(#[trigger] s[a]) by {
            if a > 0 {
                assert(s[a] == t[a - 1]);
                let m = choose|m: int| 0 <= m < rest.len() && rest[m] == t[a - 1];
                assert(tail.contains(rest[m]));
                let n = choose|n: int| 0 <= n < tail.len() && tail[n] == rest[m];
                assert(order[n + 1] == s[a]);
            } else {
                assert(order[0] == s[a]);
            }
        }
        assert forall|a: int, b: int| 0 <= a < b < s.len() implies overlap(
            dets[#[trigger] s[a]],
            dets[#[trigger] s[b]],
        ).le(thresh) by {
            assert(s[b] == t[b - 1]);
            if a == 0 {
                let m = choose|m: int| 0 <= m < rest.len() && rest[m] == t[b - 1];
                assert(overlap(dets[order[0]], dets[rest[m]]).le(thresh));
            } else {
                assert(s[a] == t[a - 1]);
            }
        }
        assert forall|k: int| 0 <= k < order.len() implies s.contains(#[trigger] order[k]) || exists|a: int|
            0 <= a < s.len() && !overlap(dets[#[trigger] s[a]], dets[order[k]]).le(thresh) by {
            if k == 0 {
                assert(s[0] == order[0]);
            } else {
                assert(tail[k - 1] == order[k]);
                if overlap(dets[order[0]], dets[tail[k - 1]]).le(thresh) {
                    let m = choose|m: int| 0 <= m < rest.len() && rest[m] == order[k];
                    assert(rest[m] == order[k]);
                    if t.contains(rest[m]) {
                        let n = choose|n: int| 0 <= n < t.len() && t[n] == rest[m];
                        assert(s[n + 1] == order[k]);
                    } else {
                        let a = choose|a: int|
                            0 <= a < t.len() && !overlap(dets[#[trigger] t[a]], dets[rest[m]]).le(
                                thresh,
                            );
                        assert(s[a + 1] == t[a]);
                        assert(!overlap(dets[s[a + 1]], dets[order[k]]).le(thresh));
                    }
                } else {
                    assert(!overlap(dets[s[0]], dets[order[k]]).le(thresh));
                }
            }
        }
    }
}

/// The scores of detections.
pub open spec fn scores(dets: Seq<Det>) -> Seq<Single> {
    dets.map_values(|d: Det| d.score)
}

/// The detections that are kept, by falling score.
pub open spec fn kept(dets: Seq<Det>, thresh: Single) -> Seq<int> {
    survivors(dets, rank::ranked(scores(dets), dets.len() as int), thresh)
}

proof fn lemma_apart_in_order(dets: Seq<Det>, i: int, rest: Seq<int>, thresh: Single)
    requires
        rest.no_duplicates(),
        rank::falling(rest, scores(dets)),
    ensures
        apart(dets, i, rest, thresh).no_duplicates(),
        rank::falling(apart(dets, i, rest, thresh), scores(dets)),
    decreases rest.len(),
{
    if rest.len() > 0 {
        let front = rest.drop_last();
        lemma_apart_in_order(dets, i, front, thresh);
        lemma_apart(dets, i, front, thresh);
        let f = apart(dets, i, front, thresh);
        let a = apart(dets, i, rest, thresh);
        let keys = scores(dets);
        assert forall|k: int, l: int| 0 <= k < l < a.len() implies {
            let (p, q) = (#[trigger] a[k], #[trigger] a[l]);
            p != q && !keys[p].lt(keys[q]) && (!keys[q].lt(keys[p]) ==> p < q)
        } by {
            assert(a[k] == f[k]);
            if l < f.len() {
                assert(a[l] == f[l]);
            } else {
                assert(a[l] == rest.last());
                let m = choose|m: int| 0 <= m < front.len() && front[m] == f[k];
                assert(rest[m] == a[k]);
                assert(rest[rest.len() - 1] == a[l]);
            }
        }
    }
}

/// Where the detections come by falling score, each that is dropped overlaps by more than the
/// threshold with a kept one whose score is no lower, and none is kept twice.
pub proof fn lemma_survivors_in_order(dets: Seq<Det>, order: Seq<int>, thresh: Single)
    requires
        order.no_duplicates(),
        rank::falling(order, scores(dets)),
    ensures
        ({
            let s = survivors(dets, order, thresh);
            &&& s.no_duplicates()
            &&& rank::falling(s, scores(dets))
            &&& forall|k: int|
                0 <= k < order.len() ==> s.contains(#[trigger] order[k]) || exists|a: int|
                    0 <= a < s.len() && !overlap(dets[#[trigger] s[a]], dets[order[k]]).le(thresh)
                        && !scores(dets)[s[a]].lt(scores(dets)[order[k]])
        }),
    decreases order.len(),
{
    let keys = scores(dets);
    let s = survivors(dets, order, thresh);
    if order.len() > 0 {
        let tail = order.drop_first();
        let rest = apart(dets, order[0], tail, thresh);
        lemma_apart(dets, order[0], tail, thresh);
        assert(tail.no_duplicates());
        assert(rank::falling(tail, keys)) by {
            assert forall|i: int, j: int| 0 <= i < j < tail.len() implies {
                let (a, b) = (#[trigger] tail[i], #[trigger] tail[j]);
                !keys[a].lt(keys[b]) && (!keys[b].lt(keys[a]) ==> a < b)
            } by {
                assert(tail[i] == order[i + 1] && tail[j] == order[j + 1]);
            }
        }
        lemma_apart_in_order(dets, order[0], tail, thresh);
        lemma_survivors_in_order(dets, rest, thresh);
        lemma_survivors(dets, rest, thresh);
        let t = survivors(dets, rest, thresh);
        assert(s =~= seq![order[0]] + t);
        assert forall|a: int, b: int| 0 <= a < b < s.len() implies {
            let (p, q) = (#[trigger] s[a], #[trigger] s[b]);
            p != q && !keys[p].lt(keys[q]) && (!keys[q].lt(keys[p]) ==> p < q)
        } by {
            assert(s[b] == t[b - 1]);
            if a > 0 {
                assert(s[a] == t[a - 1]);
            } else {
                let m = choose|m: int| 0 <= m < rest.len() && rest[m] == t[b - 1];
                assert(tail.contains(rest[m]));
                let n = choose|n: int| 0 <= n < tail.len() && tail[n] == rest[m];
                assert(order[n + 1] == s[b]);
                assert(order[0] == s[a]);
            }
        }
        assert forall|k: int| 0 <= k < order.len() implies s.contains(#[trigger] order[k]) || exists|a: int|
            0 <= a < s.len() && !overlap(dets[#[trigger] s[a]], dets[order[k]]).le(thresh)
                && !keys[s[a]].lt(keys[order[k]]) by {
            assert(s[0] == order[0]);
            if k > 0 {
                assert(tail[k - 1] == order[k]);
                if overlap(dets[order[0]], dets[tail[k - 1]]).le(thresh) {
                    let m = choose|m: int| 0 <= m < rest.len() && rest[m] == order[k];
                    assert(rest[m] == order[k]);
                    if t.contains(rest[m]) {
                        let n = choose|n: int| 0 <= n < t.len() && t[n] == rest[m];
                        assert(s[n + 1] == order[k]);
                    } else {
                        let a = choose|a: int|
                            0 <= a < t.len() && !overlap(dets[#[trigger] t[a]], dets[rest[m]]).le(
                                thresh,
                            ) && !keys[t[a]].lt(keys[rest[m]]);
                        assert(s[a + 1] == t[a]);
                        assert(!overlap(dets[s[a + 1]], dets[order[k]]).le(thresh));
                    }
                } else {
                    assert(!overlap(dets[s[0]], dets[order[k]]).le(thresh));
                }
            }
        }
    }
}

/// What suppression keeps, by falling score and none twice, overlaps pairwise by at most the
/// threshold; each detection is kept, or overlaps by more than that with a kept one whose score is at
/// least as high.
pub proof fn lemma_kept(dets: Seq<Det>, thresh: Single)
    requires
        forall|i: int| 0 <= i < dets.len() ==> !(#[trigger] dets[i]).score.is_nan(),
    ensures
        ({
            let s = kept(dets, thresh);
            &&& s.no_duplicates()
            &&& forall|a: int| 0 <= a < s.len() ==> 0 <= #[trigger] s[a] < dets.len()
            &&& forall|a: int, b: int|
                0 <= a < b < s.len() ==> dets[#[trigger] s[b]].score.le(dets[#[trigger] s[a]].score)
                    && overlap(dets[s[a]], dets[s[b]]).le(thresh)
            &&& forall|i: int|
                0 <= i < dets.len() ==> s.contains(i) || exists|a: int|
                    0 <= a < s.len() && !overlap(dets[#[trigger] s[a]], #[trigger] dets[i]).le(thresh)
                        && dets[i].score.le(dets[s[a]].score)
        }),
{
    let keys = scores(dets);
    let n = dets.len() as int;
    let order = rank::ranked(keys, n);
    let s = kept(dets, thresh);
    rank::lemma_ranked_permutation(keys, n);
    assert forall|i: int| 0 <= i < n implies !(#[trigger] keys[i]).is_nan() by {
        assert(!dets[i].score.is_nan());
    }
    rank::lemma_ranked_falls(keys, n);
    lemma_survivors(dets, order, thresh);
    lemma_survivors_in_order(dets, order, thresh);
    assert forall|a: int| 0 <= a < s.len() implies 0 <= #[trigger] s[a] < n by {
        let k = choose|k: int| 0 <= k < order.len() && order[k] == s[a];
        assert(0 <= order[k] < n);
    }
    assert forall|a: int, b: int| 0 <= a < b < s.len() implies dets[#[trigger] s[b]].score.le(
        dets[#[trigger] s[a]].score,
    ) by {
        assert(!keys[s[a]].lt(keys[s[b]]));
        assert(!dets[s[a]].score.is_nan() && !dets[s[b]].score.is_nan());
    }
    assert forall|i: int| 0 <= i < n && !s.contains(i) implies exists|a: int|
        0 <= a < s.len() && !overlap(dets[#[trigger] s[a]], #[trigger] dets[i]).le(thresh)
            && dets[i].score.le(dets[s[a]].score) by {
        rank::lemma_permutation_covers(order, n, i);
        let k = choose|k: int| 0 <= k < order.len() && order[k] == i;
        assert(order[k] == i);
        let a = choose|a: int|
            0 <= a < s.len() && !overlap(dets[#[trigger] s[a]], dets[order[k]]).le(thresh)
                && !keys[s[a]].lt(keys[order[k]]);
        assert(!dets[s[a]].score.is_nan() && !dets[i].score.is_nan());
        assert(!overlap(dets[s[a]], dets[i]).le(thresh));
    }
}

/// Drops each detection that overlaps too far with a kept one of a higher score.
pub fn nms(dets: &[Det], thresh: Single) -> (keep: Vec<usize>)
    ensures
        rank::places(keep@) == kept(dets@, thresh),
        forall|i: int| 0 <= i < keep@.len() ==> (#[trigger] keep@[i]) < dets@.len(),
{
    let mut keys: Vec<Single> = Vec::new();
    let mut i: usize = 0;
    while i < dets.len()
        invariant
            i <= dets@.len(),
            keys@ == scores(dets@).take(i as int),
        decreases dets@.len() - i,
    {
        keys.push(dets[i].score);
        i = i + 1;
        assert(keys@ =~= scores(dets@).take(i as int));
    }
    assert(keys@ =~= scores(dets@));
    let mut order: Vec<usize> = rank::rank(keys.as_slice());
    let mut keep: Vec<usize> = Vec::new();
    let ghost all = kept(dets@, thresh);
    assert(rank::places(keep@) + survivors(dets@, rank::places(order@), thresh) =~= all);
    while order.len() > 0
        invariant
            all == kept(dets@, thresh),
            all == rank::places(keep@) + survivors(dets@, rank::places(order@), thresh),
            forall|k: int| 0 <= k < order@.len() ==> (#[trigger] order@[k]) < dets@.len(),
            forall|k: int| 0 <= k < keep@.len() ==> (#[trigger] keep@[k]) < dets@.len(),
        decreases order@.len(),
    {
        let h: usize = order[0];
        let ghost o = rank::places(order@);
        let ghost tail = o.drop_first();
        let mut rest: Vec<usize> = Vec::new();
        let mut j: usize = 1;
        assert(rank::places(rest@) =~= apart(dets@, h as int, tail.take(0), thresh));
        while j < order.len()
            invariant
                1 <= j <= order@.len(),
                h < dets@.len(),
                o == rank::places(order@),
                tail == o.drop_first(),
                forall|k: int| 0 <= k < order@.len() ==> (#[trigger] order@[k]) < dets@.len(),
                forall|k: int| 0 <= k < rest@.len() ==> (#[trigger] rest@[k]) < dets@.len(),
                rest@.len() < j,
                rank::places(rest@) == apart(dets@, h as int, tail.take(j - 1), thresh),
            decreases order@.len() - j,
        {
            proof {
                let t = tail.take(j as int);
                assert(t.drop_last() =~= tail.take(j - 1));
                assert(t.last() == order@[j as int] as int);
            }
            if overlap(dets[h], dets[order[j]]).le(thresh) {
                let ghost before = rest@;
                rest.push(order[j]);
                assert(rank::places(rest@) =~= rank::places(before).push(order@[j as int] as int));
            }
            j = j + 1;
        }
        let ghost done = keep@;
        keep.push(h);
        proof {
            assert(tail.take(j - 1) =~= tail);
            assert(o[0] == h as int);
            assert(rank::places(keep@) =~= rank::places(done).push(h as int));
            assert(rank::places(keep@) + survivors(dets@, rank::places(rest@), thresh) =~= rank::places(
                done,
            ) + survivors(dets@, o, thresh));
        }
        order = rest;
    }
    assert(survivors(dets@, rank::places(order@), thresh) =~= Seq::empty());
    assert(rank::places(keep@) =~= all);
    keep
}

/// A prior box moved and resized by what the detector says of it: `e` holds the exponentials of a
/// fifth of its last two numbers. The result is two corners.
pub open spec fn decoded(l: Seq<Single>, p: Seq<Single>, e: Seq<Single>) -> Seq<Single> {
    let tenth = single::of(decimal::N0_1);
    let two = single::of(decimal::N2);
    let cx = p[0] + l[0] * tenth * p[2];
    let cy = p[1] + l[1] * tenth * p[3];
    let w = p[2] * e[0];
    let h = p[3] * e[1];
    seq![cx - w / two, cy - h / two, cx + w / two, cy + h / two]
}

/// One axis of a box: where it starts and ends, with the middle `c + l s / 10` and the length `s e`.
proof fn lemma_axis(l: Single, c: Single, s: Single, e: Single, a: real, b: real, m: real)
    requires
        l.is_finite() && c.is_finite() && s.is_finite() && e.is_finite(),
        size(real_of(l)) <= a,
        size(real_of(e)) <= a,
        size(real_of(s)) <= b,
        size(real_of(c)) <= m,
        1real <= a <= 2real * words::most(),
        words::least() <= b,
        a * b <= m <= words::most(),
        1real <= m,
    ensures
        ({
            let two = single::of(decimal::N2);
            let mid = c + l * single::of(decimal::N0_1) * s;
            let w = s * e;
            let v = real_of(c) + real_of(l) / 10real * real_of(s);
            let half = real_of(s) * real_of(e) / 2real;
            &&& (l * single::of(decimal::N0_1)).is_finite()
            &&& (l * single::of(decimal::N0_1) * s).is_finite()
            &&& mid.is_finite() && (w / two).is_finite()
            &&& roughly(mid - w / two, v - half, 2real * m, 16real)
            &&& roughly(mid + w / two, v + half, 2real * m, 16real)
        }),
{
    let tenth = single::of(decimal::N0_1);
    let two = single::of(decimal::N2);
    let (rl, rc, rs, re) = (real_of(l), real_of(c), real_of(s), real_of(e));
    words::lemma_words();
    words::lemma_tenth();
    near::lemma_itself(l, a);
    near::lemma_itself(c, m);
    near::lemma_itself(s, b);
    near::lemma_itself(e, a);
    near::lemma_itself(two, 2real);
    let ab = a * b;
    assert(ab >= 1real / 1000000000000real) by (nonlinear_arith)
        requires
            ab == a * b,
            a >= 1real,
            b >= 1real / 1000000000000real,
    ;
    let at = a * (1real / 10real);
    near::lemma_times(l, rl, a, 0real, tenth, 1real / 10real, 1real / 10real, 1real);
    let lt = rl * (1real / 10real);
    assert(at * b == ab / 10real) by (nonlinear_arith)
        requires
            at == a * (1real / 10real),
            ab == a * b,
    ;
    near::lemma_times(l * tenth, lt, at, 3real, s, rs, b, 0real);
    near::lemma_looser(c, rc, m, 0real, m, 5real);
    near::lemma_add(c, rc, m, l * tenth * s, lt * rs, ab / 10real, 5real);
    let mid = c + l * tenth * s;
    assert(lt == rl / 10real);
    near::lemma_looser(mid, rc + lt * rs, m + ab / 10real, 7real, 11real * m / 10real, 7real);
    assert(b * a == ab) by (nonlinear_arith)
        requires
            ab == a * b,
    ;
    near::lemma_times(s, rs, b, 0real, e, re, a, 0real);
    near::lemma_over(s * e, rs * re, ab, 2real, two, 2real, 0real);
    near::lemma_looser(s * e / two, rs * re / 2real, ab / 2real, 5real, m / 2real, 7real);
    near::lemma_add(mid, rc + lt * rs, 11real * m / 10real, s * e / two, rs * re / 2real, m / 2real, 7real);
    near::lemma_less(mid, rc + lt * rs, 11real * m / 10real, s * e / two, rs * re / 2real, m / 2real, 7real);
    let h = 11real * m / 10real + m / 2real;
    near::lemma_looser(mid - s * e / two, rc + lt * rs - rs * re / 2real, h, 9real, 2real * m, 16real);
    near::lemma_looser(mid + s * e / two, rc + lt * rs + rs * re / 2real, h, 9real, 2real * m, 16real);
}

/// A box stands about its prior as the detector says, but for rounding: on either axis its middle is
/// moved from the prior's by a tenth of the offset times the prior's length, and it is as many times as
/// long as the prior as the exponential says. Offsets and exponentials are at most `a`, the prior's
/// lengths at most `b`, and its middle and `a b` at most `m`.
pub proof fn lemma_box_about_prior(l: Seq<Single>, p: Seq<Single>, e: Seq<Single>, a: real, b: real, m: real)
    requires
        forall|i: int| 0 <= i < 2 ==> (#[trigger] l[i]).is_finite() && size(real_of(l[i])) <= a,
        forall|i: int| 0 <= i < 2 ==> (#[trigger] e[i]).is_finite() && size(real_of(e[i])) <= a,
        forall|i: int| 0 <= i < 4 ==> (#[trigger] p[i]).is_finite(),
        forall|i: int| 0 <= i < 2 ==> size(real_of(#[trigger] p[i])) <= m,
        forall|i: int| 2 <= i < 4 ==> size(real_of(#[trigger] p[i])) <= b,
        1real <= a <= 2real * words::most(),
        words::least() <= b,
        a * b <= m <= words::most(),
        1real <= m,
    ensures
        forall|i: int|
            0 <= i < 2 ==> stands_about(
                #[trigger] decoded(l, p, e)[i],
                decoded(l, p, e)[i + 2],
                p[i],
                l[i],
                p[i + 2],
                e[i],
                m,
            ),
{
    let d = decoded(l, p, e);
    assert(l[0].is_finite() && l[1].is_finite() && e[0].is_finite() && e[1].is_finite());
    assert(p[0].is_finite() && p[1].is_finite() && p[2].is_finite() && p[3].is_finite());
    lemma_axis(l[0], p[0], p[2], e[0], a, b, m);
    lemma_axis(l[1], p[1], p[3], e[1], a, b, m);
    lemma_ends(d[0], d[2], p[0], l[0], p[2], e[0], m);
    lemma_ends(d[1], d[3], p[1], l[1], p[3], e[1], m);
    assert forall|i: int| 0 <= i < 2 implies stands_about(#[trigger] d[i], d[i + 2], p[i], l[i], p[i + 2], e[i], m) by {
        assert(i == 0 || i == 1);
    }
}

/// Whether a box reaches from `lo` to `hi` on an axis on which its prior has the middle `c` and the
/// length `s`, the offset is `l` and the exponential `e`, but for rounding of numbers of size `m`.
pub open spec fn stands_about(lo: Single, hi: Single, c: Single, l: Single, s: Single, e: Single, m: real)
    -> bool {
    let (middle, length) = ((real_of(lo) + real_of(hi)) / 2real, real_of(hi) - real_of(lo));
    &&& lo.is_finite() && hi.is_finite()
    &&& size(middle - (real_of(c) + real_of(l) * real_of(s) / 10real)) <= 32real * near::eps() * m
    &&& size(length - real_of(s) * real_of(e)) <= 64real * near::eps() * m
}

proof fn lemma_ends(lo: Single, hi: Single, c: Single, l: Single, s: Single, e: Single, m: real)
    requires
        ({
            let v = real_of(c) + real_of(l) / 10real * real_of(s);
            let half = real_of(s) * real_of(e) / 2real;
            &&& roughly(lo, v - half, 2real * m, 16real)
            &&& roughly(hi, v + half, 2real * m, 16real)
        }),
    ensures
        stands_about(lo, hi, c, l, s, e, m),
{
    let (x, y, z, eps) = (real_of(l), real_of(s), real_of(s) * real_of(e), near::eps());
    let (q, k) = (x * y, x / 10real * y);
    assert(k == q / 10real) by (nonlinear_arith)
        requires
            k == x / 10real * y,
            q == x * y,
    ;
    let g = 16real * eps * (2real * m);
    assert(g == 32real * eps * m && 2real * g == 64real * eps * m) by (nonlinear_arith)
        requires
            g == 16real * eps * (2real * m),
    ;
}

/// The offset of a middle `g` from a prior, in tenths of the prior's length.
pub open spec fn offset_to(g: Single, c: Single, s: Single) -> Single {
    (g - c) / (single::of(decimal::N0_1) * s)
}

/// Decoding undoes encoding, but for rounding: a box whose offsets were taken from a middle has that
/// middle. `h` bounds the middles and the prior's lengths.
pub proof fn lemma_encoding_undone(l: Seq<Single>, p: Seq<Single>, e: Seq<Single>, g: Seq<Single>, i: int, h: real)
    requires
        0 <= i < 2,
        g[i].is_finite() && p[i].is_finite() && p[i + 2].is_finite() && e[i].is_finite(),
        size(real_of(g[i])) <= h,
        size(real_of(p[i])) <= h,
        words::least() <= real_of(p[i + 2]) <= h,
        size(real_of(e[i])) <= 1real,
        1real <= h <= 1000000000000real,
        l[i] == offset_to(g[i], p[i], p[i + 2]),
    ensures
        ({
            let (lo, hi) = (decoded(l, p, e)[i], decoded(l, p, e)[i + 2]);
            &&& lo.is_finite() && hi.is_finite()
            &&& size((real_of(lo) + real_of(hi)) / 2real - real_of(g[i])) <= 1400real * near::eps() * h
        }),
{
    let (c, s, x) = (p[i], p[i + 2], g[i]);
    let tenth = single::of(decimal::N0_1);
    let (rc, rs, rg) = (real_of(c), real_of(s), real_of(x));
    words::lemma_tenth();
    near::lemma_itself(x, h);
    near::lemma_itself(c, h);
    near::lemma_itself(s, rs);
    near::lemma_less(x, rg, h, c, rc, h, 0real);
    near::lemma_times(tenth, 1real / 10real, 1real / 10real, 1real, s, rs, rs, 0real);
    let w = 1real / 10real * rs;
    assert(w == rs / 10real && size(w) == w);
    let k = (h + h) / w;
    assert(k * rs == 20real * h && 0real < k) by (nonlinear_arith)
        requires
            k == (h + h) / w,
            w == rs / 10real,
            rs > 0real,
            h >= 1real,
    ;
    assert(2real <= k <= 1000000000000000000000000000real) by (nonlinear_arith)
        requires
            k * rs == 20real * h,
            1real / 1000000000000real <= rs <= h,
            1real <= h <= 1000000000000real,
    ;
    near::lemma_over(x - c, rg - rc, h + h, 2real, tenth * s, w, 3real);
    let o = l[i];
    let ro = real_of(o);
    let t = (rg - rc) / w;
    let eps = near::eps();
    assert(size(ro - t) <= 8real * eps * k);
    assert(t * w == rg - rc) by (nonlinear_arith)
        requires
            t == (rg - rc) / w,
            w > 0real,
    ;
    let d = ro - t;
    assert(size(d * w) <= 16real * eps * h) by (nonlinear_arith)
        requires
            size(d) <= 8real * eps * k,
            k * rs == 20real * h,
            w == rs / 10real,
            w > 0real,
            eps > 0real,
    ;
    assert(ro * w == d * w + t * w) by (nonlinear_arith)
        requires
            d == ro - t,
    ;
    assert(ro * rs / 10real == ro * w) by (nonlinear_arith)
        requires
            w == rs / 10real,
    ;
    let a = 2real * k;
    assert(8real * eps * k <= k) by (nonlinear_arith)
        requires
            eps == 1real / 16777216real,
            k > 0real,
    ;
    let m = 40real * h;
    assert(a * rs == m) by (nonlinear_arith)
        requires
            a == 2real * k,
            k * rs == 20real * h,
            m == 40real * h,
    ;
    lemma_axis(o, c, s, e[i], a, rs, m);
    let (lo, hi) = (decoded(l, p, e)[i], decoded(l, p, e)[i + 2]);
    lemma_ends(lo, hi, c, o, s, e[i], m);
    assert(32real * eps * m + 16real * eps * h <= 1400real * eps * h) by (nonlinear_arith)
        requires
            m == 40real * h,
            eps > 0real,
            h >= 1real,
    ;
}

/// A larger offset never gives a smaller corner on its axis, and leaves the other axis as it is.
pub proof fn lemma_offset_moves_box(
    l: Seq<Single>,
    k: Seq<Single>,
    p: Seq<Single>,
    e: Seq<Single>,
    i: int,
    a: real,
    b: real,
    m: real,
)
    requires
        0 <= i < 2,
        l[i].is_finite() && k[i].is_finite() && e[i].is_finite() && p[i].is_finite() && p[i + 2].is_finite(),
        size(real_of(l[i])) <= a && size(real_of(k[i])) <= a && size(real_of(e[i])) <= a,
        size(real_of(p[i])) <= m && size(real_of(p[i + 2])) <= b,
        1real <= a <= 2real * words::most(),
        words::least() <= b,
        a * b <= m <= words::most(),
        1real <= m,
        l[i].le(k[i]),
        l[1 - i] == k[1 - i],
        single::of(0).le(p[i + 2]),
    ensures
        decoded(l, p, e)[i].le(decoded(k, p, e)[i]),
        decoded(l, p, e)[i + 2].le(decoded(k, p, e)[i + 2]),
        decoded(l, p, e)[1 - i] == decoded(k, p, e)[1 - i],
        decoded(l, p, e)[3 - i] == decoded(k, p, e)[3 - i],
{
    let tenth = single::of(decimal::N0_1);
    let two = single::of(decimal::N2);
    words::lemma_words();
    words::lemma_tenth();
    lemma_axis(l[i], p[i], p[i + 2], e[i], a, b, m);
    lemma_axis(k[i], p[i], p[i + 2], e[i], a, b, m);
    near::lemma_real_order(single::of(0), tenth);
    rises::lemma_product_rises(l[i], k[i], tenth);
    let (x, y) = (l[i] * tenth, k[i] * tenth);
    rises::lemma_product_rises(x, y, p[i + 2]);
    rises::lemma_sum_rises(x * p[i + 2], y * p[i + 2], p[i]);
    let w = p[i + 2] * e[i] / two;
    rises::lemma_difference_falls(p[i] + x * p[i + 2], p[i] + y * p[i + 2], w);
    rises::lemma_sum_rises(p[i] + x * p[i + 2], p[i] + y * p[i + 2], w);
}

/// The numbers whose exponentials the boxes take.
pub fn exp_args(loc: &[[Single; 4]]) -> (r: Vec<[Single; 2]>)
    ensures
        r@.len() == loc@.len(),
        forall|i: int|
            0 <= i < r@.len() ==> #[trigger] r@[i][0] == loc@[i][2] * single::of(decimal::N0_2)
                && r@[i][1] == loc@[i][3] * single::of(decimal::N0_2),
{
    let fifth: Single = single::of(decimal::N0_2);
    let mut r: Vec<[Single; 2]> = Vec::new();
    let mut i: usize = 0;
    while i < loc.len()
        invariant
            i <= loc@.len(),
            r@.len() == i,
            fifth == single::of(decimal::N0_2),
            forall|k: int|
                0 <= k < i ==> #[trigger] r@[k][0] == loc@[k][2] * fifth && r@[k][1] == loc@[k][3]
                    * fifth,
        decreases loc@.len() - i,
    {
        r.push([loc[i][2] * fifth, loc[i][3] * fifth]);
        i = i + 1;
    }
    r
}

/// The boxes that the detector speaks of, as two corners each.
pub fn decode_boxes(loc: &[[Single; 4]], priors: &[[Single; 4]], exps: &[[Single; 2]]) -> (r: Vec<
    [Single; 4],
>)
    requires
        exps@.len() >= loc@.len(),
    ensures
        r@.len() == (if loc@.len() < priors@.len() {
            loc@.len()
        } else {
            priors@.len()
        }),
        forall|i: int|
            0 <= i < r@.len() ==> (#[trigger] r@[i])@ == decoded(loc@[i]@, priors@[i]@, exps@[i]@),
{
    let n: usize = if loc.len() < priors.len() {
        loc.len()
    } else {
        priors.len()
    };
    let tenth: Single = single::of(decimal::N0_1);
    let two: Single = single::of(decimal::N2);
    let mut r: Vec<[Single; 4]> = Vec::new();
    let mut i: usize = 0;
    while i < n
        invariant
            i <= n,
            n <= loc@.len(),
            n <= priors@.len(),
            n <= exps@.len(),
            r@.len() == i,
            tenth == single::of(decimal::N0_1),
            two == single::of(decimal::N2),
            forall|k: int|
                0 <= k < i ==> (#[trigger] r@[k])@ == decoded(loc@[k]@, priors@[k]@, exps@[k]@),
        decreases n - i,
    {
        let l: [Single; 4] = loc[i];
        let p: [Single; 4] = priors[i];
        let e: [Single; 2] = exps[i];
        let cx: Single = p[0] + l[0] * tenth * p[2];
        let cy: Single = p[1] + l[1] * tenth * p[3];
        let w: Single = p[2] * e[0];
        let h: Single = p[3] * e[1];
        let b: [Single; 4] = [cx - w / two, cy - h / two, cx + w / two, cy + h / two];
        proof {
            assert(b@ =~= decoded(l@, p@, e@));
        }
        r.push(b);
        i = i + 1;
    }
    r
}

/// The prior boxes in a table: the first four numbers of each row that has as many.
pub open spec fn priors_in(rows: Seq<Vec<Single>>) -> Seq<Seq<Single>>
    decreases rows.len(),
{
    if rows.len() == 0 {
        Seq::empty()
    } else {
        let front = priors_in(rows.drop_last());
        if rows.last()@.len() >= 4 {
            front.push(rows.last()@.take(4))
        } else {
            front
        }
    }
}

/// Rows of four as sequences.
pub open spec fn rows4(v: Seq<[Single; 4]>) -> Seq<Seq<Single>> {
    v.map_values(|r: [Single; 4]| r@)
}

/// The prior boxes in a table: the first four numbers of each row that has as many.
pub fn parse_priors(rows: &[Vec<Single>]) -> (r: Vec<[Single; 4]>)
    ensures
        rows4(r@) == priors_in(rows@),
{
    let mut r: Vec<[Single; 4]> = Vec::new();
    let mut i: usize = 0;
    assert(rows4(r@) =~= priors_in(rows@.take(0)));
    while i < rows.len()
        invariant
            i <= rows@.len(),
            rows4(r@) == priors_in(rows@.take(i as int)),
        decreases rows@.len() - i,
    {
        let row = &rows[i];
        proof {
            assert(rows@.take(i + 1).drop_last() =~= rows@.take(i as int));
        }
        if row.len() >= 4 {
            let p: [Single; 4] = [row[0], row[1], row[2], row[3]];
            let ghost before = r@;
            r.push(p);
            proof {
                assert(p@ =~= row@.take(4));
                assert(rows4(r@) =~= rows4(before).push(p@));
            }
        }
        i = i + 1;
    }
    assert(rows@.take(i as int) =~= rows@);
    r
}

/// A tensor's numbers, four by four; what is left over at the end is dropped.
pub fn flatten4(t: &TensorF16) -> (r: Vec<[Single; 4]>)
    ensures
        r@.len() == t.data@.len() / 4,
        forall|i: int, c: int|
            0 <= i < r@.len() && 0 <= c < 4 ==> #[trigger] r@[i][c] == convert::from_half(
                t.data@[4 * i + c],
            ),
{
    let n: usize = t.data.len() / 4;
    let mut r: Vec<[Single; 4]> = Vec::new();
    let mut i: usize = 0;
    while i < n
        invariant
            n == t.data@.len() / 4,
            t.data@.len() <= usize::MAX,
            i <= n,
            r@.len() == i,
            forall|k: int, c: int|
                0 <= k < i && 0 <= c < 4 ==> #[trigger] r@[k][c] == convert::from_half(
                    t.data@[4 * k + c],
                ),
        decreases n - i,
    {
        let at: usize = 4 * i;
        r.push(
            [
                convert::from_half(t.data[at]),
                convert::from_half(t.data[at + 1]),
                convert::from_half(t.data[at + 2]),
                convert::from_half(t.data[at + 3]),
            ],
        );
        i = i + 1;
    }
    r
}

/// How many numbers there are to a score: two where the last axis has two, and otherwise what
/// comes of sharing them out among half as many.
pub open spec fn stride(shape: Seq<i64>, n: int) -> int {
    if shape.len() >= 2 && shape.last() == 2 {
        2
    } else if n >= 2 {
        n / (n / 2)
    } else {
        1
    }
}

/// The scores in a tensor: the last of each group of numbers.
pub fn flatten_conf(t: &TensorF16) -> (r: Vec<Single>)
    ensures
        ({
            let s = stride(t.shape@, t.data@.len() as int);
            r@ == Seq::new(
                (t.data@.len() / s as nat) as nat,
                |i: int| convert::from_half(t.data@[s * i + (s - 1)]),
            )
        }),
{
    let n: usize = t.data.len();
    let d: usize = t.shape.len();
    let s: usize = if d >= 2 && t.shape[d - 1] == 2 {
        2
    } else if n >= 2 {
        n / (n / 2)
    } else {
        1
    };
    proof {
        if n >= 2 {
            assert(n as int / (n as int / 2) >= 1) by (nonlinear_arith)
                requires
                    n >= 2,
            ;
        }
    }
    let ghost want = Seq::new(
        (t.data@.len() / s as nat) as nat,
        |i: int| convert::from_half(t.data@[s * i + (s - 1)]),
    );
    let m: usize = n / s;
    let mut r: Vec<Single> = Vec::new();
    let mut i: usize = 0;
    while i < m
        invariant
            s >= 1,
            n == t.data@.len(),
            m == n / s,
            i <= m,
            want == Seq::new(
                (t.data@.len() / s as nat) as nat,
                |i: int| convert::from_half(t.data@[s * i + (s - 1)]),
            ),
            r@ == want.take(i as int),
        decreases m - i,
    {
        assert(s * i + (s - 1) < n) by (nonlinear_arith)
            requires
                i < n / s,
                s >= 1,
                i >= 0,
        ;
        assert(s * i >= 0) by (nonlinear_arith)
            requires
                s >= 1,
                i >= 0,
        ;
        r.push(convert::from_half(t.data[s * i + (s - 1)]));
        i = i + 1;
        assert(r@ =~= want.take(i as int));
    }
    assert(want.take(i as int) =~= want);
    r
}

/// What a detector of this kind is asked with, and what it has found in the background.
#[derive(Debug)]
pub struct RetinaFace {
    pub priors: Vec<[Single; 4]>,
    pub min_conf: Single,
    pub nms_threshold: Single,
    pub top_k: usize,
    pub pending: Option<BgrImage>,
    pub ready: Option<Vec<[Single; 4]>>,
}

/// The detections among the first `n` boxes: those with more than the least score, in pixels.
pub open spec fn found(
    boxes: Seq<Seq<Single>>,
    conf: Seq<Single>,
    min_conf: Single,
    w: Single,
    h: Single,
    n: int,
) -> Seq<Det>
    decreases n,
{
    if n <= 0 {
        Seq::empty()
    } else {
        let front = found(boxes, conf, min_conf, w, h, n - 1);
        if conf[n - 1].le(min_conf) {
            front
        } else {
            let b = boxes[n - 1];
            front.push(
                Det { x1: b[0] * w, y1: b[1] * h, x2: b[2] * w, y2: b[3] * h, score: conf[n - 1] },
            )
        }
    }
}

/// A detection as a corner, a width and a height, with a margin of 15 percent of the width on
/// either side and 20 percent of the height above and below.
pub open spec fn with_margin(d: Det) -> Seq<Single> {
    let two = single::of(decimal::N2);
    let bw = d.x2 - d.x1;
    let bh = d.y2 - d.y1;
    let ux = bw * single::of(decimal::N0_15);
    let uy = bh * single::of(decimal::N0_2);
    seq![d.x1 - ux, d.y1 - uy, bw + ux * two, bh + uy * two]
}

/// The smallest of three counts.
pub open spec fn least(a: nat, b: nat, c: nat) -> int {
    let ab = if a < b {
        a
    } else {
        b
    };
    if ab < c {
        ab as int
    } else {
        c as int
    }
}

impl RetinaFace {
    /// The boxes as the detector and the priors give them.
    pub open spec fn boxes_of(self, loc: Seq<[Single; 4]>, exps: Seq<[Single; 2]>) -> Seq<Seq<Single>> {
        Seq::new(loc.len(), |i: int| decoded(loc[i]@, self.priors@[i]@, exps[i]@))
    }

    /// The detections before they are thinned out.
    pub open spec fn dets_of(
        self,
        loc: Seq<[Single; 4]>,
        exps: Seq<[Single; 2]>,
        conf: Seq<Single>,
        width: int,
        height: int,
    ) -> Seq<Det> {
        found(
            self.boxes_of(loc, exps),
            conf,
            self.min_conf,
            Single::from_int(width),
            Single::from_int(height),
            least(self.priors@.len(), loc.len(), conf.len()),
        )
    }

    /// A detector with the given prior boxes, for at most `top_k` faces and at least one.
    pub fn new(priors: Vec<[Single; 4]>, top_k: usize) -> (r: RetinaFace)
        ensures
            r.priors == priors,
            r.min_conf == single::of(decimal::N0_4),
            r.nms_threshold == single::of(decimal::N0_4),
            r.top_k == (if top_k < 1 {
                1
            } else {
                top_k
            }),
            r.pending is None,
            r.ready is None,
    {
        RetinaFace {
            priors,
            min_conf: single::of(decimal::N0_4),
            nms_threshold: single::of(decimal::N0_4),
            top_k: if top_k < 1 {
                1
            } else {
                top_k
            },
            pending: None,
            ready: None,
        }
    }

    fn gather(
        &self,
        loc: &[[Single; 4]],
        exps: &[[Single; 2]],
        conf: &[Single],
        width: usize,
        height: usize,
    ) -> (dets: Vec<Det>)
        requires
            exps@.len() >= loc@.len(),
        ensures
            dets@ == self.dets_of(loc@, exps@, conf@, width as int, height as int),
    {
        let w: Single = single::from_u64(width as u64);
        let h: Single = single::from_u64(height as u64);
        let boxes: Vec<[Single; 4]> = decode_boxes(loc, self.priors.as_slice(), exps);
        let n: usize = if boxes.len() < conf.len() {
            boxes.len()
        } else {
            conf.len()
        };
        let ghost b = self.boxes_of(loc@, exps@);
        let mut dets: Vec<Det> = Vec::new();
        let mut i: usize = 0;
        while i < n
            invariant
                i <= n,
                n <= boxes@.len(),
                n <= conf@.len(),
                boxes@.len() <= loc@.len(),
                b == self.boxes_of(loc@, exps@),
                forall|k: int|
                    0 <= k < boxes@.len() ==> (#[trigger] boxes@[k])@ == decoded(
                        loc@[k]@,
                        self.priors@[k]@,
                        exps@[k]@,
                    ),
                dets@ == found(b, conf@, self.min_conf, w, h, i as int),
            decreases n - i,
        {
            let score: Single = conf[i];
            if !score.le(self.min_conf) {
                let q: [Single; 4] = boxes[i];
                proof {
                    assert(boxes@[i as int]@ == b[i as int]);
                    assert(q@ == b[i as int]);
                }
                dets.push(
                    Det { x1: q[0] * w, y1: q[1] * h, x2: q[2] * w, y2: q[3] * h, score },
                );
            }
            i = i + 1;
        }
        dets
    }

    /// The faces in a picture, best first, from the detector's boxes and scores and from the
    /// exponentials of what `exp_args` gives: each as corner, width and height.
    pub fn detect(
        &self,
        loc: &[[Single; 4]],
        exps: &[[Single; 2]],
        conf: &[Single],
        width: usize,
        height: usize,
    ) -> (r: Vec<[Single; 4]>)
        requires
            exps@.len() >= loc@.len(),
        ensures
            ({
                let dets = self.dets_of(loc@, exps@, conf@, width as int, height as int);
                let keep = kept(dets, self.nms_threshold);
                &&& r@.len() == (if keep.len() < self.top_k {
                    keep.len()
                } else {
                    self.top_k as nat
                })
                &&& forall|i: int|
                    0 <= i < r@.len() ==> (#[trigger] r@[i])@ == with_margin(dets[keep[i]])
            }),
    {
        let dets: Vec<Det> = self.gather(loc, exps, conf, width, height);
        let keep: Vec<usize> = nms(dets.as_slice(), self.nms_threshold);
        let ghost places = rank::places(keep@);
        let n: usize = if keep.len() < self.top_k {
            keep.len()
        } else {
            self.top_k
        };
        let mut r: Vec<[Single; 4]> = Vec::new();
        let mut i: usize = 0;
        while i < n
            invariant
                i <= n,
                n <= keep@.len(),
                places == rank::places(keep@),
                forall|k: int| 0 <= k < keep@.len() ==> (#[trigger] keep@[k]) < dets@.len(),
                r@.len() == i,
                forall|k: int|
                    0 <= k < i ==> (#[trigger] r@[k])@ == with_margin(dets@[places[k]]),
            decreases n - i,
        {
            let d: Det = dets[keep[i]];
            let two: Single = single::of(decimal::N2);
            let bw: Single = d.x2 - d.x1;
            let bh: Single = d.y2 - d.y1;
            let ux: Single = bw * single::of(decimal::N0_15);
            let uy: Single = bh * single::of(decimal::N0_2);
            let b: [Single; 4] = [d.x1 - ux, d.y1 - uy, bw + ux * two, bh + uy * two];
            proof {
                assert(b@ =~= with_margin(d));
                assert(places[i as int] == keep@[i as int] as int);
            }
            r.push(b);
            i = i + 1;
        }
        r
    }

    /// Leaves a picture to be looked at later, unless one is waiting or its faces are.
    pub fn background_detect(&mut self, frame: &BgrImage)
        ensures
            old(self).pending is Some || old(self).ready is Some ==> *final(self) == *old(self),
            old(self).pending is None && old(self).ready is None ==> {
                &&& final(self).pending matches Some(p) && p.width == frame.width && p.height
                    == frame.height && p.data@ == frame.data@
                &&& *final(self) == (RetinaFace { pending: final(self).pending, ..*old(self) })
            },
    {
        if self.pending.is_some() || self.ready.is_some() {
            return;
        }
        self.pending = Some(frame.clone());
    }

    /// Takes the picture that is to be looked at.
    pub fn take_pending(&mut self) -> (r: Option<BgrImage>)
        ensures
            r == old(self).pending,
            *final(self) == (RetinaFace { pending: None, ..*old(self) }),
    {
        self.pending.take()
    }

    /// Takes what was found: in the picture that `take_pending` gave, if it gave one and it could
    /// be looked at, and otherwise what was left from before. Nothing, where there is neither.
    pub fn get_results(&mut self, looked_at: bool, found_now: Option<Vec<[Single; 4]>>) -> (r: Vec<
        [Single; 4],
    >)
        ensures
            ({
                let got = if looked_at {
                    found_now
                } else {
                    old(self).ready
                };
                r@ == (match got {
                    Some(v) => v@,
                    None => Seq::empty(),
                })
            }),
            *final(self) == (RetinaFace { ready: None, ..*old(self) }),
    {
        let left = self.ready.take();
        let got = if looked_at {
            found_now
        } else {
            left
        };
        match got {
            Some(v) => v,
            None => Vec::new(),
        }
    }
}

} // verus!
