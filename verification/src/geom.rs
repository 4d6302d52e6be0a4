//! Boxes, overlaps, turns and quaternions.

use crate::ieee::facts;
use crate::ieee::maths;
use crate::ieee::order;
use crate::ieee::round;
use crate::ieee::single;
use crate::ieee::single::Single;
use vstd::arithmetic::div_mod::*;
use vstd::arithmetic::power2::*;
use vstd::prelude::*;

verus! {

/// A coordinate moved onto the pixels of an axis of `n`; onto zero where the axis
/// is shorter than a pixel.
pub open spec fn on_image(x: Single, n: Single) -> Single {
    x.clamp(single::of(0), (n - single::of(single::ONE)).max(single::of(0)))
}

/// The pixel at or before `(x, y)` of a picture of `w x h`, with its row moved one
/// further.
pub fn clamp_to_im(x: Single, y: Single, w: Single, h: Single) -> (r: (i32, i32))
    requires
        on_image(y, h).to_int(i32::MIN as int, i32::MAX as int) < i32::MAX,
    ensures
        r.0 == on_image(x, w).to_int(i32::MIN as int, i32::MAX as int),
        r.1 == on_image(y, h).to_int(i32::MIN as int, i32::MAX as int) + 1,
{
    let zero: Single = single::of(0);
    let one: Single = single::of(single::ONE);
    let x: Single = x.clamp(zero, (w - one).max(zero));
    let y: Single = y.clamp(zero, (h - one).max(zero));
    (x.to_i32(), y.to_i32() + 1)
}

/// The largest side whose pixels, counted in single precision, are signed words below the largest.
pub const SIDE_MAX: u32 = 0x7fff_ff80;

/// What `clamp_to_im` gives is not negative, and lies on the picture where single precision counts its
/// side exactly.
pub proof fn lemma_on_image(x: Single, n: int)
    requires
        0 <= n <= SIDE_MAX,
    ensures
        ({
            let v = on_image(x, Single::from_int(n)).to_int(i32::MIN as int, i32::MAX as int);
            0 <= v < i32::MAX && (n <= 0x100_0000 ==> v < n || v == 0)
        }),
{
    let zero = single::of(0);
    let top = (Single::from_int(n) - single::of(single::ONE)).max(zero);
    let v = x.clamp(zero, top);
    if n == 0 {
        facts::lemma_zero_minus_one();
        facts::lemma_single_from_int(0);
        facts::lemma_single_int_bound(v, 0, i32::MIN as int, i32::MAX as int);
        facts::lemma_single_int_nonneg(v, i32::MIN as int, i32::MAX as int);
    } else if n <= 0x100_0000 {
        facts::lemma_single_minus_one(n);
        facts::lemma_single_from_int(n - 1);
        facts::lemma_single_int_bound(v, n - 1, i32::MIN as int, i32::MAX as int);
        facts::lemma_single_int_nonneg(v, i32::MIN as int, i32::MAX as int);
    } else {
        lemma_less_one(n);
        facts::lemma_single_int_nonneg(v, i32::MIN as int, i32::MAX as int);
        facts::lemma_single_int_order(v, single::of(SIDE_WORD), i32::MAX as int);
        lemma_side_word();
        assert(v.to_int(i32::MIN as int, i32::MAX as int) <= v.to_int(0, i32::MAX as int)) by {
            reveal(Single::to_int);
        }
    }
}

/// The word of the largest side.
pub const SIDE_WORD: u32 = 0x4eff_ffff;

proof fn lemma_side_word()
    ensures
        Single::from_int(SIDE_MAX as int) == single::of(SIDE_WORD),
        single::of(SIDE_WORD).to_int(0, i32::MAX as int) == SIDE_MAX,
{
    let u = pow2(149);
    lemma2_to64();
    lemma_pow2_pos(149);
    order::lemma_units_at(156, 0xff_ffff);
    assert(156 * pow2(23) + 0xff_ffff == SIDE_WORD);
    lemma_pow2_adds(7, 149);
    assert(round::units(SIDE_WORD as nat, 24) == SIDE_MAX * u);
    reveal(Single::from_int);
    facts::lemma_nearest_exact(SIDE_WORD as nat, 24);
    assert(SIDE_MAX as nat * u == SIDE_MAX * u);
    reveal(Single::to_int);
    lemma_fundamental_div_mod_converse((SIDE_MAX * u) as int, u as int, SIDE_MAX as int, 0);
}

/// One less than a count is no more than the largest side.
pub proof fn lemma_less_one(n: int)
    requires
        1 <= n <= SIDE_MAX,
    ensures
        ({
            let d = Single::from_int(n) - single::of(single::ONE);
            &&& single::of(0).le(d)
            &&& d.le(single::of(SIDE_WORD))
        }),
{
    let one = single::of(single::ONE);
    facts::lemma_single_one();
    order::lemma_count_order(1, n);
    order::lemma_count_order(n, SIDE_MAX as int);
    order::lemma_count_value(n);
    order::lemma_count_value(SIDE_MAX as int);
    lemma_side_word();
    let c = Single::from_int(n);
    order::lemma_difference(c, one);
    order::lemma_less_no_more(c, one);
}

/// `point` turned about `origin` by the angle with the given cosine and sine.
pub open spec fn rotated(
    origin: (Single, Single),
    point: (Single, Single),
    cos: Single,
    sin: Single,
) -> (Single, Single) {
    (
        origin.0 + cos * (point.0 - origin.0) - sin * (point.1 - origin.1),
        origin.1 + sin * (point.0 - origin.0) + cos * (point.1 - origin.1),
    )
}

/// Turns `point` about `origin` by the angle with the given cosine and sine.
pub fn rotate(
    origin: (Single, Single),
    point: (Single, Single),
    cos: Single,
    sin: Single,
) -> (r: (Single, Single))
    ensures
        r == rotated(origin, point, cos, sin),
{
    let (ox, oy) = origin;
    let (px, py) = point;
    (ox + cos * (px - ox) - sin * (py - oy), oy + sin * (px - ox) + cos * (py - oy))
}

/// An angle between a negative and a positive full turn, as one that is not
/// negative.
pub open spec fn wrapped(a: Single) -> Single {
    if a.lt(single::of(0)) {
        a + single::of(maths::TURN)
    } else {
        a
    }
}

/// The direction that an arc tangent gives, as an angle from zero to a full turn.
pub fn angle(arc: Single) -> (r: Single)
    requires
        arc.is_nan() || arc.abs().lt(single::of(maths::TURN)),
    ensures
        r == wrapped(arc),
{
    if arc.lt(single::of(0)) {
        arc + single::of(maths::TURN)
    } else {
        arc
    }
}

/// A point turned about another by the angle between them, and that angle. `arc` is the arc tangent of
/// the line from one to the other, `cos` and `sin` are those of the angle.
pub fn compensate(p1: [Single; 2], p2: [Single; 2], arc: Single, cos: Single, sin: Single) -> (r: (
    (Single, Single),
    Single,
))
    requires
        arc.is_nan() || arc.abs().lt(single::of(maths::TURN)),
    ensures
        r.0 == rotated((p1[0], p1[1]), (p2[0], p2[1]), cos, sin),
        r.1 == wrapped(arc),
{
    (rotate((p1[0], p1[1]), (p2[0], p2[1]), cos, sin), angle(arc))
}

/// How much of what two boxes cover together they share, at least.
pub open spec fn hit(r1: Seq<Single>, r2: Seq<Single>, amount: Single) -> bool {
    let left = r1[0].max(r2[0]);
    let right = (r1[0] + r1[2]).min(r2[0] + r2[2]);
    let top = r1[1].max(r2[1]);
    let bottom = (r1[1] + r1[3]).min(r2[1] + r2[3]);
    let both = r1[2] * r1[3] + r2[2] * r2[3];
    let meet = left.lt(right) && top.lt(bottom);
    let inter = if meet {
        (right - left) * (bottom - top)
    } else {
        single::of(0)
    };
    let total = if meet {
        both - inter
    } else {
        both
    };
    total.gt(single::of(0)) && (inter / total).ge(amount)
}

/// Whether two boxes share at least `amount` of what they cover.
pub fn intersects(r1: [Single; 4], r2: [Single; 4], amount: Single) -> (r: bool)
    ensures
        r == hit(r1@, r2@, amount),
{
    let area1: Single = r1[2] * r1[3];
    let area2: Single = r2[2] * r2[3];
    let left: Single = r1[0].max(r2[0]);
    let right: Single = (r1[0] + r1[2]).min(r2[0] + r2[2]);
    let top: Single = r1[1].max(r2[1]);
    let bottom: Single = (r1[1] + r1[3]).min(r2[1] + r2[3]);
    let mut inter: Single = single::of(0);
    let mut total: Single = area1 + area2;
    if left.lt(right) && top.lt(bottom) {
        inter = (right - left) * (bottom - top);
        total = total - inter;
    }
    total.gt(single::of(0)) && (inter / total).ge(amount)
}

/// The word of the share of two boxes that makes them one face.
pub const SAME_FACE: u32 = 0x3e99_999a;

/// Whether two different boxes overlap, seen from either of them.
pub open spec fn adjacent(rects: Seq<[Single; 4]>, i: int, j: int) -> bool {
    &&& 0 <= i < rects.len()
    &&& 0 <= j < rects.len()
    &&& i != j
    &&& (hit(rects[i]@, rects[j]@, single::of(SAME_FACE)) || hit(
        rects[j]@,
        rects[i]@,
        single::of(SAME_FACE),
    ))
}

/// Whether `p` leads from box `a` to box `b` by overlaps.
pub open spec fn is_path(rects: Seq<[Single; 4]>, p: Seq<int>, a: int, b: int) -> bool {
    &&& p.len() >= 1
    &&& p[0] == a
    &&& p.last() == b
    &&& forall|k: int| 0 <= k < p.len() - 1 ==> adjacent(rects, #[trigger] p[k], p[k + 1])
}

/// Whether two boxes are joined by overlaps.
pub open spec fn linked(rects: Seq<[Single; 4]>, a: int, b: int) -> bool {
    exists|p: Seq<int>| is_path(rects, p, a, b)
}

proof fn lemma_linked_self(rects: Seq<[Single; 4]>, a: int)
    ensures
        linked(rects, a, a),
{
    assert(is_path(rects, seq![a], a, a));
}

proof fn lemma_linked_step(rects: Seq<[Single; 4]>, a: int, b: int)
    requires
        adjacent(rects, a, b),
    ensures
        linked(rects, a, b),
{
    assert(is_path(rects, seq![a, b], a, b));
}

proof fn lemma_linked_reverse(rects: Seq<[Single; 4]>, a: int, b: int)
    requires
        linked(rects, a, b),
    ensures
        linked(rects, b, a),
{
    let p = choose|p: Seq<int>| is_path(rects, p, a, b);
    let q = Seq::new(p.len(), |k: int| p[p.len() - 1 - k]);
    assert forall|k: int| 0 <= k < q.len() - 1 implies adjacent(rects, #[trigger] q[k], q[k + 1]) by {
        let j = p.len() - 2 - k;
        assert(adjacent(rects, p[j], p[j + 1]));
    }
    assert(is_path(rects, q, b, a));
}

proof fn lemma_linked_join(rects: Seq<[Single; 4]>, a: int, b: int, c: int)
    requires
        linked(rects, a, b),
        linked(rects, b, c),
    ensures
        linked(rects, a, c),
{
    let p = choose|p: Seq<int>| is_path(rects, p, a, b);
    let q = choose|q: Seq<int>| is_path(rects, q, b, c);
    let r = p + q.skip(1);
    assert forall|k: int| 0 <= k < r.len() - 1 implies adjacent(rects, #[trigger] r[k], r[k + 1]) by {
        if k < p.len() - 1 {
            assert(adjacent(rects, p[k], p[k + 1]));
        } else {
            let j = k - (p.len() - 1);
            assert(adjacent(rects, q[j], q[j + 1]));
        }
    }
    assert(r.last() == c) by {
        if q.len() == 1 {
            assert(r =~= p);
        }
    }
    assert(is_path(rects, r, a, c));
}

/// Whether `group` labels every box with the first box that it is linked to.
pub open spec fn is_grouping(rects: Seq<[Single; 4]>, group: Seq<usize>) -> bool {
    &&& group.len() == rects.len()
    &&& forall|x: int|
        0 <= x < group.len() ==> 0 <= #[trigger] group[x] <= x && linked(rects, x, group[x] as int)
    &&& forall|a: int, b: int|
        0 <= a < group.len() && 0 <= b < group.len() && #[trigger] linked(rects, a, b)
            ==> group[a] == group[b]
}

spec fn labels_ok(rects: Seq<[Single; 4]>, group: Seq<usize>) -> bool {
    &&& group.len() == rects.len()
    &&& forall|x: int|
        0 <= x < group.len() ==> 0 <= #[trigger] group[x] <= x && linked(rects, x, group[x] as int)
            && group[group[x] as int] == group[x]
}

/// Whether the labels agree on every overlap that was looked at: those from a box
/// before `i`, and those from box `i` to one before `j`.
spec fn seen_ok(rects: Seq<[Single; 4]>, group: Seq<usize>, i: int, j: int) -> bool {
    forall|a: int, b: int|
        0 <= a < rects.len() && 0 <= b < rects.len() && a != b && (a < i || (a == i && b < j))
            && #[trigger] hit(rects[a]@, rects[b]@, single::of(SAME_FACE)) ==> group[a] == group[b]
}

fn relabel(group: &mut Vec<usize>, lo: usize, hi: usize)
    ensures
        final(group)@ == Seq::new(
            old(group)@.len(),
            |x: int|
                if old(group)@[x] == hi {
                    lo
                } else {
                    old(group)@[x]
                },
        ),
{
    let mut x: usize = 0;
    while x < group.len()
        invariant
            x <= group@.len() == old(group)@.len(),
            forall|k: int|
                0 <= k < x ==> group@[k] == (if old(group)@[k] == hi {
                    lo
                } else {
                    old(group)@[k]
                }),
            forall|k: int| x <= k < group@.len() ==> group@[k] == old(group)@[k],
        decreases group@.len() - x,
    {
        if group[x] == hi {
            group[x] = lo;
        }
        x = x + 1;
    }
    assert(group@ =~= Seq::new(
        old(group)@.len(),
        |x: int|
            if old(group)@[x] == hi {
                lo
            } else {
                old(group)@[x]
            },
    ));
}

/// Groups boxes that overlap, directly or through others. Every box is labelled
/// with the first box of its group.
pub fn group_rects(rects: &[[Single; 4]]) -> (group: Vec<usize>)
    ensures
        is_grouping(rects@, group@),
{
    let n: usize = rects.len();
    let mut group: Vec<usize> = Vec::new();
    while group.len() < n
        invariant
            group@.len() <= n == rects@.len(),
            forall|x: int| 0 <= x < group@.len() ==> group@[x] == x,
        decreases n - group@.len(),
    {
        let k: usize = group.len();
        group.push(k);
    }
    proof {
        assert forall|x: int| 0 <= x < n implies linked(rects@, x, #[trigger] group@[x] as int) by {
            lemma_linked_self(rects@, x);
        }
    }
    let mut i: usize = 0;
    while i < n
        invariant
            i <= n == rects@.len(),
            labels_ok(rects@, group@),
            seen_ok(rects@, group@, i as int, 0),
        decreases n - i,
    {
        let mut j: usize = 0;
        while j < n
            invariant
                i < n == rects@.len(),
                j <= n,
                labels_ok(rects@, group@),
                seen_ok(rects@, group@, i as int, j as int),
            decreases n - j,
        {
            if i != j && intersects(rects[i], rects[j], single::of(SAME_FACE)) {
                let gi: usize = group[i];
                let gj: usize = group[j];
                let lo: usize = if gi < gj { gi } else { gj };
                let hi: usize = if gi < gj { gj } else { gi };
                let ghost before = group@;
                relabel(&mut group, lo, hi);
                proof {
                    lemma_relabel(rects@, before, group@, i as int, j as int, lo, hi);
                }
            }
            j = j + 1;
        }
        i = i + 1;
    }
    proof {
        lemma_seen_all(rects@, group@);
    }
    group
}

proof fn lemma_relabel(
    rects: Seq<[Single; 4]>,
    before: Seq<usize>,
    after: Seq<usize>,
    i: int,
    j: int,
    lo: usize,
    hi: usize,
)
    requires
        0 <= i < rects.len(),
        0 <= j < rects.len(),
        i != j,
        hit(rects[i]@, rects[j]@, single::of(SAME_FACE)),
        labels_ok(rects, before),
        seen_ok(rects, before, i, j),
        (lo == before[i] && hi == before[j]) || (lo == before[j] && hi == before[i]),
        lo <= hi,
        after == Seq::new(
            before.len(),
            |x: int|
                if before[x] == hi {
                    lo
                } else {
                    before[x]
                },
        ),
    ensures
        labels_ok(rects, after),
        seen_ok(rects, after, i, j + 1),
{
    let (bi, bj) = (before[i] as int, before[j] as int);
    assert(adjacent(rects, i, j));
    lemma_linked_step(rects, i, j);
    lemma_linked_reverse(rects, i, bi);
    lemma_linked_join(rects, bi, i, j);
    lemma_linked_join(rects, bi, j, bj);
    lemma_linked_reverse(rects, bi, bj);
    assert(linked(rects, hi as int, lo as int));
    assert forall|x: int| 0 <= x < after.len() implies 0 <= #[trigger] after[x] <= x && linked(
        rects,
        x,
        after[x] as int,
    ) && after[after[x] as int] == after[x] by {
        assert(before[before[x] as int] == before[x]);
        assert(before[bi] == before[i] && before[bj] == before[j]);
        if before[x] == hi {
            lemma_linked_join(rects, x, hi as int, lo as int);
        }
    }
}

proof fn lemma_seen_all(rects: Seq<[Single; 4]>, group: Seq<usize>)
    requires
        labels_ok(rects, group),
        seen_ok(rects, group, rects.len() as int, 0),
    ensures
        is_grouping(rects, group),
{
    assert forall|a: int, b: int| #[trigger] adjacent(rects, a, b) implies group[a] == group[b] by {
        if hit(rects[a]@, rects[b]@, single::of(SAME_FACE)) {
            assert(group[a] == group[b]);
        } else {
            assert(hit(rects[b]@, rects[a]@, single::of(SAME_FACE)));
            assert(group[b] == group[a]);
        }
    }
    assert forall|a: int, b: int|
        0 <= a < group.len() && 0 <= b < group.len() && #[trigger] linked(rects, a, b) implies group[a]
        == group[b] by {
        let p = choose|p: Seq<int>| is_path(rects, p, a, b);
        lemma_path_label(rects, group, p, p.len() - 1);
    }
}

proof fn lemma_path_label(rects: Seq<[Single; 4]>, group: Seq<usize>, p: Seq<int>, k: int)
    requires
        0 <= k < p.len(),
        forall|m: int| 0 <= m < p.len() - 1 ==> adjacent(rects, #[trigger] p[m], p[m + 1]),
        forall|a: int, b: int| #[trigger] adjacent(rects, a, b) ==> group[a] == group[b],
    ensures
        group[p[k]] == group[p[0]],
    decreases k,
{
    if k > 0 {
        lemma_path_label(rects, group, p, k - 1);
        assert(adjacent(rects, p[k - 1], p[k - 1 + 1]));
    }
}

/// Two boxes have the same label exactly where they are linked, and the label is
/// the first box that is linked to them.
pub proof fn lemma_groups_are_components(rects: Seq<[Single; 4]>, group: Seq<usize>, a: int, b: int)
    requires
        is_grouping(rects, group),
        0 <= a < rects.len(),
        0 <= b < rects.len(),
    ensures
        group[a] == group[b] <==> linked(rects, a, b),
        linked(rects, a, b) ==> group[a] <= b,
{
    if group[a] == group[b] {
        lemma_linked_reverse(rects, b, group[b] as int);
        lemma_linked_join(rects, a, group[a] as int, b);
    }
}

/// The words of the smallest and largest probability that has odds.
pub const LEAST: u32 = 0x33d6_bf95;
pub const MOST: u32 = 0x3f7f_fffe;

/// The odds of a probability that is kept away from zero and one.
pub open spec fn odds(p: Single) -> Single {
    let q = p.clamp(single::of(LEAST), single::of(MOST));
    q / (single::of(single::ONE) - q)
}

/// The odds whose logarithm a logit takes.
pub fn logit_odds(p: Single) -> (r: Single)
    ensures
        r == odds(p),
{
    let q: Single = p.clamp(single::of(LEAST), single::of(MOST));
    q / (single::of(single::ONE) - q)
}

/// A logit, from the logarithm of the odds.
pub fn logit(ln_odds: Single, factor: Single) -> (r: Single)
    ensures
        r == ln_odds / factor,
{
    ln_odds / factor
}

/// The quaternion of a rotation matrix, before it is scaled: the leading term and
/// the four parts.
pub open spec fn quaternion_parts(m: Seq<Seq<Single>>) -> (Single, Seq<Single>) {
    let one = single::of(single::ONE);
    if m[2][2].lt(single::of(0)) {
        if m[0][0].gt(m[1][1]) {
            let t = one + m[0][0] - m[1][1] - m[2][2];
            (t, seq![t, m[0][1] + m[1][0], m[2][0] + m[0][2], m[1][2] - m[2][1]])
        } else {
            let t = one - m[0][0] + m[1][1] - m[2][2];
            (t, seq![m[0][1] + m[1][0], t, m[1][2] + m[2][1], m[2][0] - m[0][2]])
        }
    } else if m[0][0].lt(m[1][1].negated()) {
        let t = one - m[0][0] - m[1][1] + m[2][2];
        (t, seq![m[2][0] + m[0][2], m[1][2] + m[2][1], t, m[0][1] - m[1][0]])
    } else {
        let t = one + m[0][0] + m[1][1] + m[2][2];
        (t, seq![m[1][2] - m[2][1], m[2][0] - m[0][2], m[0][1] - m[1][0], t])
    }
}

/// The word of one half.
pub const HALF: u32 = 0x3f00_0000;

/// The rows of a matrix, as sequences.
pub open spec fn rows(m: [[Single; 3]; 3]) -> Seq<Seq<Single>> {
    seq![m[0]@, m[1]@, m[2]@]
}

/// The quaternion `[x, y, z, w]` of the rotation matrix with the given rows.
pub open spec fn quaternion_of(m: Seq<Seq<Single>>) -> Seq<Single> {
    let (t, q) = quaternion_parts(m);
    let s = single::of(HALF) / t.sqrt();
    seq![q[0] * s, q[1] * s, q[2] * s, q[3] * s]
}

/// The quaternion `[x, y, z, w]` of a rotation matrix.
pub fn matrix_to_quaternion(m: &[[Single; 3]; 3]) -> (r: [Single; 4])
    ensures
        r@ == quaternion_of(rows(*m)),
{
    let (m00, m01, m02) = (m[0][0], m[0][1], m[0][2]);
    let (m10, m11, m12) = (m[1][0], m[1][1], m[1][2]);
    let (m20, m21, m22) = (m[2][0], m[2][1], m[2][2]);
    let one: Single = single::of(single::ONE);
    let (t, q): (Single, [Single; 4]) = if m22.lt(single::of(0)) {
        if m00.gt(m11) {
            let t: Single = one + m00 - m11 - m22;
            (t, [t, m01 + m10, m20 + m02, m12 - m21])
        } else {
            let t: Single = one - m00 + m11 - m22;
            (t, [m01 + m10, t, m12 + m21, m20 - m02])
        }
    } else if m00.lt(m11.negated()) {
        let t: Single = one - m00 - m11 + m22;
        (t, [m20 + m02, m12 + m21, t, m01 - m10])
    } else {
        let t: Single = one + m00 + m11 + m22;
        (t, [m12 - m21, m20 - m02, m01 - m10, t])
    };
    let s: Single = single::of(HALF) / t.sqrt();
    [q[0] * s, q[1] * s, q[2] * s, q[3] * s]
}

} // verus!
