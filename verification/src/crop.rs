//! The box of a face in the next frame.
//!
//! A fit of the eyes and the nose to the solid face gives scale and place; the box is not turned.
//! Where a corner of an eye lies off the fit of brows and nose, as behind the rims of glasses, that
//! fit is used instead.
//! Its size is the largest seen so far of the detector's box, the hull of the landmarks and the
//! fitted face. Where too few landmarks are sure, the last box is kept.

use crate::decode;
use crate::decode::landmark_bbox;
use crate::ieee::decimal;
use crate::ieee::facts;
use crate::ieee::maths::hypot;
use crate::ieee::order;
use crate::ieee::round;
use crate::ieee::single;
use crate::ieee::single::Single;
use crate::pnp::FACE_3D;
use crate::preprocess;
use vstd::arithmetic::power2::*;
use vstd::prelude::*;

verus! {

/// The corners of the eyes and the tip of the nose.
pub const EYES_NOSE: [usize; 5] = [36, 39, 42, 45, 30];

/// The corners of the eyes.
pub const EYE_CORNERS: [usize; 4] = [36, 39, 42, 45];

/// The first landmark of the brows, which the nose follows.
pub const BROWS_FIRST: usize = 17;

/// The first landmark past the nose.
pub const NOSE_END: usize = 36;

/// The first landmark inside the face.
pub const INTERIOR_FIRST: usize = 17;

/// The first landmark past those inside the face.
pub const INTERIOR_END: usize = 48;

/// Landmarks that the face is fitted to at most.
pub const FIT_POINTS: usize = 66;

/// A scale and a shift.
#[derive(Clone, Copy, Debug, PartialEq, Eq, Structural)]
pub struct Similarity {
    pub scale: Single,
    pub tx: Single,
    pub ty: Single,
}

/// What is kept of a face from frame to frame.
#[derive(Clone, Copy, Debug, PartialEq)]
pub struct CropSmoothState {
    pub ready: bool,
    pub scale: Single,
    pub tx: Single,
    pub ty: Single,
    pub last: Option<[Single; 4]>,
}

/// A state that has seen nothing.
pub open spec fn fresh() -> CropSmoothState {
    CropSmoothState {
        ready: false,
        scale: single::of(0),
        tx: single::of(0),
        ty: single::of(0),
        last: None,
    }
}

impl Default for CropSmoothState {
    fn default() -> (r: CropSmoothState)
        ensures
            r == fresh(),
    {
        let z: Single = single::of(0);
        CropSmoothState { ready: false, scale: z, tx: z, ty: z, last: None }
    }
}

impl CropSmoothState {
    /// Forgets everything.
    pub fn reset(&mut self)
        ensures
            *final(self) == fresh(),
    {
        let z: Single = single::of(0);
        *self = CropSmoothState { ready: false, scale: z, tx: z, ty: z, last: None };
    }

    /// The last box.
    pub fn last_box(&self) -> (r: Option<[Single; 4]>)
        ensures
            r == self.last,
    {
        self.last
    }

    /// Takes a box as the last one where there is none.
    pub fn seed_size(&mut self, b: [Single; 4])
        ensures
            *final(self) == (if old(self).last is None {
                CropSmoothState { last: Some(b), ..*old(self) }
            } else {
                *old(self)
            }),
    {
        if self.last.is_none() {
            self.last = Some(b);
        }
    }
}

/// A point of the solid face seen from the front, in picture axes.
pub open spec fn template(i: int) -> (Single, Single) {
    (single::of(FACE_3D[i][0]), single::of(FACE_3D[i][1]).negated())
}

/// A point of the solid face seen from the front, in picture axes.
pub fn template_xy(i: usize) -> (r: Option<[Single; 2]>)
    ensures
        r is Some <==> i < 70,
        r is Some ==> r->0@ == seq![template(i as int).0, template(i as int).1],
{
    if i < 70 {
        let p: [u32; 3] = FACE_3D[i];
        let r: [Single; 2] = [single::of(p[0]), single::of(p[1]).negated()];
        proof {
            assert(r@ =~= seq![template(i as int).0, template(i as int).1]);
        }
        Some(r)
    } else {
        None
    }
}

/// Whether a landmark is there and sure enough to be fitted to.
pub open spec fn usable(pts: Seq<[Single; 3]>, i: int) -> bool {
    0 <= i < pts.len() && !pts[i][2].lt(single::of(decimal::N0_35)) && i < 70
}

fn is_usable(pts: &[[Single; 3]], i: usize) -> (r: bool)
    ensures
        r == usable(pts@, i as int),
{
    i < pts.len() && !pts[i][2].lt(single::of(decimal::N0_35)) && i < 70
}

/// The usable ones of some landmarks.
pub open spec fn picked(pts: Seq<[Single; 3]>, idx: Seq<int>) -> Seq<int>
    decreases idx.len(),
{
    if idx.len() == 0 {
        Seq::empty()
    } else {
        let front = picked(pts, idx.drop_last());
        if usable(pts, idx.last()) {
            front.push(idx.last())
        } else {
            front
        }
    }
}

/// The landmarks from `a` to before `b`.
pub open spec fn span(a: int, b: int) -> Seq<int> {
    Seq::new(
        (if a < b {
            b - a
        } else {
            0
        }) as nat,
        |i: int| a + i,
    )
}

/// The number of landmarks that the whole face is fitted to.
pub open spec fn fit_len(n: int) -> int {
    if n < 66 {
        n
    } else {
        66
    }
}

/// The usable ones of brows and nose.
pub open spec fn brows_nose(pts: Seq<[Single; 3]>) -> Seq<int> {
    picked(pts, span(17, 36))
}

/// Where the similarity that fits some references best, turned as it may be, puts point `i` of the
/// solid face.
pub open spec fn fitted_at(pts: Seq<[Single; 3]>, idx: Seq<int>, i: int) -> (Single, Single) {
    let m = means(pts, idx);
    let s = spread(pts, idx, m, idx.len() as int);
    let (a, b) = (s.1 / s.0, s.2 / s.0);
    let (x, y) = (template(i).0 - m.0, template(i).1 - m.1);
    (m.2 + (a * x - b * y), m.3 + (b * x + a * y))
}

/// How far landmark `i` lies from where brows and nose put it.
pub open spec fn distance_off(pts: Seq<[Single; 3]>, i: int) -> Single {
    let p = fitted_at(pts, brows_nose(pts), i);
    hypot(pts[i][1] - p.0, pts[i][0] - p.1)
}

/// Whether landmark `i` is usable and lies off the fit of brows and nose: by more than 0.15 of its
/// scale, which is about a quarter of the distance between the outer corners of the eyes.
pub open spec fn lies_off(pts: Seq<[Single; 3]>, i: int) -> bool {
    usable(pts, i) && match fitted_scale(pts, brows_nose(pts)) {
        Some(s) => distance_off(pts, i).gt(s * single::of(decimal::N0_15)),
        None => false,
    }
}

/// Whether a corner of an eye lies off the fit of brows and nose.
pub open spec fn eyes_off(pts: Seq<[Single; 3]>) -> bool {
    lies_off(pts, 36) || lies_off(pts, 39) || lies_off(pts, 42) || lies_off(pts, 45)
}

/// The landmarks that the face is fitted to: brows and nose where a corner of an eye lies off their
/// fit, or else eyes and nose, or else those inside the face, or else all.
pub open spec fn references(pts: Seq<[Single; 3]>) -> Seq<int> {
    let a = picked(pts, EYES_NOSE@.map_values(|i: usize| i as int));
    let b = picked(pts, span(17, 48));
    if eyes_off(pts) {
        brows_nose(pts)
    } else if a.len() >= 2 {
        a
    } else if b.len() >= 2 {
        b
    } else {
        picked(pts, span(0, fit_len(pts.len() as int)))
    }
}

/// Places as integers.
pub open spec fn ints(v: Seq<usize>) -> Seq<int> {
    v.map_values(|i: usize| i as int)
}

proof fn lemma_picked_usable(pts: Seq<[Single; 3]>, idx: Seq<int>)
    ensures
        forall|k: int|
            0 <= k < picked(pts, idx).len() ==> usable(pts, #[trigger] picked(pts, idx)[k]),
    decreases idx.len(),
{
    if idx.len() > 0 {
        let front = picked(pts, idx.drop_last());
        lemma_picked_usable(pts, idx.drop_last());
        assert forall|k: int| 0 <= k < picked(pts, idx).len() implies usable(
            pts,
            #[trigger] picked(pts, idx)[k],
        ) by {
            if k < front.len() {
                assert(picked(pts, idx)[k] == front[k]);
            }
        }
    }
}

fn collect_indices(pts: &[[Single; 3]], idx: &[usize]) -> (r: Vec<usize>)
    ensures
        ints(r@) == picked(pts@, ints(idx@)),
{
    let mut r: Vec<usize> = Vec::new();
    let mut k: usize = 0;
    assert(ints(r@) =~= picked(pts@, ints(idx@).take(0)));
    while k < idx.len()
        invariant
            k <= idx@.len(),
            ints(r@) == picked(pts@, ints(idx@).take(k as int)),
        decreases idx@.len() - k,
    {
        proof {
            assert(ints(idx@).take(k + 1).drop_last() =~= ints(idx@).take(k as int));
        }
        if is_usable(pts, idx[k]) {
            let ghost before = r@;
            r.push(idx[k]);
            assert(ints(r@) =~= ints(before).push(idx@[k as int] as int));
        }
        k = k + 1;
    }
    assert(ints(idx@).take(k as int) =~= ints(idx@));
    r
}

fn collect_range(pts: &[[Single; 3]], a: usize, b: usize) -> (r: Vec<usize>)
    requires
        a <= b,
    ensures
        ints(r@) == picked(pts@, span(a as int, b as int)),
{
    let ghost all = span(a as int, b as int);
    let mut r: Vec<usize> = Vec::new();
    let mut i: usize = a;
    assert(ints(r@) =~= picked(pts@, all.take(0)));
    while i < b
        invariant
            a <= i <= b,
            all == span(a as int, b as int),
            ints(r@) == picked(pts@, all.take(i - a)),
        decreases b - i,
    {
        proof {
            assert(all.take(i + 1 - a).drop_last() =~= all.take(i - a));
            assert(all[i - a] == i);
        }
        if is_usable(pts, i) {
            let ghost before = r@;
            r.push(i);
            assert(ints(r@) =~= ints(before).push(i as int));
        }
        i = i + 1;
    }
    assert(all.take(b - a) =~= all);
    r
}

/// The sum of one coordinate of the first `n` references: 0 and 1 of the solid face, 2 and 3 of
/// the landmarks, across before up and down.
pub open spec fn ref_sum(pts: Seq<[Single; 3]>, idx: Seq<int>, c: int, n: int) -> Single
    decreases n,
{
    if n <= 0 {
        single::of(0)
    } else {
        let i = idx[n - 1];
        ref_sum(pts, idx, c, n - 1) + if c == 0 {
            template(i).0
        } else if c == 1 {
            template(i).1
        } else if c == 2 {
            pts[i][1]
        } else {
            pts[i][0]
        }
    }
}

/// The mean of one coordinate of the references.
pub open spec fn ref_mean(pts: Seq<[Single; 3]>, idx: Seq<int>, c: int) -> Single {
    ref_sum(pts, idx, c, idx.len() as int) / Single::from_int(
        if idx.len() < 1 {
            1
        } else {
            idx.len() as int
        },
    )
}

/// The means of the references: solid across, solid up and down, column, row.
pub fn pair_means(pts: &[[Single; 3]], idx: &[usize]) -> (r: (Single, Single, Single, Single))
    requires
        forall|k: int| 0 <= k < idx@.len() ==> usable(pts@, #[trigger] idx@[k] as int),
    ensures
        r.0 == ref_mean(pts@, ints(idx@), 0),
        r.1 == ref_mean(pts@, ints(idx@), 1),
        r.2 == ref_mean(pts@, ints(idx@), 2),
        r.3 == ref_mean(pts@, ints(idx@), 3),
{
    let len: usize = idx.len();
    let n: Single = single::from_u64(
        if len < 1 {
            1
        } else {
            len as u64
        },
    );
    let z: Single = single::of(0);
    let (mut a, mut b, mut c, mut d): (Single, Single, Single, Single) = (z, z, z, z);
    let mut k: usize = 0;
    while k < len
        invariant
            k <= len,
            len == idx@.len(),
            forall|m: int| 0 <= m < idx@.len() ==> usable(pts@, #[trigger] idx@[m] as int),
            a == ref_sum(pts@, ints(idx@), 0, k as int),
            b == ref_sum(pts@, ints(idx@), 1, k as int),
            c == ref_sum(pts@, ints(idx@), 2, k as int),
            d == ref_sum(pts@, ints(idx@), 3, k as int),
        decreases len - k,
    {
        let i: usize = idx[k];
        assert(usable(pts@, idx@[k as int] as int));
        let t: [u32; 3] = FACE_3D[i];
        let p: [Single; 3] = pts[i];
        a = a + single::of(t[0]);
        b = b + single::of(t[1]).negated();
        c = c + p[1];
        d = d + p[0];
        k = k + 1;
    }
    (a / n, b / n, c / n, d / n)
}

/// Sums over the first `n` references about their means: the spread of the solid face, and how far
/// the landmarks go along with it and across it.
pub open spec fn spread(
    pts: Seq<[Single; 3]>,
    idx: Seq<int>,
    m: (Single, Single, Single, Single),
    n: int,
) -> (Single, Single, Single)
    decreases n,
{
    if n <= 0 {
        (single::of(0), single::of(0), single::of(0))
    } else {
        let s = spread(pts, idx, m, n - 1);
        let i = idx[n - 1];
        let sx = template(i).0 - m.0;
        let sy = template(i).1 - m.1;
        let dx = pts[i][1] - m.2;
        let dy = pts[i][0] - m.3;
        (s.0 + (sx * sx + sy * sy), s.1 + (sx * dx + sy * dy), s.2 + (sx * dy - sy * dx))
    }
}

/// The means of the references.
pub open spec fn means(pts: Seq<[Single; 3]>, idx: Seq<int>) -> (Single, Single, Single, Single) {
    (ref_mean(pts, idx, 0), ref_mean(pts, idx, 1), ref_mean(pts, idx, 2), ref_mean(pts, idx, 3))
}

/// The scale of the similarity that takes the solid face to the landmarks with the least squared
/// error; none where there are fewer than two references or they all coincide.
pub open spec fn fitted_scale(pts: Seq<[Single; 3]>, idx: Seq<int>) -> Option<Single> {
    let s = spread(pts, idx, means(pts, idx), idx.len() as int);
    if idx.len() < 2 || !s.0.gt(single::of(0)) {
        None
    } else {
        Some((s.1 * s.1 + s.2 * s.2).sqrt() / s.0)
    }
}

/// The sums about the means of the references.
fn spread_of(pts: &[[Single; 3]], idx: &[usize], m: (Single, Single, Single, Single)) -> (r: (
    Single,
    Single,
    Single,
))
    requires
        forall|k: int| 0 <= k < idx@.len() ==> usable(pts@, #[trigger] idx@[k] as int),
    ensures
        r == spread(pts@, ints(idx@), m, idx@.len() as int),
{
    let z: Single = single::of(0);
    let (mut v, mut a, mut b): (Single, Single, Single) = (z, z, z);
    let mut k: usize = 0;
    while k < idx.len()
        invariant
            k <= idx@.len(),
            forall|j: int| 0 <= j < idx@.len() ==> usable(pts@, #[trigger] idx@[j] as int),
            (v, a, b) == spread(pts@, ints(idx@), m, k as int),
        decreases idx@.len() - k,
    {
        let i: usize = idx[k];
        assert(usable(pts@, idx@[k as int] as int));
        let t: [u32; 3] = FACE_3D[i];
        let p: [Single; 3] = pts[i];
        let sx: Single = single::of(t[0]) - m.0;
        let sy: Single = single::of(t[1]).negated() - m.1;
        let dx: Single = p[1] - m.2;
        let dy: Single = p[0] - m.3;
        v = v + (sx * sx + sy * sy);
        a = a + (sx * dx + sy * dy);
        b = b + (sx * dy - sy * dx);
        k = k + 1;
    }
    (v, a, b)
}

/// The scale of the best similarity.
pub fn similarity_umeyama(pts: &[[Single; 3]], idx: &[usize]) -> (r: Option<Single>)
    requires
        forall|k: int| 0 <= k < idx@.len() ==> usable(pts@, #[trigger] idx@[k] as int),
    ensures
        r == fitted_scale(pts@, ints(idx@)),
{
    if idx.len() < 2 {
        return None;
    }
    let m = pair_means(pts, idx);
    let (v, a, b): (Single, Single, Single) = spread_of(pts, idx, m);
    if !v.gt(single::of(0)) {
        return None;
    }
    Some((a * a + b * b).sqrt() / v)
}

/// Whether a corner of an eye lies off the fit of brows and nose.
fn any_off(pts: &[[Single; 3]], guide: &[usize]) -> (r: bool)
    requires
        forall|k: int| 0 <= k < guide@.len() ==> usable(pts@, #[trigger] guide@[k] as int),
        ints(guide@) == brows_nose(pts@),
    ensures
        r == eyes_off(pts@),
{
    match similarity_umeyama(pts, guide) {
        None => false,
        Some(scale) => {
            assert(ints(guide@).len() == guide@.len());
            let m = pair_means(pts, guide);
            let (v, p, q): (Single, Single, Single) = spread_of(pts, guide, m);
            let (a, b): (Single, Single) = (p / v, q / v);
            let limit: Single = scale * single::of(decimal::N0_15);
            let corners: [usize; 4] = EYE_CORNERS;
            let mut k: usize = 0;
            while k < 4
                invariant
                    k <= 4,
                    corners == EYE_CORNERS,
                    fitted_scale(pts@, brows_nose(pts@)) == Some(scale),
                    limit == scale * single::of(decimal::N0_15),
                    m == means(pts@, brows_nose(pts@)),
                    (v, p, q) == spread(
                        pts@,
                        brows_nose(pts@),
                        m,
                        brows_nose(pts@).len() as int,
                    ),
                    a == p / v,
                    b == q / v,
                    forall|n: int|
                        0 <= n < k ==> !lies_off(pts@, (#[trigger] EYE_CORNERS[n]) as int),
                decreases 4 - k,
            {
                let i: usize = corners[k];
                assert(i == EYE_CORNERS[k as int]);
                if is_usable(pts, i) {
                    let t: [u32; 3] = FACE_3D[i];
                    let l: [Single; 3] = pts[i];
                    let x: Single = single::of(t[0]) - m.0;
                    let y: Single = single::of(t[1]).negated() - m.1;
                    let dx: Single = l[1] - (m.2 + (a * x - b * y));
                    let dy: Single = l[0] - (m.3 + (b * x + a * y));
                    if hypot(dx, dy).gt(limit) {
                        assert(lies_off(pts@, i as int));
                        return true;
                    }
                }
                k = k + 1;
            }
            assert(!lies_off(pts@, EYE_CORNERS[0] as int));
            assert(!lies_off(pts@, EYE_CORNERS[1] as int));
            assert(!lies_off(pts@, EYE_CORNERS[2] as int));
            assert(!lies_off(pts@, EYE_CORNERS[3] as int));
            false
        },
    }
}

/// The landmarks that the face is fitted to.
pub fn collect_pairs(pts: &[[Single; 3]]) -> (r: Vec<usize>)
    ensures
        ints(r@) == references(pts@),
{
    let guide = collect_range(pts, BROWS_FIRST, NOSE_END);
    proof {
        lemma_picked_usable(pts@, span(17, 36));
        assert forall|k: int| 0 <= k < guide@.len() implies usable(pts@, #[trigger] guide@[k] as int) by {
            assert(ints(guide@)[k] == guide@[k] as int);
        }
    }
    if any_off(pts, guide.as_slice()) {
        return guide;
    }
    let eyes: [usize; 5] = EYES_NOSE;
    let a = collect_indices(pts, eyes.as_slice());
    assert(ints(a@).len() == a@.len());
    if a.len() >= 2 {
        return a;
    }
    let b = collect_range(pts, INTERIOR_FIRST, INTERIOR_END);
    assert(ints(b@).len() == b@.len());
    if b.len() >= 2 {
        return b;
    }
    let n: usize = if pts.len() < FIT_POINTS {
        pts.len()
    } else {
        FIT_POINTS
    };
    collect_range(pts, 0, n)
}

/// The pose with the given scale that puts the mean of the solid points on that of the landmarks.
pub open spec fn pose_with(scale: Single, pts: Seq<[Single; 3]>, idx: Seq<int>) -> Similarity {
    let s = scale.abs().max(single::of(decimal::N0_000001));
    Similarity {
        scale: s,
        tx: ref_mean(pts, idx, 2) - s * ref_mean(pts, idx, 0),
        ty: ref_mean(pts, idx, 3) - s * ref_mean(pts, idx, 1),
    }
}

fn axis_pose(scale: Single, pts: &[[Single; 3]], idx: &[usize]) -> (r: Similarity)
    requires
        forall|k: int| 0 <= k < idx@.len() ==> usable(pts@, #[trigger] idx@[k] as int),
    ensures
        r == pose_with(scale, pts@, ints(idx@)),
{
    let s: Single = scale.abs().max(single::of(decimal::N0_000001));
    let m = pair_means(pts, idx);
    Similarity { scale: s, tx: m.2 - s * m.0, ty: m.3 - s * m.1 }
}

/// The pose of a face: fitted, or else with the scale from before, or else as it was before. None
/// where nothing of that is there.
pub open spec fn pose_of(pts: Seq<[Single; 3]>, prev: Option<Similarity>) -> Option<Similarity> {
    let idx = references(pts);
    match fitted_scale(pts, idx) {
        Some(s) => Some(pose_with(s, pts, idx)),
        None => match prev {
            Some(p) => Some(
                if idx.len() > 0 {
                    pose_with(p.scale, pts, idx)
                } else {
                    p
                },
            ),
            None => None,
        },
    }
}

/// The pose of a face.
pub fn fit_sim(pts: &[[Single; 3]], prev: Option<Similarity>) -> (r: Option<Similarity>)
    ensures
        r == pose_of(pts@, prev),
{
    let idx = collect_pairs(pts);
    proof {
        lemma_picked_usable(pts@, EYES_NOSE@.map_values(|i: usize| i as int));
        lemma_picked_usable(pts@, span(17, 36));
        lemma_picked_usable(pts@, span(17, 48));
        lemma_picked_usable(pts@, span(0, fit_len(pts@.len() as int)));
        assert forall|k: int| 0 <= k < idx@.len() implies usable(pts@, #[trigger] idx@[k] as int) by {
            assert(ints(idx@)[k] == idx@[k] as int);
            assert(usable(pts@, references(pts@)[k]));
        }
        assert(ints(idx@).len() == idx@.len());
    }
    if let Some(s) = similarity_umeyama(pts, idx.as_slice()) {
        return Some(axis_pose(s, pts, idx.as_slice()));
    }
    match prev {
        Some(p) => {
            if idx.len() > 0 {
                Some(axis_pose(p.scale, pts, idx.as_slice()))
            } else {
                Some(p)
            }
        },
        None => None,
    }
}

/// The smallest and largest column and row of the first `n` points of a posed face.
pub open spec fn posed_hull(s: Similarity, n: int) -> (Single, Single, Single, Single)
    decreases n,
{
    if n <= 0 {
        (single::of(single::MAX), single::of(single::MAX), single::of(single::MIN), single::of(single::MIN))
    } else {
        let h = posed_hull(s, n - 1);
        let x = s.scale * template(n - 1).0 + s.tx;
        let y = s.scale * template(n - 1).1 + s.ty;
        (h.0.min(x), h.1.min(y), h.2.max(x), h.3.max(y))
    }
}

/// The box about a posed face.
pub open spec fn posed_box(s: Similarity) -> Seq<Single> {
    let h = posed_hull(s, 66);
    seq![h.0, h.1, h.2 - h.0, h.3 - h.1]
}

impl Similarity {
    /// The box about a posed face, as corner, width and height.
    pub fn aabb(&self) -> (r: [Single; 4])
        ensures
            r@ == posed_box(*self),
    {
        let mut x1: Single = single::of(single::MAX);
        let mut y1: Single = single::of(single::MAX);
        let mut x2: Single = single::of(single::MIN);
        let mut y2: Single = single::of(single::MIN);
        let mut i: usize = 0;
        while i < FIT_POINTS
            invariant
                i <= 66,
                (x1, y1, x2, y2) == posed_hull(*self, i as int),
            decreases 66 - i,
        {
            let t: [u32; 3] = FACE_3D[i];
            let x: Single = self.scale * single::of(t[0]) + self.tx;
            let y: Single = self.scale * single::of(t[1]).negated() + self.ty;
            x1 = x1.min(x);
            y1 = y1.min(y);
            x2 = x2.max(x);
            y2 = y2.max(y);
            i = i + 1;
        }
        let r: [Single; 4] = [x1, y1, x2 - x1, y2 - y1];
        proof {
            assert(r@ =~= posed_box(*self));
        }
        r
    }
}

/// How much of two boxes overlaps, of what they cover together.
pub fn xywh_iou(a: [Single; 4], b: [Single; 4]) -> (r: Single)
    ensures
        r == preprocess::overlap(a@, b@),
{
    let five: [Single; 5] = [a[0], a[1], a[2], a[3], single::of(0)];
    preprocess::iou(&five, &b)
}

/// The hull of the sure ones of the landmarks from `a` to before `b`, as smallest and largest row
/// and column, and how many they are.
pub open spec fn sure_hull(pts: Seq<[Single; 3]>, a: int, b: int) -> (Single, Single, Single, Single, int)
    decreases b - a,
{
    if b <= a {
        (
            single::of(single::MAX),
            single::of(single::MIN),
            single::of(single::MAX),
            single::of(single::MIN),
            0,
        )
    } else {
        let h = sure_hull(pts, a, b - 1);
        if b - 1 < pts.len() && !pts[b - 1][2].lt(single::of(decimal::N0_35)) {
            let p = pts[b - 1];
            (h.0.min(p[0]), h.1.max(p[0]), h.2.min(p[1]), h.3.max(p[1]), h.4 + 1)
        } else {
            h
        }
    }
}

/// The box about the sure ones of the landmarks from `a` to before `b`; none about nothing.
pub open spec fn sure_box(pts: Seq<[Single; 3]>, a: int, b: int) -> Option<Seq<Single>> {
    let h = sure_hull(pts, a, b);
    let one = single::of(single::ONE);
    if h.4 > 0 {
        Some(seq![h.2, h.0, (h.3 - h.2).max(one), (h.1 - h.0).max(one)])
    } else {
        None
    }
}

fn aabb_pts(pts: &[[Single; 3]], a: usize, b: usize) -> (r: Option<[Single; 4]>)
    requires
        a <= b <= 0xffff,
    ensures
        match r {
            Some(x) => sure_box(pts@, a as int, b as int) == Some(x@),
            None => sure_box(pts@, a as int, b as int) is None,
        },
{
    let mut min_r: Single = single::of(single::MAX);
    let mut max_r: Single = single::of(single::MIN);
    let mut min_c: Single = single::of(single::MAX);
    let mut max_c: Single = single::of(single::MIN);
    let mut n: usize = 0;
    let mut i: usize = a;
    while i < b
        invariant
            a <= i <= b <= 0xffff,
            n <= i,
            (min_r, max_r, min_c, max_c, n as int) == sure_hull(pts@, a as int, i as int),
        decreases b - i,
    {
        if i < pts.len() {
            let p: [Single; 3] = pts[i];
            if !p[2].lt(single::of(decimal::N0_35)) {
                min_r = min_r.min(p[0]);
                max_r = max_r.max(p[0]);
                min_c = min_c.min(p[1]);
                max_c = max_c.max(p[1]);
                n = n + 1;
            }
        }
        i = i + 1;
    }
    let one: Single = single::of(single::ONE);
    if n > 0 {
        let x: [Single; 4] = [min_c, min_r, (max_c - min_c).max(one), (max_r - min_r).max(one)];
        proof {
            assert(x@ =~= sure_box(pts@, a as int, b as int)->0);
        }
        Some(x)
    } else {
        None
    }
}

/// The larger of a size and that of a box, where there is one.
pub open spec fn at_least(v: Single, b: Option<Seq<Single>>, c: int) -> Single {
    match b {
        Some(p) => v.max(p[c]),
        None => v,
    }
}

/// A box with the middle of `tmpl` and the largest of all the sizes.
pub open spec fn placed(tmpl: Seq<Single>, last: Option<Seq<Single>>, hull: Option<Seq<Single>>) -> Seq<
    Single,
> {
    let half = single::of(decimal::N0_5);
    let one = single::of(single::ONE);
    let cx = tmpl[0] + tmpl[2] * half;
    let cy = tmpl[1] + tmpl[3] * half;
    let w = at_least(at_least(tmpl[2].max(one), last, 2), hull, 2);
    let h = at_least(at_least(tmpl[3].max(one), last, 3), hull, 3);
    seq![cx - w * half, cy - h * half, w, h]
}

/// A box as a sequence.
pub open spec fn seen(b: Option<[Single; 4]>) -> Option<Seq<Single>> {
    match b {
        Some(x) => Some(x@),
        None => None,
    }
}

/// A box with the middle of `tmpl` and the largest of all the sizes.
pub fn place_box(tmpl: [Single; 4], last: Option<[Single; 4]>, hull: Option<[Single; 4]>) -> (r: [Single; 4])
    ensures
        r@ == placed(tmpl@, seen(last), seen(hull)),
{
    let half: Single = single::of(decimal::N0_5);
    let one: Single = single::of(single::ONE);
    let cx: Single = tmpl[0] + tmpl[2] * half;
    let cy: Single = tmpl[1] + tmpl[3] * half;
    let mut w: Single = tmpl[2].max(one);
    let mut h: Single = tmpl[3].max(one);
    if let Some(p) = last {
        w = w.max(p[2]);
        h = h.max(p[3]);
    }
    if let Some(p) = hull {
        w = w.max(p[2]);
        h = h.max(p[3]);
    }
    let r: [Single; 4] = [cx - w * half, cy - h * half, w, h];
    proof {
        assert(r@ =~= placed(tmpl@, seen(last), seen(hull)));
    }
    r
}

/// The pose half way to a new one: the scale moves by a quarter, the place by four fifths, or all
/// the way where it jumps by more than a fifth of the box.
pub open spec fn blended(state: CropSmoothState, raw: Similarity) -> Similarity {
    let one = single::of(single::ONE);
    let (a, b) = (single::of(decimal::N0_25), single::of(decimal::N0_8));
    let span = (match state.last {
        Some(x) => x[2].max(x[3]),
        None => raw.scale.abs() * single::of(decimal::N2),
    }).max(one);
    let follow = hypot(raw.tx - state.tx, raw.ty - state.ty).gt(single::of(decimal::N0_2) * span);
    Similarity {
        scale: (one - a) * state.scale + a * raw.scale,
        tx: if follow {
            raw.tx
        } else {
            (one - b) * state.tx + b * raw.tx
        },
        ty: if follow {
            raw.ty
        } else {
            (one - b) * state.ty + b * raw.ty
        },
    }
}

/// The pose that is used: a first one as it is, a later one blended in, unless the blend lies too
/// far from it.
pub open spec fn settled(state: CropSmoothState, raw: Similarity) -> Similarity {
    if !state.ready {
        raw
    } else {
        let m = blended(state, raw);
        if preprocess::overlap(posed_box(raw), posed_box(m)).lt(single::of(decimal::N0_3)) {
            raw
        } else {
            m
        }
    }
}

/// Takes in a new pose and gives the one that is used.
pub fn mix(state: &mut CropSmoothState, raw: Similarity) -> (r: Similarity)
    ensures
        r == settled(*old(state), raw),
        *final(state) == (CropSmoothState {
            ready: true,
            scale: r.scale,
            tx: r.tx,
            ty: r.ty,
            last: old(state).last,
        }),
{
    if !state.ready {
        state.ready = true;
        state.scale = raw.scale;
        state.tx = raw.tx;
        state.ty = raw.ty;
        return raw;
    }
    let one: Single = single::of(single::ONE);
    let a: Single = single::of(decimal::N0_25);
    let b: Single = single::of(decimal::N0_8);
    let jump: Single = hypot(raw.tx - state.tx, raw.ty - state.ty);
    let span: Single = (match state.last {
        Some(x) => x[2].max(x[3]),
        None => raw.scale.abs() * single::of(decimal::N2),
    }).max(one);
    let follow: bool = jump.gt(single::of(decimal::N0_2) * span);
    let mixed = Similarity {
        scale: (one - a) * state.scale + a * raw.scale,
        tx: if follow {
            raw.tx
        } else {
            (one - b) * state.tx + b * raw.tx
        },
        ty: if follow {
            raw.ty
        } else {
            (one - b) * state.ty + b * raw.ty
        },
    };
    let r: Similarity = if xywh_iou(raw.aabb(), mixed.aabb()).lt(single::of(decimal::N0_3)) {
        raw
    } else {
        mixed
    };
    state.scale = r.scale;
    state.tx = r.tx;
    state.ty = r.ty;
    r
}

/// The pose that a state holds.
pub open spec fn pose_in(state: Option<CropSmoothState>) -> Option<Similarity> {
    match state {
        Some(s) if s.ready => Some(Similarity { scale: s.scale, tx: s.tx, ty: s.ty }),
        _ => None,
    }
}

/// The last box that a state holds.
pub open spec fn last_in(state: Option<CropSmoothState>) -> Option<[Single; 4]> {
    match state {
        Some(s) => s.last,
        None => None,
    }
}

/// The box without a pose: the last one, or else that about the landmarks inside the face, or else
/// that about all.
pub open spec fn fallback(pts: Seq<[Single; 3]>, last: Option<[Single; 4]>) -> Option<Seq<Single>> {
    match last {
        Some(b) => Some(b@),
        None => match sure_box(pts, 17, 48) {
            Some(b) => Some(b),
            None => sure_box(pts, 0, fit_len(pts.len() as int)),
        },
    }
}

/// The hull of all landmarks.
pub open spec fn whole_hull(pts: Seq<[Single; 3]>) -> Option<Seq<Single>> {
    if pts.len() == 0 {
        None
    } else {
        let h = decode::hull(decode::points(pts));
        let one = single::of(single::ONE);
        Some(seq![h[2], h[0], (h[3] - h[2]).max(one), (h[1] - h[0]).max(one)])
    }
}

/// The pose that is used in a frame.
pub open spec fn used_pose(pts: Seq<[Single; 3]>, state: Option<CropSmoothState>) -> Option<Similarity> {
    match pose_of(pts, pose_in(state)) {
        None => None,
        Some(raw) => Some(
            match state {
                Some(s) => settled(s, raw),
                None => raw,
            },
        ),
    }
}

/// The box of a face.
pub open spec fn stable_box(pts: Seq<[Single; 3]>, state: Option<CropSmoothState>) -> Option<Seq<Single>> {
    match used_pose(pts, state) {
        None => fallback(pts, last_in(state)),
        Some(sim) => Some(placed(posed_box(sim), seen(last_in(state)), whole_hull(pts))),
    }
}

/// Whether `after` is the state after a frame whose box is `b`.
pub open spec fn stable_after(
    pts: Seq<[Single; 3]>,
    state: CropSmoothState,
    b: Option<Seq<Single>>,
    after: CropSmoothState,
) -> bool {
    match pose_of(pts, pose_in(Some(state))) {
        None => {
            &&& after == (CropSmoothState { last: after.last, ..state })
            &&& if state.last is None {
                seen(after.last) == b
            } else {
                after.last == state.last
            }
        },
        Some(raw) => {
            let sim = settled(state, raw);
            &&& after.ready
            &&& after.scale == sim.scale
            &&& after.tx == sim.tx
            &&& after.ty == sim.ty
            &&& seen(after.last) == b
        },
    }
}

/// The box `[x, y, w, h, 1]` of a face in the next frame, and what is kept of it.
pub fn stable_landmark_bbox(pts: &[[Single; 3]], state: Option<CropSmoothState>) -> (r: (
    Option<[Single; 5]>,
    Option<CropSmoothState>,
))
    ensures
        r.0 is Some <==> stable_box(pts@, state) is Some,
        r.0 is Some ==> r.0->0@ == stable_box(pts@, state)->0.push(single::of(single::ONE)),
        r.1 is Some <==> state is Some,
        state is Some ==> stable_after(pts@, state->0, stable_box(pts@, state), r.1->0),
{
    let prev: Option<Similarity> = match &state {
        Some(s) => {
            if s.ready {
                Some(Similarity { scale: s.scale, tx: s.tx, ty: s.ty })
            } else {
                None
            }
        },
        None => None,
    };
    let last: Option<[Single; 4]> = match &state {
        Some(s) => s.last,
        None => None,
    };
    let one: Single = single::of(single::ONE);
    let mut state = state;
    let ghost before = state;
    match fit_sim(pts, prev) {
        None => {
            let n: usize = if pts.len() < FIT_POINTS {
                pts.len()
            } else {
                FIT_POINTS
            };
            let found: Option<[Single; 4]> = match last {
                Some(b) => Some(b),
                None => match aabb_pts(pts, INTERIOR_FIRST, INTERIOR_END) {
                    Some(b) => Some(b),
                    None => aabb_pts(pts, 0, n),
                },
            };
            let after: Option<CropSmoothState> = match state {
                Some(s) => {
                    let mut t: CropSmoothState = s;
                    if s.last.is_none() {
                        t.last = found;
                    }
                    Some(t)
                },
                None => None,
            };
            match found {
                None => (None, after),
                Some(b) => {
                    let r: [Single; 5] = [b[0], b[1], b[2], b[3], one];
                    proof {
                        assert(r@ =~= b@.push(one));
                    }
                    (Some(r), after)
                },
            }
        },
        Some(raw) => {
            let (sim, mid): (Similarity, Option<CropSmoothState>) = match state {
                Some(s) => {
                    let mut t: CropSmoothState = s;
                    let sim = mix(&mut t, raw);
                    (sim, Some(t))
                },
                None => (raw, None),
            };
            let hull: Option<[Single; 4]> = match landmark_bbox(pts) {
                Some(b) => {
                    let q: [Single; 4] = [b[0], b[1], b[2], b[3]];
                    proof {
                        assert(q@ =~= whole_hull(pts@)->0);
                    }
                    Some(q)
                },
                None => None,
            };
            let b: [Single; 4] = place_box(sim.aabb(), last, hull);
            let after: Option<CropSmoothState> = match mid {
                Some(s) => Some(CropSmoothState { last: Some(b), ..s }),
                None => None,
            };
            let r: [Single; 5] = [b[0], b[1], b[2], b[3], one];
            proof {
                assert(r@ =~= b@.push(one));
            }
            (Some(r), after)
        },
    }
}

/// The crop of a face from frame to frame.
#[derive(Clone, Copy, Debug)]
pub struct CropTrack {
    pub state: CropSmoothState,
}

impl CropTrack {
    /// A track that has seen nothing.
    pub fn new() -> (r: CropTrack)
        ensures
            r.state == fresh(),
    {
        CropTrack { state: CropSmoothState::default() }
    }

    /// Forgets everything.
    pub fn reset(&mut self)
        ensures
            final(self).state == fresh(),
    {
        self.state.reset();
    }

    /// Takes a box as the last one where there is none.
    pub fn seed_size(&mut self, b: [Single; 4])
        ensures
            final(self).state == (if old(self).state.last is None {
                CropSmoothState { last: Some(b), ..old(self).state }
            } else {
                old(self).state
            }),
    {
        self.state.seed_size(b);
    }

    /// The box of a face in the next frame, with the given confidence.
    pub fn next_box(&mut self, pts: &[[Single; 3]], conf: Single) -> (r: Option<[Single; 5]>)
        ensures
            r is Some <==> stable_box(pts@, Some(old(self).state)) is Some,
            r is Some ==> r->0@ == stable_box(pts@, Some(old(self).state))->0.push(conf),
            stable_after(
                pts@,
                old(self).state,
                stable_box(pts@, Some(old(self).state)),
                final(self).state,
            ),
    {
        let (found, after) = stable_landmark_bbox(pts, Some(self.state));
        if let Some(s) = after {
            self.state = s;
        }
        match found {
            Some(b) => {
                let r: [Single; 5] = [b[0], b[1], b[2], b[3], conf];
                proof {
                    let s = stable_box(pts@, Some(old(self).state))->0;
                    assert(r@ =~= s.push(conf)) by {
                        assert(b@ == s.push(single::of(single::ONE)));
                        assert(b@.len() == 5);
                    }
                }
                Some(r)
            },
            None => None,
        }
    }
}

/// The box of a face does not shrink: whatever is seen, it is at least as wide and as high as the
/// last one, where that has a size.
pub proof fn lemma_never_shrinks(pts: Seq<[Single; 3]>, state: CropSmoothState)
    requires
        state.last is Some,
        !state.last->0[2].is_nan(),
        !state.last->0[3].is_nan(),
    ensures
        stable_box(pts, Some(state)) is Some,
        state.last->0[2].le(stable_box(pts, Some(state))->0[2]),
        state.last->0[3].le(stable_box(pts, Some(state))->0[3]),
{
    let l = state.last->0;
    match pose_of(pts, pose_in(Some(state))) {
        None => {},
        Some(raw) => {
            let t = posed_box(settled(state, raw));
            let one = single::of(single::ONE);
            assert(l[2].le(t[2].max(one).max(l[2])));
            assert(l[3].le(t[3].max(one).max(l[3])));
        },
    }
}

/// Whether two lists of landmarks are the same but for the places of the corners of the eyes.
pub open spec fn same_but_corners(a: Seq<[Single; 3]>, b: Seq<[Single; 3]>) -> bool {
    &&& a.len() == b.len()
    &&& forall|i: int|
        0 <= i < a.len() && i != 36 && i != 39 && i != 42 && i != 45 ==> #[trigger] a[i] == b[i]
    &&& forall|i: int| 0 <= i < a.len() ==> (#[trigger] a[i])[2] == b[i][2]
}

/// Where a corner of an eye lies off the fit of brows and nose, scale and middle of the box are those
/// of that fit: moving the corners that lie off further off, and the others anyhow, changes neither.
pub proof fn lemma_corners_off_do_not_count(
    a: Seq<[Single; 3]>,
    b: Seq<[Single; 3]>,
    state: Option<CropSmoothState>,
)
    requires
        eyes_off(a),
        same_but_corners(a, b),
        forall|i: int|
            #![trigger lies_off(a, i)]
            (i == 36 || i == 39 || i == 42 || i == 45) && lies_off(a, i) ==> distance_off(a, i).le(
                distance_off(b, i),
            ),
    ensures
        references(a) == brows_nose(a),
        references(b) == references(a),
        pose_of(a, pose_in(state)) == Some(
            pose_with(fitted_scale(a, brows_nose(a))->0, a, brows_nose(a)),
        ),
        pose_of(b, pose_in(state)) == pose_of(a, pose_in(state)),
        used_pose(b, state) == used_pose(a, state),
{
    let idx = brows_nose(a);
    lemma_picked_within(a, span(17, 36), 17, 36);
    lemma_picked_same(a, b, span(17, 36));
    assert(brows_nose(b) == idx);
    assert forall|c: int, n: int| 0 <= n <= idx.len() implies #[trigger] ref_sum(a, idx, c, n) == ref_sum(
        b,
        idx,
        c,
        n,
    ) by {
        lemma_sums_same(a, b, idx, c, n);
    }
    assert(means(a, idx) == means(b, idx));
    lemma_spread_same(a, b, idx, means(a, idx), idx.len() as int);
    assert forall|i: int| #[trigger] lies_off(a, i) && (i == 36 || i == 39 || i == 42 || i == 45) implies
        lies_off(b, i) by {}
}

proof fn lemma_picked_within(pts: Seq<[Single; 3]>, idx: Seq<int>, lo: int, hi: int)
    requires
        forall|k: int| 0 <= k < idx.len() ==> lo <= #[trigger] idx[k] < hi,
    ensures
        forall|k: int| 0 <= k < picked(pts, idx).len() ==> lo <= #[trigger] picked(pts, idx)[k] < hi,
        forall|k: int|
            0 <= k < picked(pts, idx).len() ==> #[trigger] picked(pts, idx)[k] < pts.len(),
    decreases idx.len(),
{
    if idx.len() > 0 {
        let front = picked(pts, idx.drop_last());
        assert forall|k: int| 0 <= k < idx.drop_last().len() implies lo <= #[trigger] idx.drop_last()[k] < hi by {
            assert(idx.drop_last()[k] == idx[k]);
        }
        lemma_picked_within(pts, idx.drop_last(), lo, hi);
        assert(lo <= idx[idx.len() - 1] < hi);
        assert forall|k: int| 0 <= k < picked(pts, idx).len() implies lo <= #[trigger] picked(pts, idx)[k] < hi
            && picked(pts, idx)[k] < pts.len() by {
            if k < front.len() {
                assert(picked(pts, idx)[k] == front[k]);
            }
        }
    }
}

proof fn lemma_picked_same(a: Seq<[Single; 3]>, b: Seq<[Single; 3]>, idx: Seq<int>)
    requires
        same_but_corners(a, b),
    ensures
        picked(a, idx) == picked(b, idx),
    decreases idx.len(),
{
    if idx.len() > 0 {
        lemma_picked_same(a, b, idx.drop_last());
        let i = idx.last();
        if 0 <= i < a.len() {
            assert(a[i][2] == b[i][2]);
        }
    }
}

proof fn lemma_sums_same(a: Seq<[Single; 3]>, b: Seq<[Single; 3]>, idx: Seq<int>, c: int, n: int)
    requires
        same_but_corners(a, b),
        0 <= n <= idx.len(),
        forall|k: int| 0 <= k < idx.len() ==> 0 <= #[trigger] idx[k] < 36 && idx[k] < a.len(),
    ensures
        ref_sum(a, idx, c, n) == ref_sum(b, idx, c, n),
    decreases n,
{
    if n > 0 {
        lemma_sums_same(a, b, idx, c, n - 1);
        assert(a[idx[n - 1]] == b[idx[n - 1]]);
    }
}

proof fn lemma_spread_same(
    a: Seq<[Single; 3]>,
    b: Seq<[Single; 3]>,
    idx: Seq<int>,
    m: (Single, Single, Single, Single),
    n: int,
)
    requires
        same_but_corners(a, b),
        0 <= n <= idx.len(),
        forall|k: int| 0 <= k < idx.len() ==> 0 <= #[trigger] idx[k] < 36 && idx[k] < a.len(),
    ensures
        spread(a, idx, m, n) == spread(b, idx, m, n),
    decreases n,
{
    if n > 0 {
        lemma_spread_same(a, b, idx, m, n - 1);
        assert(a[idx[n - 1]] == b[idx[n - 1]]);
    }
}

/// Before a first fit, and without a sure landmark, the last box is kept.
pub proof fn lemma_last_box_kept(pts: Seq<[Single; 3]>, state: CropSmoothState)
    requires
        state.last is Some,
        !state.ready,
        forall|i: int| 0 <= i < pts.len() ==> (#[trigger] pts[i])[2].lt(single::of(decimal::N0_35)),
    ensures
        stable_box(pts, Some(state)) == Some(state.last->0@),
{
    lemma_nothing_picked(pts, EYES_NOSE@.map_values(|i: usize| i as int));
    lemma_nothing_picked(pts, span(17, 36));
    lemma_nothing_picked(pts, span(17, 48));
    lemma_nothing_picked(pts, span(0, fit_len(pts.len() as int)));
}

/// Once there was a fit, and without a sure landmark, the pose is held: scale and place that are used
/// are the last ones but for rounding.
pub proof fn lemma_pose_held(pts: Seq<[Single; 3]>, state: CropSmoothState)
    requires
        state.ready,
        state.scale.mag() + 1 < single::INFINITY,
        state.tx.mag() + 1 < single::INFINITY,
        state.ty.mag() + 1 < single::INFINITY,
        forall|i: int| 0 <= i < pts.len() ==> (#[trigger] pts[i])[2].lt(single::of(decimal::N0_35)),
    ensures
        used_pose(pts, Some(state)) is Some,
        ({
            let s = used_pose(pts, Some(state))->0;
            &&& order::nearly(s.scale, state.scale)
            &&& order::nearly(s.tx, state.tx)
            &&& order::nearly(s.ty, state.ty)
        }),
{
    lemma_nothing_picked(pts, EYES_NOSE@.map_values(|i: usize| i as int));
    lemma_nothing_picked(pts, span(17, 36));
    lemma_nothing_picked(pts, span(17, 48));
    lemma_nothing_picked(pts, span(0, fit_len(pts.len() as int)));
    let one = single::of(single::ONE);
    let (a, b) = (single::of(decimal::N0_25), single::of(decimal::N0_8));
    lemma_blend_weights();
    order::lemma_mean_of_same(state.scale, one - a, a);
    order::lemma_mean_of_same(state.tx, one - b, b);
    order::lemma_mean_of_same(state.ty, one - b, b);
}

proof fn lemma_blend_weights()
    ensures
        ({
            let one = single::of(single::ONE);
            let (a, b) = (single::of(decimal::N0_25), single::of(decimal::N0_8));
            &&& one - a == single::of(0x3f40_0000)
            &&& one - b == single::of(0x3e4c_cccc)
            &&& order::val(one - a) + order::val(a) == pow2(149)
            &&& order::val(one - b) + order::val(b) == pow2(149)
        }),
{
    lemma2_to64();
    lemma_pow2_adds(24, 125);
    lemma_pow2_unfold(125);
    lemma_pow2_unfold(124);
    order::lemma_units_at(124, 0x80_0000);
    order::lemma_units_at(125, 0xc0_0000);
    assert(124 * pow2(23) + 0x80_0000 == 0x3e80_0000);
    assert(125 * pow2(23) + 0xc0_0000 == 0x3f40_0000);
    order::lemma_complement(decimal::N0_25, 0x3f40_0000);
    order::lemma_units_at(125, 0xcc_cccd);
    order::lemma_units_at(123, 0xcc_cccc);
    assert(125 * pow2(23) + 0xcc_cccd == 0x3f4c_cccd);
    assert(123 * pow2(23) + 0xcc_cccc == 0x3e4c_cccc);
    order::lemma_complement(decimal::N0_8, 0x3e4c_cccc);
}

proof fn lemma_nothing_picked(pts: Seq<[Single; 3]>, idx: Seq<int>)
    requires
        forall|i: int| 0 <= i < pts.len() ==> (#[trigger] pts[i])[2].lt(single::of(decimal::N0_35)),
    ensures
        picked(pts, idx).len() == 0,
    decreases idx.len(),
{
    if idx.len() > 0 {
        lemma_nothing_picked(pts, idx.drop_last());
    }
}

/// The solid face lies within three quarters of its unit.
proof fn lemma_template_small(i: int)
    requires
        0 <= i < 66,
    ensures
        single::of(FACE_3D[i][0]).mag() <= 0x3f40_0000,
        single::of(FACE_3D[i][1]).mag() <= 0x3f40_0000,
{
}

/// The step in which the rounding of a box below `2^k` is counted.
spec fn step(k: nat) -> int {
    pow2((k - 28) as nat) as int
}

/// Powers of two about `2^k`, in steps.
proof fn lemma_steps(k: nat)
    requires
        150 <= k <= 250,
    ensures
        step(k) > 0,
        4 * step((k - 2) as nat) == step(k),
        pow2((k - 27) as nat) == 2 * step(k),
        pow2((k - 26) as nat) == 4 * step(k),
        pow2((k - 25) as nat) == 8 * step(k),
        pow2((k - 24) as nat) == 16 * step(k),
        pow2((k - 23) as nat) == 32 * step(k),
        pow2((k - 21) as nat) == 128 * step(k),
        pow2(k) == 0x1000_0000 * step(k),
        pow2(k) == 2 * pow2((k - 1) as nat),
        pow2(k) == 4 * pow2((k - 2) as nat),
        pow2(k + 1) == 2 * pow2(k),
{
    lemma2_to64();
    lemma_pow2_pos((k - 28) as nat);
    lemma_pow2_adds(2, (k - 30) as nat);
    lemma_pow2_unfold((k - 27) as nat);
    lemma_pow2_unfold((k - 26) as nat);
    lemma_pow2_unfold((k - 25) as nat);
    lemma_pow2_unfold((k - 24) as nat);
    lemma_pow2_unfold((k - 23) as nat);
    lemma_pow2_adds(7, (k - 28) as nat);
    lemma_pow2_adds(28, (k - 28) as nat);
    lemma_pow2_unfold((k - 1) as nat);
    lemma_pow2_unfold(k);
    lemma_pow2_unfold(k + 1);
}

/// Whether a number lies between `-n` and `n`, in units of the smallest number.
pub open spec fn size_at_most(x: Single, n: int) -> bool {
    x.is_finite() && -n <= order::val(x) <= n
}

/// Whether two numbers differ by no more than `n`.
spec fn close(x: Single, y: Single, n: int) -> bool {
    order::distance(order::val(x), order::val(y)) <= n
}

/// A mean of a number with itself is that number but for rounding, where the weights make up one
/// exactly and one of them is a quarter at most.
proof fn lemma_mean_stays(big: Single, little: Single, x: Single, k: nat)
    requires
        148 <= k <= 250,
        big.is_finite(),
        little.is_finite(),
        order::val(big) + order::val(little) == pow2(149),
        0 <= 4 * order::val(little) <= pow2(149),
        size_at_most(x, pow2(k) - 64 * step(k)),
    ensures
        (big * x + little * x).is_finite(),
        close(x, big * x + little * x, 18 * step(k)),
{
    let u = pow2(149) as int;
    let (b, e) = (pow2(k) as int, step(k));
    lemma2_to64();
    lemma_pow2_pos((k - 28) as nat);
    lemma_pow2_pos(149);
    lemma_pow2_adds(28, (k - 28) as nat);
    lemma_pow2_adds(4, (k - 28) as nat);
    lemma_pow2_adds(2, (k - 28) as nat);
    lemma_pow2_adds(2, (k - 2) as nat);
    let (v, p, q) = (order::val(x), order::val(big), order::val(little));
    let c = pow2((k - 2) as nat) as int;
    assert(-(b * u) < p * v < b * u) by (nonlinear_arith)
        requires
            0 <= p <= u,
            -b < v < b,
            u > 0,
    ;
    assert(-(c * u) < q * v < c * u) by (nonlinear_arith)
        requires
            0 <= 4 * q <= u,
            -b < v < b,
            b == 4 * c,
            u > 0,
    ;
    order::lemma_product_close(big, x, k);
    order::lemma_product_close(little, x, (k - 2) as nat);
    let (m, n) = (order::val(big * x), order::val(little * x));
    assert(p * v + q * v == u * v) by (nonlinear_arith)
        requires
            p + q == u,
    ;
    assert(-8 * (u * e) <= m * u - p * v <= 8 * (u * e)) by (nonlinear_arith)
        requires
            2 * (m * u - p * v) <= u * (16 * e),
            2 * (p * v - m * u) <= u * (16 * e),
    ;
    assert(-2 * (u * e) <= n * u - q * v <= 2 * (u * e)) by (nonlinear_arith)
        requires
            2 * (n * u - q * v) <= u * (4 * e),
            2 * (q * v - n * u) <= u * (4 * e),
    ;
    let d = m + n - v;
    assert(d * u == (m * u - p * v) + (n * u - q * v)) by (nonlinear_arith)
        requires
            d == m + n - v,
            p * v + q * v == u * v,
    ;
    assert(-10 * e <= d <= 10 * e) by (nonlinear_arith)
        requires
            -10 * (u * e) <= d * u <= 10 * (u * e),
            u > 0,
    ;
    order::lemma_sum_close(big * x, little * x, k);
}

/// One coordinate of a posed point, against the number by which it is moved.
proof fn lemma_posed(s: Single, t: Single, o: Single, k: nat)
    requires
        150 <= k <= 250,
        size_at_most(s, pow2((k - 2) as nat) - 32 * step(k)),
        o.is_finite(),
        order::distance(order::val(s), 0) + order::distance(order::val(o), 0) + 32 * step(k) <= pow2(k),
        t.mag() <= 0x3f40_0000,
    ensures
        (s * t + o).is_finite(),
        4 * order::distance(order::val(t), 0) <= 3 * pow2(149),
        4 * order::distance(order::val(s * t + o), order::val(o)) <= 3 * order::distance(order::val(s), 0)
            + 40 * step(k),
        ({
            let off = (order::val(s * t + o) - order::val(o)) * pow2(149) - order::val(s) * order::val(t);
            -10 * (pow2(149) * step(k)) <= off <= 10 * (pow2(149) * step(k))
        }),
{
    let u = pow2(149) as int;
    let (b, c, e) = (pow2(k) as int, pow2((k - 2) as nat) as int, step(k));
    lemma_steps(k);
    lemma2_to64();
    lemma_pow2_pos(149);
    order::lemma_units_at(125, 0xc0_0000);
    assert(125 * pow2(23) + 0xc0_0000 == 0x3f40_0000);
    lemma_pow2_adds(24, 125);
    facts::lemma_units_monotone(t.mag() as nat, 0x3f40_0000, 24);
    let (vs, vt, vo) = (order::val(s), order::val(t), order::val(o));
    let w = order::distance(vs, 0);
    assert(-3 * u <= 4 * vt <= 3 * u);
    assert(-(c * u) < vs * vt < c * u && -(3 * (w * u)) <= 4 * (vs * vt) <= 3 * (w * u)) by (nonlinear_arith)
        requires
            -w <= vs <= w,
            0 <= w < c,
            -3 * u <= 4 * vt <= 3 * u,
            u > 0,
    ;
    order::lemma_product_close(s, t, (k - 2) as nat);
    let m = order::val(s * t);
    assert(-2 * (u * e) <= m * u - vs * vt <= 2 * (u * e)) by (nonlinear_arith)
        requires
            2 * (m * u - vs * vt) <= u * (4 * e),
            2 * (vs * vt - m * u) <= u * (4 * e),
    ;
    assert(-3 * w - 8 * e <= 4 * m <= 3 * w + 8 * e) by (nonlinear_arith)
        requires
            -2 * (u * e) <= m * u - vs * vt <= 2 * (u * e),
            -(3 * (w * u)) <= 4 * (vs * vt) <= 3 * (w * u),
            u > 0,
    ;
    order::lemma_sum_close(s * t, o, k);
    let x = order::val(s * t + o);
    let d = x - (m + vo);
    assert(-8 * e <= d <= 8 * e);
    assert((x - vo) * u == m * u + d * u) by (nonlinear_arith)
        requires
            d == x - (m + vo),
    ;
    assert(-8 * (u * e) <= d * u <= 8 * (u * e)) by (nonlinear_arith)
        requires
            -8 * e <= d <= 8 * e,
            u > 0,
    ;
}

/// A coordinate of a point under two poses that hardly differ moves as the poses do.
proof fn lemma_posed_close(s: Single, s2: Single, t: Single, o: Single, o2: Single, k: nat)
    requires
        150 <= k <= 250,
        axis_close(s, s2, o, o2, k),
        t.mag() <= 0x3f40_0000,
    ensures
        ({
            let d = (order::val(s2 * t + o2) - order::val(o2)) - (order::val(s * t + o) - order::val(o));
            -24 * step(k) <= d <= 24 * step(k)
        }),
{
    let u = pow2(149) as int;
    let e = step(k);
    lemma_steps(k);
    lemma_pow2_pos(149);
    lemma_posed(s, t, o, k);
    lemma_posed(s2, t, o2, k);
    let vt = order::val(t);
    let (x, y) = (order::val(s * t + o) - order::val(o), order::val(s2 * t + o2) - order::val(o2));
    let ds = order::val(s2) - order::val(s);
    assert(order::val(s2) * vt - order::val(s) * vt == ds * vt && y * u - x * u == (y - x) * u)
        by (nonlinear_arith)
        requires
            ds == order::val(s2) - order::val(s),
    ;
    assert(-4 * (u * e) <= ds * vt <= 4 * (u * e)) by (nonlinear_arith)
        requires
            -5 * e <= ds <= 5 * e,
            -3 * u <= 4 * vt <= 3 * u,
            u > 0,
            e > 0,
    ;
    assert(-24 * (u * e) <= (y - x) * u <= 24 * (u * e));
    assert(-24 * e <= y - x <= 24 * e) by (nonlinear_arith)
        requires
            -24 * (u * e) <= (y - x) * u <= 24 * (u * e),
            u > 0,
    ;
}

/// Whether scale and place of two poses hardly differ on an axis, and stay small enough.
spec fn axis_close(s: Single, s2: Single, o: Single, o2: Single, k: nat) -> bool {
    &&& size_at_most(s, pow2((k - 2) as nat) - 32 * step(k))
    &&& size_at_most(s2, pow2((k - 2) as nat) - 32 * step(k))
    &&& o.is_finite() && o2.is_finite()
    &&& order::distance(order::val(s), 0) + order::distance(order::val(o), 0) + 128 * step(k) <= pow2(k)
    &&& order::distance(order::val(s2), 0) + order::distance(order::val(o2), 0) + 64 * step(k) <= pow2(k)
    &&& close(s, s2, 5 * step(k))
    &&& close(o, o2, 18 * step(k))
}

/// Whether two poses hardly differ.
spec fn poses_close(a: Similarity, b: Similarity, k: nat) -> bool {
    &&& axis_close(a.scale, b.scale, a.tx, b.tx, k)
    &&& axis_close(a.scale, b.scale, a.ty, b.ty, k)
}

proof fn lemma_extremes()
    ensures
        single::of(single::MAX).is_finite(),
        single::of(single::MIN).is_finite(),
        order::val(single::of(single::MIN)) == -order::val(single::of(single::MAX)),
        order::val(single::of(single::MAX)) >= pow2(254),
{
    lemma2_to64();
    order::lemma_units_at(231, pow2(23));
    assert(231 * pow2(23) + pow2(23) == 0x7400_0000);
    lemma_pow2_adds(23, 231);
    order::lemma_units_below(0x7400_0000, single::MAX as nat);
}

/// Whether an end of the hull of a face moved as the face did, and lies about it: `p` and `q` the ends
/// under two poses, of which `o` and `o2` are the places and `s` the first one's scale.
spec fn end_close(p: Single, q: Single, s: Single, o: Single, o2: Single, k: nat) -> bool {
    let d = (order::val(q) - order::val(o2)) - (order::val(p) - order::val(o));
    &&& -24 * step(k) <= d <= 24 * step(k)
    &&& 4 * order::distance(order::val(p), order::val(o)) <= 3 * order::distance(order::val(s), 0) + 40
        * step(k)
}

/// The hull of the posed face under two poses that hardly differ.
proof fn lemma_hull_close(a: Similarity, b: Similarity, n: int, k: nat)
    requires
        150 <= k <= 250,
        poses_close(a, b, k),
        0 <= n <= 66,
    ensures
        ({
            let (p, q) = (posed_hull(a, n), posed_hull(b, n));
            &&& p.0.is_finite() && q.0.is_finite()
            &&& p.1.is_finite() && q.1.is_finite()
            &&& p.2.is_finite() && q.2.is_finite()
            &&& p.3.is_finite() && q.3.is_finite()
            &&& n == 0 ==> p == q && order::val(p.0) >= 4 * pow2(k) && order::val(p.1) >= 4 * pow2(k)
                && order::val(p.2) <= -4 * pow2(k) && order::val(p.3) <= -4 * pow2(k)
            &&& n > 0 ==> end_close(p.0, q.0, a.scale, a.tx, b.tx, k)
            &&& n > 0 ==> end_close(p.1, q.1, a.scale, a.ty, b.ty, k)
            &&& n > 0 ==> end_close(p.2, q.2, a.scale, a.tx, b.tx, k)
            &&& n > 0 ==> end_close(p.3, q.3, a.scale, a.ty, b.ty, k)
        }),
    decreases n,
{
    lemma_steps(k);
    lemma_extremes();
    lemma_pow2_unfold(k + 2);
    round::lemma_pow2_monotone(k + 2, 254);
    if n > 0 {
        lemma_hull_close(a, b, n - 1, k);
        lemma_template_small(n - 1);
        let (t, v) = template(n - 1);
        order::lemma_val_negated(single::of(FACE_3D[n - 1][1]));
        assert(t.mag() <= 0x3f40_0000 && v.mag() <= 0x3f40_0000);
        lemma_posed(a.scale, t, a.tx, k);
        lemma_posed(b.scale, t, b.tx, k);
        lemma_posed_close(a.scale, b.scale, t, a.tx, b.tx, k);
        lemma_posed(a.scale, v, a.ty, k);
        lemma_posed(b.scale, v, b.ty, k);
        lemma_posed_close(a.scale, b.scale, v, a.ty, b.ty, k);
        let (p, q) = (posed_hull(a, n - 1), posed_hull(b, n - 1));
        order::lemma_val_of_least_and_most(p.0, a.scale * t + a.tx);
        order::lemma_val_of_least_and_most(q.0, b.scale * t + b.tx);
        order::lemma_val_of_least_and_most(p.2, a.scale * t + a.tx);
        order::lemma_val_of_least_and_most(q.2, b.scale * t + b.tx);
        order::lemma_val_of_least_and_most(p.1, a.scale * v + a.ty);
        order::lemma_val_of_least_and_most(q.1, b.scale * v + b.ty);
        order::lemma_val_of_least_and_most(p.3, a.scale * v + a.ty);
        order::lemma_val_of_least_and_most(q.3, b.scale * v + b.ty);
    }
}

/// How wide a box is, and where its middle lies, under two poses that hardly differ.
proof fn lemma_middle_close(
    a: Single,
    b: Single,
    a2: Single,
    b2: Single,
    s: Single,
    s2: Single,
    o: Single,
    o2: Single,
    k: nat,
)
    requires
        150 <= k <= 250,
        a.is_finite() && b.is_finite() && a2.is_finite() && b2.is_finite(),
        axis_close(s, s2, o, o2, k),
        end_close(a, a2, s, o, o2, k),
        end_close(b, b2, s, o, o2, k),
    ensures
        ({
            let half = single::of(decimal::N0_5);
            let (w, w2) = (b - a, b2 - a2);
            let (c, c2) = (a + w * half, a2 + w2 * half);
            &&& size_at_most(w, pow2(k) as int) && size_at_most(w2, pow2(k) as int)
            &&& close(w, w2, 56 * step(k))
            &&& size_at_most(c, pow2(k) as int) && size_at_most(c2, pow2(k) as int)
            &&& close(c, c2, 66 * step(k))
        }),
{
    let half = single::of(decimal::N0_5);
    let e = step(k);
    lemma_steps(k);
    order::lemma_val_negated(a);
    order::lemma_val_negated(a2);
    order::lemma_sum_close(b, a.negated(), (k - 1) as nat);
    order::lemma_sum_close(b2, a2.negated(), (k - 1) as nat);
    let (w, w2) = (b - a, b2 - a2);
    let (va, vb, vo) = (order::val(a), order::val(b), order::val(o));
    let (xa, xb, xo) = (order::val(a2), order::val(b2), order::val(o2));
    assert(-4 * e <= order::val(w) - (vb - va) <= 4 * e);
    assert(-4 * e <= order::val(w2) - (xb - xa) <= 4 * e);
    order::lemma_half_close(w, (k - 1) as nat);
    order::lemma_half_close(w2, (k - 1) as nat);
    let (h, h2) = (order::val(w * half), order::val(w2 * half));
    assert(-4 * e <= 2 * h - order::val(w) <= 4 * e);
    assert(-4 * e <= 2 * h2 - order::val(w2) <= 4 * e);
    order::lemma_sum_close(a, w * half, k);
    order::lemma_sum_close(a2, w2 * half, k);
}

/// Where a box starts whose middle and size hardly differ.
proof fn lemma_start_close(c: Single, c2: Single, w: Single, w2: Single, k: nat)
    requires
        150 <= k <= 250,
        size_at_most(c, pow2(k) as int) && size_at_most(c2, pow2(k) as int),
        size_at_most(w, pow2(k) - 128 * step(k)),
        w2.is_finite(),
        close(c, c2, 66 * step(k)),
        close(w, w2, 56 * step(k)),
        size_at_most(c - w * single::of(decimal::N0_5), pow2(k) - 256 * step(k)),
    ensures
        ({
            let half = single::of(decimal::N0_5);
            close(c - w * half, c2 - w2 * half, 128 * step(k))
        }),
{
    let half = single::of(decimal::N0_5);
    let e = step(k);
    lemma_steps(k);
    order::lemma_half_close(w, k);
    order::lemma_half_close(w2, k);
    let (h, h2) = (order::val(w * half), order::val(w2 * half));
    assert(-8 * e <= 2 * h - order::val(w) <= 8 * e);
    assert(-8 * e <= 2 * h2 - order::val(w2) <= 8 * e);
    order::lemma_val_negated(w * half);
    order::lemma_val_negated(w2 * half);
    order::lemma_sum_close(c, (w * half).negated(), k + 1);
    assert(-16 * e <= order::val(c - w * half) - (order::val(c) - h) <= 16 * e);
    order::lemma_sum_close(c, (w * half).negated(), k);
    order::lemma_sum_close(c2, (w2 * half).negated(), k);
}

/// Without a sure landmark the pose that is used is the last one but for rounding.
proof fn lemma_pose_stays(pts: Seq<[Single; 3]>, state: CropSmoothState, k: nat)
    requires
        150 <= k <= 250,
        state.ready,
        pose_below(state, k),
        forall|i: int| 0 <= i < pts.len() ==> (#[trigger] pts[i])[2].lt(single::of(decimal::N0_35)),
    ensures
        used_pose(pts, Some(state)) is Some,
        poses_close(pose_in(Some(state))->0, used_pose(pts, Some(state))->0, k),
{
    lemma_nothing_picked(pts, EYES_NOSE@.map_values(|i: usize| i as int));
    lemma_nothing_picked(pts, span(17, 36));
    lemma_nothing_picked(pts, span(17, 48));
    lemma_nothing_picked(pts, span(0, fit_len(pts.len() as int)));
    lemma_steps(k);
    lemma_pow2_unfold((k - 20) as nat);
    let one = single::of(single::ONE);
    let (a, b) = (single::of(decimal::N0_25), single::of(decimal::N0_8));
    lemma_blend_weights();
    lemma_weight_sizes();
    lemma_mean_stays(one - a, a, state.scale, (k - 2) as nat);
    lemma_mean_stays(b, one - b, state.tx, k);
    lemma_mean_stays(b, one - b, state.ty, k);
    order::lemma_add_commutes(b * state.tx, (one - b) * state.tx);
    order::lemma_add_commutes(b * state.ty, (one - b) * state.ty);
}

/// The smaller weights are a quarter at most.
proof fn lemma_weight_sizes()
    ensures
        ({
            let one = single::of(single::ONE);
            let (a, b) = (single::of(decimal::N0_25), single::of(decimal::N0_8));
            &&& a.is_finite() && b.is_finite() && (one - a).is_finite() && (one - b).is_finite()
            &&& 0 <= 4 * order::val(a) <= pow2(149)
            &&& 0 <= 4 * order::val(one - b) <= pow2(149)
        }),
{
    lemma_blend_weights();
    lemma2_to64();
    lemma_pow2_adds(25, 124);
    order::lemma_units_at(124, 0x80_0000);
    assert(124 * pow2(23) + 0x80_0000 == 0x3e80_0000);
    order::lemma_units_below(0x3e4c_cccc, 0x3e80_0000);
    lemma_pow2_adds(23, 124);
    lemma_pow2_adds(2, 147);
}

/// Whether the pose that a state holds is small enough for numbers below `2^k`, in units of the
/// smallest: the scale below a quarter of that, and scale and place together below it.
pub open spec fn pose_below(state: CropSmoothState, k: nat) -> bool {
    let slack = pow2((k - 20) as nat);
    let s = order::distance(order::val(state.scale), 0);
    &&& state.scale.is_finite() && state.tx.is_finite() && state.ty.is_finite()
    &&& 4 * s + 4 * slack <= pow2(k)
    &&& s + order::distance(order::val(state.tx), 0) + slack <= pow2(k)
    &&& s + order::distance(order::val(state.ty), 0) + slack <= pow2(k)
}

/// Whether the start and the size of a box are below `2^k`, in units of the smallest number.
pub open spec fn box_below(b: Seq<Single>, k: nat) -> bool {
    forall|i: int| 0 <= i < 4 ==> size_at_most(#[trigger] b[i], pow2(k) - pow2((k - 20) as nat))
}

/// The larger of two numbers is no smaller than the first.
proof fn lemma_at_least(x: Single, y: Single)
    requires
        !x.is_nan(),
    ensures
        x.le(x.max(y)),
        y.le(x) ==> x.max(y).key() == x.key(),
{
}

/// One side of a box that is held: from where it starts and how long it is in one frame to the next.
proof fn lemma_side_held(
    lo: Single,
    hi: Single,
    lo2: Single,
    hi2: Single,
    s: Single,
    s2: Single,
    o: Single,
    o2: Single,
    len: Single,
    seen_len: Single,
    k: nat,
)
    requires
        150 <= k <= 250,
        lo.is_finite() && hi.is_finite() && lo2.is_finite() && hi2.is_finite(),
        axis_close(s, s2, o, o2, k),
        end_close(lo, lo2, s, o, o2, k),
        end_close(hi, hi2, s, o, o2, k),
        size_at_most(len, pow2(k) - 256 * step(k)),
        (hi - lo).max(single::of(single::ONE)).le(len),
        seen_len.le(len),
        size_at_most(
            lo + (hi - lo) * single::of(decimal::N0_5) - len * single::of(decimal::N0_5),
            pow2(k) - 256 * step(k),
        ),
    ensures
        ({
            let half = single::of(decimal::N0_5);
            let len2 = (hi2 - lo2).max(single::of(single::ONE)).max(len).max(seen_len);
            &&& len.le(len2)
            &&& len2.is_finite()
            &&& close(len, len2, 128 * step(k))
            &&& close(
                lo + (hi - lo) * half - len * half,
                lo2 + (hi2 - lo2) * half - len2 * half,
                128 * step(k),
            )
        }),
{
    let half = single::of(decimal::N0_5);
    let one = single::of(single::ONE);
    lemma_steps(k);
    lemma_middle_close(lo, hi, lo2, hi2, s, s2, o, o2, k);
    facts::lemma_single_one();
    let (w, w2) = (hi - lo, hi2 - lo2);
    order::lemma_val_of_least_and_most(w, one);
    order::lemma_val_of_least_and_most(w2, one);
    order::lemma_val_order(w.max(one), len);
    let m = w2.max(one);
    order::lemma_val_of_least_and_most(m, len);
    let n = m.max(len);
    lemma_at_least(n, seen_len);
    let len2 = n.max(seen_len);
    assert(seen_len.le(n));
    assert(len2.is_finite() && order::val(len2) == order::val(n)) by {
        order::lemma_val_order(n, len2);
        order::lemma_val_order(len2, n);
    }
    order::lemma_val_order(len, len2);
    lemma_start_close(lo + w * half, lo2 + w2 * half, len, len2, k);
}

/// After a fit, and without a sure landmark, the box is held: it is the last one within the 2^21st part
/// of `2^k`, and it is no smaller, where box and pose are below `2^k` and the scale below a quarter of
/// it. For a picture of 2048 pixels, and faces of less than a quarter of that in scale, that is less
/// than a thousandth.
pub proof fn lemma_box_held(
    first: Seq<[Single; 3]>,
    before: CropSmoothState,
    state: CropSmoothState,
    pts: Seq<[Single; 3]>,
    k: nat,
)
    requires
        used_pose(first, Some(before)) is Some,
        stable_after(first, before, stable_box(first, Some(before)), state),
        150 <= k <= 250,
        pose_below(state, k),
        box_below(stable_box(first, Some(before))->0, k),
        forall|i: int| 0 <= i < pts.len() ==> (#[trigger] pts[i])[2].lt(single::of(decimal::N0_35)),
        whole_hull(pts) is Some ==> whole_hull(pts)->0[2].le(state.last->0[2]) && whole_hull(
            pts,
        )->0[3].le(state.last->0[3]),
    ensures
        stable_box(pts, Some(state)) is Some,
        stable_box(first, Some(before)) == Some(state.last->0@),
        ({
            let (a, b) = (stable_box(first, Some(before))->0, stable_box(pts, Some(state))->0);
            &&& a[2].le(b[2])
            &&& a[3].le(b[3])
            &&& forall|i: int|
                0 <= i < 4 ==> order::distance(order::val(#[trigger] a[i]), order::val(b[i])) <= pow2(
                    (k - 21) as nat,
                )
        }),
{
    lemma_steps(k);
    lemma_pow2_unfold((k - 20) as nat);
    lemma_pose_stays(pts, state, k);
    let (p, q) = (pose_in(Some(state))->0, used_pose(pts, Some(state))->0);
    assert(used_pose(first, Some(before)) == Some(p));
    lemma_hull_close(p, q, 66, k);
    let (a, b) = (stable_box(first, Some(before))->0, stable_box(pts, Some(state))->0);
    assert(a == state.last->0@);
    lemma_placed_close(p, q, a, seen(before.last), whole_hull(first), whole_hull(pts), k);
    assert(b == placed(posed_box(q), Some(a), whole_hull(pts)));
}

/// A side that has to be at least as long as others is.
proof fn lemma_longest(x: Single, last: Option<Seq<Single>>, hull: Option<Seq<Single>>, c: int)
    requires
        !x.is_nan(),
    ensures
        x.le(at_least(at_least(x, last, c), hull, c)),
{
}

/// A side that has to be at least as long as a seen one, or as itself where none was seen.
proof fn lemma_seen_side(x: Single, len: Single, hull: Option<Seq<Single>>, c: int)
    requires
        !x.is_nan(),
        !len.is_nan(),
    ensures
        at_least(x.max(len), hull, c) == x.max(len).max(
            match hull {
                Some(h) => h[c],
                None => len,
            },
        ),
{
}

/// The boxes placed about two poses that hardly differ, the second one with the first as the last.
proof fn lemma_placed_close(
    p: Similarity,
    q: Similarity,
    a: Seq<Single>,
    last: Option<Seq<Single>>,
    hull: Option<Seq<Single>>,
    next: Option<Seq<Single>>,
    k: nat,
)
    requires
        150 <= k <= 250,
        poses_close(p, q, k),
        a == placed(posed_box(p), last, hull),
        forall|i: int| 0 <= i < 4 ==> size_at_most(#[trigger] a[i], pow2(k) - 256 * step(k)),
        next is Some ==> next->0[2].le(a[2]) && next->0[3].le(a[3]),
    ensures
        ({
            let b = placed(posed_box(q), Some(a), next);
            &&& a[2].le(b[2])
            &&& a[3].le(b[3])
            &&& forall|i: int|
                0 <= i < 4 ==> order::distance(order::val(#[trigger] a[i]), order::val(b[i])) <= 128
                    * step(k)
        }),
{
    let one = single::of(single::ONE);
    let (g, h) = (posed_hull(p, 66), posed_hull(q, 66));
    let b = placed(posed_box(q), Some(a), next);
    lemma_hull_close(p, q, 66, k);
    assert(size_at_most(a[0], pow2(k) - 256 * step(k)) && size_at_most(a[1], pow2(k) - 256 * step(k)));
    assert(size_at_most(a[2], pow2(k) - 256 * step(k)) && size_at_most(a[3], pow2(k) - 256 * step(k)));
    let (x, y) = ((g.2 - g.0).max(one), (g.3 - g.1).max(one));
    let (x2, y2) = ((h.2 - h.0).max(one), (h.3 - h.1).max(one));
    lemma_longest(x, last, hull, 2);
    lemma_longest(y, last, hull, 3);
    lemma_seen_side(x2, a[2], next, 2);
    lemma_seen_side(y2, a[3], next, 3);
    let (m, n) = match next {
        Some(c) => (c[2], c[3]),
        None => (a[2], a[3]),
    };
    lemma_side_held(g.0, g.2, h.0, h.2, p.scale, q.scale, p.tx, q.tx, a[2], m, k);
    lemma_side_held(g.1, g.3, h.1, h.3, p.scale, q.scale, p.ty, q.ty, a[3], n, k);
    assert(b[2] == x2.max(a[2]).max(m) && b[3] == y2.max(a[3]).max(n));
    assert forall|i: int| 0 <= i < 4 implies order::distance(order::val(#[trigger] a[i]), order::val(b[i]))
        <= 128 * step(k) by {
        assert(i == 0 || i == 1 || i == 2 || i == 3);
    }
}

proof fn lemma_hull_of_blank(pts: Seq<Seq<Single>>)
    requires
        pts.len() > 0,
        forall|i: int| 0 <= i < pts.len() ==> (#[trigger] pts[i]).len() == 3 && pts[i][0] == single::of(0)
            && pts[i][1] == single::of(0),
    ensures
        forall|c: int| 0 <= c < 4 ==> #[trigger] decode::hull(pts)[c] == single::of(0),
    decreases pts.len(),
{
    let front = pts.drop_last();
    let zero = single::of(0);
    assert(pts[pts.len() - 1][0] == zero && pts[pts.len() - 1][1] == zero);
    let h = decode::hull(front);
    if front.len() == 0 {
        assert(h[0] == single::of(single::MAX) && h[1] == single::of(single::MIN));
        assert(h[2] == single::of(single::MAX) && h[3] == single::of(single::MIN));
        assert(single::of(single::MAX).min(zero) == zero && single::of(single::MIN).max(zero) == zero);
    } else {
        lemma_hull_of_blank(front);
        assert(h[0] == zero && h[1] == zero && h[2] == zero && h[3] == zero);
    }
    let p = pts.last();
    assert(decode::hull(pts) == seq![h[0].min(p[0]), h[1].max(p[0]), h[2].min(p[1]), h[3].max(p[1])]);
}

/// After a fit, a frame of blank landmarks, all at nothing and without confidence, leaves the box as
/// it was last, within the 2^21st part of `2^k`, where box and pose are below `2^k` and the scale below a
/// quarter of it.
pub proof fn lemma_blank_frame_holds(
    first: Seq<[Single; 3]>,
    before: CropSmoothState,
    state: CropSmoothState,
    pts: Seq<[Single; 3]>,
    k: nat,
)
    requires
        used_pose(first, Some(before)) is Some,
        stable_after(first, before, stable_box(first, Some(before)), state),
        150 <= k <= 250,
        pose_below(state, k),
        box_below(stable_box(first, Some(before))->0, k),
        forall|i: int|
            0 <= i < pts.len() ==> (#[trigger] pts[i])@ == seq![
                single::of(0),
                single::of(0),
                single::of(0),
            ],
    ensures
        stable_box(pts, Some(state)) is Some,
        ({
            let (a, b) = (stable_box(first, Some(before))->0, stable_box(pts, Some(state))->0);
            &&& a[2].le(b[2])
            &&& a[3].le(b[3])
            &&& forall|i: int|
                0 <= i < 4 ==> order::distance(order::val(#[trigger] a[i]), order::val(b[i])) <= pow2(
                    (k - 21) as nat,
                )
        }),
{
    let zero = single::of(0);
    let one = single::of(single::ONE);
    assert forall|i: int| 0 <= i < pts.len() implies (#[trigger] pts[i])[2].lt(
        single::of(decimal::N0_35),
    ) by {
        assert(pts[i]@[2] == zero);
    }
    if pts.len() > 0 {
        let d = decode::points(pts);
        assert forall|i: int| 0 <= i < d.len() implies (#[trigger] d[i]).len() == 3 && d[i][0] == zero
            && d[i][1] == zero by {
            assert(d[i] == pts[i]@);
        }
        lemma_hull_of_blank(d);
    }
    order::lemma_less_itself(zero);
    let a = stable_box(first, Some(before))->0;
    let last = state.last->0;
    assert(a == last@);
    let t = posed_box(used_pose(first, Some(before))->0);
    assert(one.le(t[2].max(one)) && one.le(t[3].max(one)));
    assert(a[2] == at_least(at_least(t[2].max(one), seen(before.last), 2), whole_hull(first), 2));
    assert(a[3] == at_least(at_least(t[3].max(one), seen(before.last), 3), whole_hull(first), 3));
    assert(one.le(last[2]) && one.le(last[3]));
    if pts.len() > 0 {
        let h = whole_hull(pts)->0;
        assert(h[2] == (zero - zero).max(one) && h[3] == (zero - zero).max(one));
        assert((zero - zero).max(one) == one);
    }
    lemma_box_held(first, before, state, pts, k);
}

} // verus!
