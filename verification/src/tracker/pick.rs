//! Which parts of a frame are looked at for landmarks, and which of the faces found there are kept.

use crate::decode;
use crate::geom;
use crate::geom::{clamp_to_im, group_rects};
use crate::ieee::decimal;
use crate::ieee::maths;
use crate::ieee::single;
use crate::ieee::single::Single;
use crate::preprocess;
use crate::rank;
use vstd::prelude::*;

verus! {

/// The landmark of the small network that stands for each of the landmarks of the others.
pub const MAP30: [usize; 66] = [
    0, 0, 1, 1, 1, 2, 2, 2, 3, 3, 3, 4, 4, 4, 5, 5, 6, 7, 7, 8, 8, 9, 10, 10, 11, 11, 12, 21, 21, 21,
    22, 23, 23, 23, 23, 23, 13, 14, 14, 15, 16, 16, 17, 18, 18, 19, 20, 20, 24, 25, 25, 25, 26, 26, 27,
    27, 27, 24, 24, 28, 28, 28, 26, 29, 29, 29,
];

/// A part of a frame that is looked at: its corners, and its place and scale for
/// `decode::decode_landmarks`.
#[derive(Clone, Copy)]
pub struct Region {
    pub x1: i32,
    pub y1: i32,
    pub x2: i32,
    pub y2: i32,
    pub crop: [Single; 4],
}

/// The whole part of a number that fits in 32 bits.
pub open spec fn whole(v: Single) -> Single {
    Single::from_int(v.to_int(i32::MIN as int, i32::MAX as int))
}

/// The column of a point in a picture that is `n` wide.
pub open spec fn column(x: Single, n: int) -> int {
    geom::on_image(x, Single::from_int(n)).to_int(i32::MIN as int, i32::MAX as int)
}

/// The corners of a box with a rim of a tenth of its width and an eighth of its height, in a picture
/// of the given size.
pub open spec fn corners(b: Seq<Single>, w: int, h: int) -> (int, int, int, int) {
    let dx = whole(b[2] * single::of(decimal::N0_1));
    let dy = whole(b[3] * single::of(decimal::N0_125));
    (
        column(b[0] - dx, w),
        column(b[1] - dy, h) + 1,
        column(b[0] + b[2] + dx, w),
        column(b[1] + b[3] + dy, h) + 1,
    )
}

/// The part of a frame about a box; none where fewer than four rows or columns are left of it.
/// `size` is how wide and high the network takes its pictures.
pub fn region(b: [Single; 4], width: u32, height: u32, size: u32) -> (r: Option<Region>)
    requires
        width <= geom::SIDE_MAX,
        height <= geom::SIDE_MAX,
    ensures
        ({
            let (x1, y1, x2, y2) = corners(b@, width as int, height as int);
            match r {
                None => x2 - x1 < 4 || y2 - y1 < 4,
                Some(g) => {
                    &&& x2 - x1 >= 4 && y2 - y1 >= 4
                    &&& (g.x1 as int, g.y1 as int, g.x2 as int, g.y2 as int) == (x1, y1, x2, y2)
                    &&& 0 <= x1 < x2
                    &&& 0 < y1 < y2
                    &&& width <= preprocess::AXIS_MAX ==> x2 <= width
                    &&& height <= preprocess::AXIS_MAX ==> y2 <= height + 1
                    &&& g.crop@ == seq![
                        Single::from_int(x1),
                        Single::from_int(y1),
                        Single::from_int(x2 - x1) / Single::from_int(size as int),
                        Single::from_int(y2 - y1) / Single::from_int(size as int),
                    ]
                },
            }
        }),
{
    let w: Single = single::from_u64(width as u64);
    let h: Single = single::from_u64(height as u64);
    let dx: Single = single::from_i64((b[2] * single::of(decimal::N0_1)).to_i32() as i64);
    let dy: Single = single::from_i64((b[3] * single::of(decimal::N0_125)).to_i32() as i64);
    proof {
        geom::lemma_on_image(b[0] - dx, width as int);
        geom::lemma_on_image(b[1] - dy, height as int);
        geom::lemma_on_image(b[0] + b[2] + dx, width as int);
        geom::lemma_on_image(b[1] + b[3] + dy, height as int);
    }
    let (x1, y1): (i32, i32) = clamp_to_im(b[0] - dx, b[1] - dy, w, h);
    let (x2, y2): (i32, i32) = clamp_to_im(b[0] + b[2] + dx, b[1] + b[3] + dy, w, h);
    if x2 - x1 < 4 || y2 - y1 < 4 {
        return None;
    }
    let s: Single = single::from_u64(size as u64);
    let crop: [Single; 4] = [
        single::from_i64(x1 as i64),
        single::from_i64(y1 as i64),
        single::from_i64((x2 - x1) as i64) / s,
        single::from_i64((y2 - y1) as i64) / s,
    ];
    proof {
        assert(crop@ =~= seq![
            Single::from_int(x1 as int),
            Single::from_int(y1 as int),
            Single::from_int(x2 - x1) / Single::from_int(size as int),
            Single::from_int(y2 - y1) / Single::from_int(size as int),
        ]);
    }
    Some(Region { x1, y1, x2, y2, crop })
}

/// The landmark of the small network at a place; zero where there is none.
pub open spec fn stand_in(lms: Seq<[Single; 3]>, k: int, c: int) -> Single {
    if MAP30[k] < lms.len() {
        lms[MAP30[k] as int][c]
    } else {
        single::of(0)
    }
}

/// The confidences of landmarks.
pub open spec fn third(lms: Seq<[Single; 3]>) -> Seq<Single> {
    Seq::new(lms.len(), |i: int| lms[i][2])
}

/// The mean of the three smallest confidences of landmarks.
pub open spec fn weakest(lms: Seq<[Single; 3]>) -> Single {
    let keys = third(lms);
    let order = rank::ranked(keys, keys.len() as int);
    let n = keys.len();
    (keys[order[n - 1]] + keys[order[n - 2]] + keys[order[n - 3]]) / single::of(decimal::N3)
}

/// Puts the landmarks of the small network in the places of those of the others, and lowers the
/// confidence of the face to the mean of its three least sure landmarks where that is low. What the
/// other networks found stays as it is.
pub fn remap_lms(model_type: i32, conf: Single, lms: Vec<[Single; 3]>) -> (r: (
    Single,
    Vec<[Single; 3]>,
))
    ensures
        model_type != -1 ==> r == (conf, lms),
        model_type == -1 ==> {
            &&& r.1@.len() == 66
            &&& forall|k: int, c: int|
                0 <= k < 66 && 0 <= c < 3 ==> #[trigger] r.1@[k][c] == stand_in(lms@, k, c)
            &&& r.0 == (if weakest(r.1@).lt(single::of(decimal::N0_65)) {
                weakest(r.1@)
            } else {
                conf
            })
        },
{
    if model_type != -1 {
        return (conf, lms);
    }
    let z: Single = single::of(0);
    let mut mapped: Vec<[Single; 3]> = Vec::new();
    let mut keys: Vec<Single> = Vec::new();
    let mut k: usize = 0;
    while k < 66
        invariant
            k <= 66,
            z == single::of(0),
            mapped@.len() == k,
            keys@.len() == k,
            forall|i: int, c: int|
                0 <= i < k && 0 <= c < 3 ==> #[trigger] mapped@[i][c] == stand_in(lms@, i, c),
            forall|i: int| 0 <= i < k ==> #[trigger] keys@[i] == mapped@[i][2],
        decreases 66 - k,
    {
        let i: usize = MAP30[k];
        let p: [Single; 3] = if i < lms.len() {
            lms[i]
        } else {
            [z, z, z]
        };
        mapped.push(p);
        keys.push(p[2]);
        k = k + 1;
    }
    let order: Vec<usize> = rank::rank(keys.as_slice());
    proof {
        assert(keys@ =~= third(mapped@));
        assert(rank::places(order@)[65] == order@[65]);
        assert(rank::places(order@)[64] == order@[64]);
        assert(rank::places(order@)[63] == order@[63]);
    }
    let mean: Single = (keys[order[65]] + keys[order[64]] + keys[order[63]]) / single::of(decimal::N3);
    if mean.lt(single::of(decimal::N0_65)) {
        (mean, mapped)
    } else {
        (conf, mapped)
    }
}

/// Whether a face is sure enough to be kept.
pub open spec fn sure_spec(conf: Single, threshold: Single) -> bool {
    !conf.le(threshold)
}

/// Whether a face is sure enough to be kept.
#[verifier::when_used_as_spec(sure_spec)]
pub fn sure(conf: Single, threshold: Single) -> (r: bool)
    ensures
        r == sure_spec(conf, threshold),
{
    !conf.le(threshold)
}

/// What is added to the confidence of a face that was followed into the frame.
pub open spec fn bonus_spec(j: usize, followed: usize) -> Single {
    if j >= followed {
        single::of(0)
    } else {
        single::of(decimal::N0_1)
    }
}

/// What is added to the confidence of a face that was followed into the frame: the first boxes of
/// those looked at are those of such faces.
#[verifier::when_used_as_spec(bonus_spec)]
pub fn bonus(j: usize, followed: usize) -> (r: Single)
    ensures
        r == bonus_spec(j, followed),
{
    if j >= followed {
        single::of(0)
    } else {
        single::of(decimal::N0_1)
    }
}

/// A face that was found in a part of a frame.
pub struct Candidate {
    pub conf: Single,
    pub lms: Vec<[Single; 3]>,
    pub eyes: [[Single; 4]; 2],
    pub bonus: Single,
}

/// The box about landmarks.
pub open spec fn box_of(lms: Seq<[Single; 3]>) -> Seq<Single> {
    let h = decode::hull(decode::points(lms));
    seq![h[0], h[2], h[1] - h[0], h[3] - h[2]]
}

/// Whether `rects` are the boxes about candidates.
pub open spec fn are_boxes(cands: Seq<Candidate>, rects: Seq<[Single; 4]>) -> bool {
    &&& rects.len() == cands.len()
    &&& forall|i: int| 0 <= i < cands.len() ==> (#[trigger] rects[i])@ == box_of(cands[i].lms@)
}

/// What candidates of one face are compared by.
pub open spec fn score(c: Candidate) -> Single {
    c.conf + c.bonus
}

/// The best of the first `k` candidates of a group: of equal ones the first.
pub open spec fn best(
    cands: Seq<Candidate>,
    group: Seq<usize>,
    g: int,
    threshold: Single,
    k: int,
) -> Option<int>
    decreases k,
{
    if k <= 0 {
        None
    } else {
        let b = best(cands, group, g, threshold, k - 1);
        let c = cands[k - 1];
        if group[k - 1] == g && c.conf.gt(threshold) && (b is None || score(c).gt(score(cands[b->0]))) {
            Some(k - 1)
        } else {
            b
        }
    }
}

/// The best candidates of the groups before `g`, in the order of the groups.
pub open spec fn winners(cands: Seq<Candidate>, group: Seq<usize>, threshold: Single, g: int) -> Seq<int>
    decreases g,
{
    if g <= 0 {
        Seq::empty()
    } else {
        let w = winners(cands, group, threshold, g - 1);
        match best(cands, group, g - 1, threshold, cands.len() as int) {
            Some(i) => w.push(i),
            None => w,
        }
    }
}

/// The confidences of the candidates at given places.
pub open spec fn confs_at(cands: Seq<Candidate>, w: Seq<int>) -> Seq<Single> {
    Seq::new(w.len(), |i: int| cands[w[i]].conf)
}

/// The places of the winners, surest first, and no more than `most`.
pub open spec fn chosen(cands: Seq<Candidate>, group: Seq<usize>, threshold: Single, most: int) -> Seq<int> {
    let w = winners(cands, group, threshold, cands.len() as int);
    let order = rank::ranked(confs_at(cands, w), w.len() as int);
    let n = if w.len() <= most {
        w.len() as int
    } else {
        most
    };
    Seq::new(n as nat, |i: int| w[order[i]])
}

proof fn lemma_best(cands: Seq<Candidate>, group: Seq<usize>, g: int, threshold: Single, k: int)
    requires
        0 <= k <= cands.len(),
    ensures
        match best(cands, group, g, threshold, k) {
            Some(i) => 0 <= i < k && group[i] == g && cands[i].conf.gt(threshold),
            None => forall|i: int|
                0 <= i < k && #[trigger] group[i] == g ==> !cands[i].conf.gt(threshold),
        },
    decreases k,
{
    if k > 0 {
        lemma_best(cands, group, g, threshold, k - 1);
    }
}

proof fn lemma_winners(cands: Seq<Candidate>, group: Seq<usize>, threshold: Single, g: int)
    requires
        0 <= g,
    ensures
        ({
            let w = winners(cands, group, threshold, g);
            &&& w.len() <= g
            &&& forall|i: int|
                0 <= i < w.len() ==> 0 <= #[trigger] w[i] < cands.len() && 0 <= group[w[i]] < g
                    && cands[w[i]].conf.gt(threshold)
            &&& forall|i: int, j: int|
                0 <= i < j < w.len() ==> group[#[trigger] w[i]] != group[#[trigger] w[j]]
            &&& forall|i: int|
                0 <= i < cands.len() && 0 <= (#[trigger] group[i]) < g && cands[i].conf.gt(threshold)
                    ==> exists|m: int| 0 <= m < w.len() && group[#[trigger] w[m]] == group[i]
        }),
    decreases g,
{
    if g > 0 {
        lemma_winners(cands, group, threshold, g - 1);
        lemma_best(cands, group, g - 1, threshold, cands.len() as int);
        let w0 = winners(cands, group, threshold, g - 1);
        let w = winners(cands, group, threshold, g);
        assert forall|i: int|
            0 <= i < cands.len() && 0 <= (#[trigger] group[i]) < g && cands[i].conf.gt(threshold) implies exists|
            m: int,
        | 0 <= m < w.len() && group[#[trigger] w[m]] == group[i] by {
            if group[i] < g - 1 {
                let m = choose|m: int| 0 <= m < w0.len() && group[#[trigger] w0[m]] == group[i];
                assert(w[m] == w0[m]);
            } else {
                assert(group[w[w.len() - 1]] == group[i]);
            }
        }
    }
}

/// Those chosen are sure, the surest stand first, no two belong to the same face, and where there is
/// room for all, every face with a candidate that is sure has one.
pub proof fn lemma_chosen(
    cands: Seq<Candidate>,
    rects: Seq<[Single; 4]>,
    group: Seq<usize>,
    threshold: Single,
    most: int,
)
    requires
        are_boxes(cands, rects),
        geom::is_grouping(rects, group),
        0 <= most,
    ensures
        ({
            let r = chosen(cands, group, threshold, most);
            &&& r.len() <= most
            &&& forall|i: int|
                0 <= i < r.len() ==> 0 <= #[trigger] r[i] < cands.len() && cands[r[i]].conf.gt(threshold)
            &&& forall|i: int, j: int|
                0 <= i < j < r.len() ==> !geom::linked(rects, #[trigger] r[i], #[trigger] r[j])
                    && !cands[r[i]].conf.lt(cands[r[j]].conf)
            &&& cands.len() <= most ==> forall|i: int|
                0 <= i < cands.len() && #[trigger] cands[i].conf.gt(threshold) ==> exists|m: int|
                    0 <= m < r.len() && geom::linked(rects, i, #[trigger] r[m])
        }),
{
    let n = cands.len() as int;
    lemma_winners(cands, group, threshold, n);
    let w = winners(cands, group, threshold, n);
    let keys = confs_at(cands, w);
    rank::lemma_ranked_permutation(keys, w.len() as int);
    rank::lemma_ranked_falls(keys, w.len() as int);
    let order = rank::ranked(keys, w.len() as int);
    let r = chosen(cands, group, threshold, most);
    assert forall|i: int, j: int| 0 <= i < j < r.len() implies !geom::linked(
        rects,
        #[trigger] r[i],
        #[trigger] r[j],
    ) && !cands[r[i]].conf.lt(cands[r[j]].conf) by {
        let (a, b) = (order[i], order[j]);
        assert(a != b);
        assert(group[w[a]] != group[w[b]]);
        geom::lemma_groups_are_components(rects, group, w[a], w[b]);
        assert(!keys[a].lt(keys[b]));
    }
    if n <= most {
        assert forall|i: int| 0 <= i < n && #[trigger] cands[i].conf.gt(threshold) implies exists|m: int|
            0 <= m < r.len() && geom::linked(rects, i, #[trigger] r[m]) by {
            assert(group[i] <= i);
            let m = choose|m: int| 0 <= m < w.len() && group[#[trigger] w[m]] == group[i];
            lemma_onto(order, w.len() as int, m);
            let p = choose|p: int| 0 <= p < order.len() && order[p] == m;
            geom::lemma_groups_are_components(rects, group, i, w[m]);
            assert(r[p] == w[m]);
        }
    }
}

/// A permutation leaves no place out.
proof fn lemma_onto(order: Seq<int>, n: int, m: int)
    requires
        rank::is_permutation(order, n),
        0 <= m < n,
    ensures
        exists|p: int| 0 <= p < order.len() && order[p] == m,
{
    if !order.contains(m) {
        let s = order.to_set();
        let all = vstd::set_lib::set_int_range(0, n);
        vstd::set_lib::lemma_int_range(0, n);
        order.unique_seq_to_set();
        assert(s.subset_of(all.remove(m)));
        vstd::set_lib::lemma_len_subset(s, all.remove(m));
    }
}

/// The places of the candidates that are kept: of those of one face the best, surest first, and no
/// more than `most`. Candidates belong to one face where a chain of overlapping boxes joins them.
pub fn pick(cands: &[Candidate], threshold: Single, most: usize) -> (r: Vec<usize>)
    ensures
        exists|rects: Seq<[Single; 4]>, group: Seq<usize>|
            #![trigger geom::is_grouping(rects, group)]
            are_boxes(cands@, rects) && geom::is_grouping(rects, group) && rank::places(r@) == chosen(
                cands@,
                group,
                threshold,
                most as int,
            ),
        r@.len() <= most,
        forall|i: int| 0 <= i < r@.len() ==> (#[trigger] r@[i]) < cands@.len(),
{
    let n: usize = cands.len();
    let mut rects: Vec<[Single; 4]> = Vec::new();
    let mut i: usize = 0;
    while i < n
        invariant
            n == cands@.len(),
            i <= n,
            rects@.len() == i,
            forall|k: int| 0 <= k < i ==> (#[trigger] rects@[k])@ == box_of(cands@[k].lms@),
        decreases n - i,
    {
        let h: [Single; 4] = decode::hull_of(cands[i].lms.as_slice());
        let b: [Single; 4] = [h[0], h[2], h[1] - h[0], h[3] - h[2]];
        proof {
            assert(b@ =~= box_of(cands@[i as int].lms@));
        }
        rects.push(b);
        i = i + 1;
    }
    let group: Vec<usize> = group_rects(rects.as_slice());
    let mut w: Vec<usize> = Vec::new();
    let mut keys: Vec<Single> = Vec::new();
    let mut g: usize = 0;
    while g < n
        invariant
            n == cands@.len(),
            g <= n,
            group@.len() == n,
            rank::places(w@) == winners(cands@, group@, threshold, g as int),
            forall|k: int| 0 <= k < w@.len() ==> (#[trigger] w@[k]) < n,
            keys@ == confs_at(cands@, rank::places(w@)),
        decreases n - g,
    {
        let mut b: Option<usize> = None;
        let mut k: usize = 0;
        while k < n
            invariant
                n == cands@.len(),
                k <= n,
                group@.len() == n,
                b is Some ==> b->0 < k,
                best(cands@, group@, g as int, threshold, k as int) == (match b {
                    Some(i) => Some(i as int),
                    None => None,
                }),
            decreases n - k,
        {
            if group[k] == g && cands[k].conf.gt(threshold) {
                let better: bool = match b {
                    None => true,
                    Some(i) => (cands[k].conf + cands[k].bonus).gt(cands[i].conf + cands[i].bonus),
                };
                if better {
                    b = Some(k);
                }
            }
            k = k + 1;
        }
        let ghost w0 = w@;
        if let Some(i) = b {
            w.push(i);
            keys.push(cands[i].conf);
            proof {
                assert(rank::places(w@) =~= rank::places(w0).push(i as int));
                assert(keys@ =~= confs_at(cands@, rank::places(w@)));
            }
        }
        g = g + 1;
    }
    let order: Vec<usize> = rank::rank(keys.as_slice());
    let mut r: Vec<usize> = Vec::new();
    while r.len() < w.len() && r.len() < most
        invariant
            n == cands@.len(),
            keys@.len() == w@.len(),
            order@.len() == w@.len(),
            forall|i: int| 0 <= i < order@.len() ==> (#[trigger] order@[i]) < w@.len(),
            forall|k: int| 0 <= k < w@.len() ==> (#[trigger] w@[k]) < n,
            r@.len() <= w@.len(),
            r@.len() <= most,
            forall|i: int| 0 <= i < r@.len() ==> #[trigger] r@[i] == w@[order@[i] as int],
            forall|i: int| 0 <= i < r@.len() ==> (#[trigger] r@[i]) < n,
        decreases w@.len() - r@.len(),
    {
        let i: usize = w[order[r.len()]];
        r.push(i);
    }
    proof {
        assert forall|i: int| 0 <= i < r@.len() implies rank::places(r@)[i] == chosen(
            cands@,
            group@,
            threshold,
            most as int,
        )[i] by {
            assert(rank::places(order@)[i] == order@[i]);
            assert(rank::places(w@)[order@[i] as int] == w@[order@[i] as int]);
        }
        assert(rank::places(r@) =~= chosen(cands@, group@, threshold, most as int));
        assert(are_boxes(cands@, rects@));
        assert(geom::is_grouping(rects@, group@));
    }
    r
}

/// The mean place of landmarks.
pub open spec fn mean_place(lms: Seq<[Single; 3]>) -> Seq<Single> {
    if lms.len() == 0 {
        seq![single::of(0), single::of(0)]
    } else {
        let n = Single::from_int(lms.len() as int);
        seq![
            maths::sum_of(Seq::new(lms.len(), |i: int| lms[i][0])) / n,
            maths::sum_of(Seq::new(lms.len(), |i: int| lms[i][1])) / n,
        ]
    }
}

/// The mean place of landmarks.
pub fn mean_xy(lms: &[[Single; 3]]) -> (r: [Single; 2])
    ensures
        r@ == mean_place(lms@),
{
    if lms.len() == 0 {
        let r: [Single; 2] = [single::of(0), single::of(0)];
        assert(r@ =~= mean_place(lms@));
        return r;
    }
    let mut xs: Vec<Single> = Vec::new();
    let mut ys: Vec<Single> = Vec::new();
    let mut i: usize = 0;
    while i < lms.len()
        invariant
            i <= lms@.len(),
            xs@.len() == i,
            ys@.len() == i,
            forall|k: int| 0 <= k < i ==> #[trigger] xs@[k] == lms@[k][0],
            forall|k: int| 0 <= k < i ==> #[trigger] ys@[k] == lms@[k][1],
        decreases lms@.len() - i,
    {
        xs.push(lms[i][0]);
        ys.push(lms[i][1]);
        i = i + 1;
    }
    let n: Single = single::from_u64(lms.len() as u64);
    let r: [Single; 2] = [maths::sum(xs.as_slice()) / n, maths::sum(ys.as_slice()) / n];
    proof {
        assert(xs@ =~= Seq::new(lms@.len(), |i: int| lms@[i][0]));
        assert(ys@ =~= Seq::new(lms@.len(), |i: int| lms@[i][1]));
        assert(r@ =~= mean_place(lms@));
    }
    r
}

} // verus!
