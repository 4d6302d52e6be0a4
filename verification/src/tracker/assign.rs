//! Which of the faces that are followed each face that was found belongs to.

use crate::ieee::maths::hypot;
use crate::ieee::single;
use crate::ieee::single::Single;
use vstd::arithmetic::div_mod::*;
use vstd::prelude::*;

verus! {

/// How far a found face is from a followed one; one that is not seen yet is `far` from all.
pub open spec fn distance(f: Option<[Single; 2]>, r: [Single; 2], far: Single) -> Single {
    match f {
        None => far,
        Some(c) => hypot(c[0] - r[0], c[1] - r[1]),
    }
}

fn distance_of(f: &Option<[Single; 2]>, r: [Single; 2], far: Single) -> (d: Single)
    ensures
        d == distance(*f, r, far),
{
    match f {
        None => far,
        Some(c) => hypot(c[0] - r[0], c[1] - r[1]),
    }
}

/// The places of followed and found faces, and how far one is that is not seen yet.
pub ghost struct Scene {
    pub faces: Seq<Option<[Single; 2]>>,
    pub found: Seq<[Single; 2]>,
    pub far: Single,
}

impl Scene {
    /// The distance of followed face `i` and found face `j`.
    pub open spec fn gap(self, i: int, j: int) -> Single {
        distance(self.faces[i], self.found[j], self.far)
    }
}

/// The closest of the first `k` pairs of a followed face without a match and a found face that is
/// not taken: their distance and their places. Pairs are gone through by followed faces; of equal
/// distances the first counts.
pub open spec fn closest(
    s: Scene,
    m: Seq<Option<int>>,
    taken: Seq<bool>,
    k: int,
) -> (Single, int, int)
    decreases k,
{
    if k <= 0 {
        (single::of(single::MAX), 0, 0)
    } else {
        let b = closest(s, m, taken, k - 1);
        let i = (k - 1) / s.found.len() as int;
        let j = (k - 1) % s.found.len() as int;
        if m[i] is None && !taken[j] && s.gap(i, j).lt(b.0) {
            (s.gap(i, j), i, j)
        } else {
            b
        }
    }
}

/// The closest pair of all.
pub open spec fn closest_pair(s: Scene, m: Seq<Option<int>>, taken: Seq<bool>) -> (Single, int, int) {
    closest(s, m, taken, s.faces.len() as int * s.found.len() as int)
}

/// The matches once the closest pair has been matched up to `left` times.
pub open spec fn greedy(s: Scene, m: Seq<Option<int>>, taken: Seq<bool>, left: int) -> Seq<Option<int>>
    decreases left,
{
    if left <= 0 {
        m
    } else {
        let b = closest_pair(s, m, taken);
        if b.0.same(single::of(single::MAX)) {
            m
        } else {
            greedy(s, m.update(b.1, Some(b.2)), taken.update(b.2, true), left - 1)
        }
    }
}

/// The found face of each followed one.
pub open spec fn matches_of(s: Scene) -> Seq<Option<int>> {
    greedy(
        s,
        Seq::new(s.faces.len(), |i: int| None::<int>),
        Seq::new(s.found.len(), |j: int| false),
        s.found.len() as int,
    )
}

proof fn lemma_closest(s: Scene, m: Seq<Option<int>>, taken: Seq<bool>, k: int)
    requires
        0 <= k <= s.faces.len() * s.found.len(),
    ensures
        ({
            let b = closest(s, m, taken, k);
            &&& b.0 == single::of(single::MAX) || (b.0.lt(single::of(single::MAX)) && 0 <= b.1
                < s.faces.len() && 0 <= b.2 < s.found.len() && m[b.1] is None && !taken[b.2] && b.0
                == s.gap(b.1, b.2))
            &&& forall|i: int, j: int|
                0 <= i < s.faces.len() && 0 <= j < s.found.len() && i * s.found.len() + j < k
                    && m[i] is None && !taken[j] ==> !(#[trigger] s.gap(i, j)).lt(b.0)
        }),
    decreases k,
{
    if k > 0 {
        lemma_closest(s, m, taken, k - 1);
        let n = s.found.len() as int;
        let f = s.faces.len() as int;
        assert(n > 0) by (nonlinear_arith)
            requires
                0 < k <= f * n,
                f >= 0,
                n >= 0,
        ;
        let a = closest(s, m, taken, k - 1);
        let b = closest(s, m, taken, k);
        let i0 = (k - 1) / n;
        let j0 = (k - 1) % n;
        lemma_fundamental_div_mod(k - 1, n);
        lemma_mod_bound(k - 1, n);
        assert(0 <= i0 < f) by (nonlinear_arith)
            requires
                k - 1 == n * i0 + j0,
                0 <= j0 < n,
                0 < k <= f * n,
                n > 0,
        ;
        assert forall|i: int, j: int|
            0 <= i < s.faces.len() && 0 <= j < s.found.len() && i * s.found.len() + j < k && m[i] is None
                && !taken[j] implies !(#[trigger] s.gap(i, j)).lt(b.0) by {
            if i * n + j == k - 1 {
                assert(n * i == i * n) by (nonlinear_arith);
                lemma_fundamental_div_mod_converse(k - 1, n, i, j);
            } else {
                assert(!s.gap(i, j).lt(a.0));
            }
        }
    }
}

/// How many found faces are not taken.
pub open spec fn free(taken: Seq<bool>) -> int
    decreases taken.len(),
{
    if taken.len() == 0 {
        0
    } else {
        free(taken.drop_last()) + if taken.last() {
            0int
        } else {
            1
        }
    }
}

proof fn lemma_free_update(taken: Seq<bool>, j: int)
    requires
        0 <= j < taken.len(),
        !taken[j],
    ensures
        free(taken.update(j, true)) == free(taken) - 1,
    decreases taken.len(),
{
    let t = taken.update(j, true);
    if j == taken.len() - 1 {
        assert(t.drop_last() =~= taken.drop_last());
    } else {
        lemma_free_update(taken.drop_last(), j);
        assert(t.drop_last() =~= taken.drop_last().update(j, true));
        assert(t.last() == taken.last());
    }
}

proof fn lemma_free_none(taken: Seq<bool>, j: int)
    requires
        0 <= j < taken.len(),
        free(taken) <= 0,
    ensures
        taken[j],
    decreases taken.len(),
{
    lemma_free_bound(taken.drop_last());
    if j < taken.len() - 1 {
        lemma_free_none(taken.drop_last(), j);
    }
}

proof fn lemma_free_bound(taken: Seq<bool>)
    ensures
        0 <= free(taken) <= taken.len(),
    decreases taken.len(),
{
    if taken.len() > 0 {
        lemma_free_bound(taken.drop_last());
    }
}

/// Whether matches are in range, no found face is matched twice, and exactly the matched ones are
/// taken.
pub open spec fn is_matching(s: Scene, m: Seq<Option<int>>, taken: Seq<bool>) -> bool {
    &&& m.len() == s.faces.len()
    &&& taken.len() == s.found.len()
    &&& forall|i: int|
        0 <= i < m.len() && (#[trigger] m[i]) is Some ==> 0 <= m[i]->0 < s.found.len() && taken[m[i]->0]
    &&& forall|i: int, k: int|
        0 <= i < m.len() && 0 <= k < m.len() && (#[trigger] m[i]) is Some && m[i] == #[trigger] m[k] ==> i
            == k
    &&& forall|j: int|
        0 <= j < taken.len() && #[trigger] taken[j] ==> exists|i: int|
            0 <= i < m.len() && #[trigger] m[i] == Some(j)
}

proof fn lemma_greedy(s: Scene, m: Seq<Option<int>>, taken: Seq<bool>, left: int)
    requires
        is_matching(s, m, taken),
        left == free(taken),
    ensures
        ({
            let r = greedy(s, m, taken, left);
            &&& r.len() == s.faces.len()
            &&& forall|i: int| 0 <= i < r.len() && (#[trigger] r[i]) is Some ==> 0 <= r[i]->0 < s.found.len()
            &&& forall|i: int, k: int|
                0 <= i < r.len() && 0 <= k < r.len() && (#[trigger] r[i]) is Some && r[i]
                    == #[trigger] r[k] ==> i == k
            &&& forall|i: int, j: int|
                0 <= i < r.len() && 0 <= j < s.found.len() && r[i] is None && (forall|k: int|
                    0 <= k < r.len() ==> #[trigger] r[k] != Some(j)) ==> !(#[trigger] s.gap(i, j)).lt(
                    single::of(single::MAX),
                )
        }),
    decreases left,
{
    lemma_free_bound(taken);
    let r = greedy(s, m, taken, left);
    if left <= 0 {
        assert forall|i: int, j: int|
            0 <= i < r.len() && 0 <= j < s.found.len() && r[i] is None && (forall|k: int|
                0 <= k < r.len() ==> #[trigger] r[k] != Some(j)) implies !(#[trigger] s.gap(i, j)).lt(
            single::of(single::MAX),
        ) by {
            lemma_free_none(taken, j);
            assert(taken[j]);
        }
    } else {
        let b = closest_pair(s, m, taken);
        let (f, n) = (s.faces.len() as int, s.found.len() as int);
        assert(f * n >= 0) by (nonlinear_arith)
            requires
                f >= 0,
                n >= 0,
        ;
        lemma_closest(s, m, taken, f * n);
        if b.0.same(single::of(single::MAX)) {
            assert(b.0 == single::of(single::MAX));
            assert forall|i: int, j: int|
                0 <= i < r.len() && 0 <= j < s.found.len() && r[i] is None && (forall|k: int|
                    0 <= k < r.len() ==> #[trigger] r[k] != Some(j)) implies !(#[trigger] s.gap(i, j)).lt(
                single::of(single::MAX),
            ) by {
                assert(!taken[j]);
                assert(i * n + j < f * n) by (nonlinear_arith)
                    requires
                        0 <= i < f,
                        0 <= j < n,
                ;
            }
        } else {
            assert(b.0.lt(single::of(single::MAX)));
            let m2 = m.update(b.1, Some(b.2));
            let t2 = taken.update(b.2, true);
            assert(is_matching(s, m2, t2)) by {
                assert forall|j: int| 0 <= j < t2.len() && #[trigger] t2[j] implies exists|i: int|
                    0 <= i < m2.len() && #[trigger] m2[i] == Some(j) by {
                    if j == b.2 {
                        assert(m2[b.1] == Some(j));
                    } else {
                        assert(taken[j]);
                        let i = choose|i: int| 0 <= i < m.len() && #[trigger] m[i] == Some(j);
                        assert(m2[i] == Some(j));
                    }
                }
                assert forall|i: int, k: int|
                    0 <= i < m2.len() && 0 <= k < m2.len() && (#[trigger] m2[i]) is Some && m2[i]
                        == #[trigger] m2[k] implies i == k by {
                    if i == b.1 && k != b.1 {
                        assert(m[k] == Some(b.2));
                        assert(taken[b.2]);
                    } else if k == b.1 && i != b.1 {
                        assert(m[i] == Some(b.2));
                        assert(taken[b.2]);
                    } else if i != b.1 {
                        assert(m[i] == m[k]);
                    }
                }
            }
            lemma_free_update(taken, b.2);
            lemma_greedy(s, m2, t2, left - 1);
        }
    }
}

/// No found face is matched twice, and none is left over beside a followed face that is left over,
/// unless the two cannot be compared.
pub proof fn lemma_matches(s: Scene)
    ensures
        ({
            let r = matches_of(s);
            &&& r.len() == s.faces.len()
            &&& forall|i: int| 0 <= i < r.len() && (#[trigger] r[i]) is Some ==> 0 <= r[i]->0 < s.found.len()
            &&& forall|i: int, k: int|
                0 <= i < r.len() && 0 <= k < r.len() && (#[trigger] r[i]) is Some && r[i]
                    == #[trigger] r[k] ==> i == k
            &&& forall|i: int, j: int|
                0 <= i < r.len() && 0 <= j < s.found.len() && r[i] is None && (forall|k: int|
                    0 <= k < r.len() ==> #[trigger] r[k] != Some(j)) ==> !(#[trigger] s.gap(i, j)).lt(
                    single::of(single::MAX),
                )
        }),
{
    let m = Seq::new(s.faces.len(), |i: int| None::<int>);
    let t = Seq::new(s.found.len(), |j: int| false);
    lemma_all_free(t);
    lemma_greedy(s, m, t, s.found.len() as int);
}

proof fn lemma_all_free(taken: Seq<bool>)
    requires
        forall|j: int| 0 <= j < taken.len() ==> !taken[j],
    ensures
        free(taken) == taken.len(),
    decreases taken.len(),
{
    if taken.len() > 0 {
        lemma_all_free(taken.drop_last());
    }
}

/// Matches as integers.
pub open spec fn as_ints(v: Seq<Option<usize>>) -> Seq<Option<int>> {
    v.map_values(
        |x: Option<usize>|
            match x {
                Some(k) => Some(k as int),
                None => None,
            },
    )
}

/// The scene of followed faces and found ones.
pub open spec fn scene_of(faces: Seq<Option<[Single; 2]>>, found: Seq<[Single; 2]>, far: Single) -> Scene {
    Scene { faces, found, far }
}

/// Matches found faces to followed ones: again and again the closest two of those that are left.
pub fn match_faces(faces: &[Option<[Single; 2]>], found: &[[Single; 2]], far: Single) -> (r: Vec<
    Option<usize>,
>)
    ensures
        as_ints(r@) == matches_of(scene_of(faces@, found@, far)),
        r@.len() == faces@.len(),
        forall|i: int| 0 <= i < r@.len() && (#[trigger] r@[i]) is Some ==> r@[i]->0 < found@.len(),
{
    let ghost s = scene_of(faces@, found@, far);
    let f: usize = faces.len();
    let n: usize = found.len();
    let mut m: Vec<Option<usize>> = Vec::new();
    while m.len() < f
        invariant
            m@.len() <= f,
            forall|i: int| 0 <= i < m@.len() ==> m@[i] is None,
        decreases f - m@.len(),
    {
        m.push(None);
    }
    let mut taken: Vec<bool> = Vec::new();
    while taken.len() < n
        invariant
            taken@.len() <= n,
            forall|i: int| 0 <= i < taken@.len() ==> !taken@[i],
        decreases n - taken@.len(),
    {
        taken.push(false);
    }
    proof {
        assert(as_ints(m@) =~= Seq::new(s.faces.len(), |i: int| None::<int>));
        assert(taken@ =~= Seq::new(s.found.len(), |j: int| false));
    }
    let mut left: usize = n;
    let mut going: bool = true;
    while going && left > 0
        invariant
            s == scene_of(faces@, found@, far),
            f == faces@.len(),
            n == found@.len(),
            m@.len() == f,
            taken@.len() == n,
            left <= n,
            going ==> matches_of(s) == greedy(s, as_ints(m@), taken@, left as int),
            !going ==> matches_of(s) == as_ints(m@),
            forall|i: int| 0 <= i < f && (#[trigger] m@[i]) is Some ==> m@[i]->0 < n,
        decreases (if going {
            left + 1
        } else {
            0
        }),
    {
        let mut d: Single = single::of(single::MAX);
        let mut bi: usize = 0;
        let mut bj: usize = 0;
        let mut i: usize = 0;
        assert(0 * n == 0);
        while i < f
            invariant
                s == scene_of(faces@, found@, far),
                f == faces@.len(),
                n == found@.len(),
                n > 0,
                i <= f,
                m@.len() == f,
                taken@.len() == n,
                bi < f || (bi == 0 && d == single::of(single::MAX)),
                bj < n,
                (d, bi as int, bj as int) == closest(s, as_ints(m@), taken@, i * n),
            decreases f - i,
        {
            let mut j: usize = 0;
            assert(i * n + 0 == i * n);
            while j < n
                invariant
                    s == scene_of(faces@, found@, far),
                    f == faces@.len(),
                    n == found@.len(),
                    i < f,
                    j <= n,
                    m@.len() == f,
                    taken@.len() == n,
                    bi < f || (bi == 0 && d == single::of(single::MAX)),
                    bj < n,
                    (d, bi as int, bj as int) == closest(s, as_ints(m@), taken@, i * n + j),
                decreases n - j,
            {
                proof {
                    let k = i * n + j;
                    assert(k + 1 > 0 && n * i == i * n) by (nonlinear_arith)
                        requires
                            k == i * n + j,
                            i >= 0,
                            n >= 0,
                            j >= 0,
                    ;
                    lemma_fundamental_div_mod_converse(k, n as int, i as int, j as int);
                    assert(as_ints(m@)[i as int] is None == m@[i as int] is None);
                }
                if m[i].is_none() && !taken[j] {
                    let g: Single = distance_of(&faces[i], found[j], far);
                    if g.lt(d) {
                        d = g;
                        bi = i;
                        bj = j;
                    }
                }
                j = j + 1;
            }
            proof {
                assert(i * n + n == (i + 1) * n) by (nonlinear_arith);
            }
            i = i + 1;
        }
        proof {
            assert(0 <= f * n) by (nonlinear_arith)
                requires
                    f >= 0,
                    n >= 0,
            ;
            lemma_closest(s, as_ints(m@), taken@, f * n);
        }
        if d.same(single::of(single::MAX)) {
            going = false;
        } else {
            let ghost before = m@;
            m.set(bi, Some(bj));
            taken.set(bj, true);
            left = left - 1;
            proof {
                assert(as_ints(m@) =~= as_ints(before).update(bi as int, Some(bj as int)));
            }
        }
    }
    proof {
        lemma_matches(s);
        assert(as_ints(m@) == matches_of(s));
    }
    m
}

} // verus!
