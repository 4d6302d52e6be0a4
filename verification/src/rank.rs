//! Places in the order of falling keys.

use crate::ieee::single::Single;
use vstd::prelude::*;

verus! {

/// An order with place `k` put before the last run of places with smaller keys.
pub open spec fn placed(order: Seq<int>, keys: Seq<Single>, k: int) -> Seq<int>
    decreases order.len(),
{
    if order.len() == 0 {
        seq![k]
    } else if keys[order.last()].lt(keys[k]) {
        placed(order.drop_last(), keys, k).push(order.last())
    } else {
        order.push(k)
    }
}

/// The first `n` places in the order of falling keys; places with equal keys keep theirs.
pub open spec fn ranked(keys: Seq<Single>, n: int) -> Seq<int>
    decreases n,
{
    if n <= 0 {
        Seq::empty()
    } else {
        placed(ranked(keys, n - 1), keys, n - 1)
    }
}

/// Whether every place below `n` occurs once and nothing else does.
pub open spec fn is_permutation(order: Seq<int>, n: int) -> bool {
    &&& order.len() == n
    &&& order.no_duplicates()
    &&& forall|i: int| 0 <= i < order.len() ==> 0 <= #[trigger] order[i] < n
}

/// Whether keys fall, and places with equal keys rise.
pub open spec fn falling(order: Seq<int>, keys: Seq<Single>) -> bool {
    forall|i: int, j: int|
        0 <= i < j < order.len() ==> {
            let (a, b) = (#[trigger] order[i], #[trigger] order[j]);
            !keys[a].lt(keys[b]) && (!keys[b].lt(keys[a]) ==> a < b)
        }
}

proof fn lemma_placed(order: Seq<int>, keys: Seq<Single>, n: int)
    requires
        0 <= n < keys.len(),
        order.no_duplicates(),
        forall|i: int| 0 <= i < order.len() ==> 0 <= #[trigger] order[i] < n,
    ensures
        ({
            let r = placed(order, keys, n);
            &&& r.len() == order.len() + 1
            &&& r.no_duplicates()
            &&& forall|i: int| 0 <= i < r.len() ==> 0 <= #[trigger] r[i] <= n
            &&& forall|i: int|
                0 <= i < r.len() ==> #[trigger] r[i] == n || order.contains(r[i])
        }),
    decreases order.len(),
{
    if order.len() > 0 && keys[order.last()].lt(keys[n]) {
        let front = order.drop_last();
        lemma_placed(front, keys, n);
        let p = placed(front, keys, n);
        let r = p.push(order.last());
        assert forall|i: int| 0 <= i < r.len() implies #[trigger] r[i] == n || order.contains(r[i]) by {
            if i < p.len() {
                if p[i] != n {
                    let m = choose|m: int| 0 <= m < front.len() && front[m] == p[i];
                    assert(order[m] == p[i]);
                }
            } else {
                assert(order[order.len() - 1] == r[i]);
            }
        }
        assert forall|i: int, j: int| 0 <= i < j < r.len() implies r[i] != r[j] by {
            if j == p.len() {
                if p[i] != n {
                    let m = choose|m: int| 0 <= m < front.len() && front[m] == p[i];
                    assert(order[m] != order[order.len() - 1]);
                }
            }
        }
        assert forall|i: int| 0 <= i < r.len() implies 0 <= #[trigger] r[i] <= n by {
            if i == p.len() {
                assert(0 <= order[order.len() - 1] < n);
            }
        }
    } else {
        let r = order.push(n);
        assert forall|i: int| 0 <= i < order.len() implies #[trigger] r[i] == n || order.contains(
            r[i],
        ) by {
            assert(order[i] == r[i]);
        }
    }
}

/// Ranking keeps every place once.
pub proof fn lemma_ranked_permutation(keys: Seq<Single>, n: int)
    requires
        0 <= n <= keys.len(),
    ensures
        is_permutation(ranked(keys, n), n),
    decreases n,
{
    if n > 0 {
        lemma_ranked_permutation(keys, n - 1);
        lemma_placed(ranked(keys, n - 1), keys, n - 1);
    }
}

proof fn lemma_placed_falls(order: Seq<int>, keys: Seq<Single>, n: int)
    requires
        0 <= n < keys.len(),
        order.no_duplicates(),
        forall|i: int| 0 <= i < order.len() ==> 0 <= #[trigger] order[i] < n,
        forall|i: int| 0 <= i <= n ==> !(#[trigger] keys[i]).is_nan(),
        falling(order, keys),
    ensures
        falling(placed(order, keys, n), keys),
    decreases order.len(),
{
    if order.len() > 0 && keys[order.last()].lt(keys[n]) {
        let front = order.drop_last();
        lemma_placed_falls(front, keys, n);
        lemma_placed(front, keys, n);
        let p = placed(front, keys, n);
        let r = p.push(order.last());
        assert forall|i: int, j: int| 0 <= i < j < r.len() implies {
            let (a, b) = (#[trigger] r[i], #[trigger] r[j]);
            !keys[a].lt(keys[b]) && (!keys[b].lt(keys[a]) ==> a < b)
        } by {
            if j == p.len() {
                if p[i] != n {
                    let m = choose|m: int| 0 <= m < front.len() && front[m] == p[i];
                    assert(order[m] == p[i]);
                    assert(order[order.len() - 1] == r[j]);
                }
            } else {
                assert(r[i] == p[i] && r[j] == p[j]);
            }
        }
    } else if order.len() > 0 {
        let r = order.push(n);
        assert forall|i: int, j: int| 0 <= i < j < r.len() implies {
            let (a, b) = (#[trigger] r[i], #[trigger] r[j]);
            !keys[a].lt(keys[b]) && (!keys[b].lt(keys[a]) ==> a < b)
        } by {
            if j == order.len() {
                let last = order[order.len() - 1];
                assert(0 <= last < n);
                assert(0 <= order[i] < n);
                if i < order.len() - 1 {
                    assert(!keys[order[i]].lt(keys[last]));
                }
                assert(!keys[order[i]].is_nan() && !keys[last].is_nan() && !keys[n].is_nan());
            } else {
                assert(r[i] == order[i] && r[j] == order[j]);
            }
        }
    }
}

/// Ranking puts larger keys first, and of equal keys the one that stood first.
pub proof fn lemma_ranked_falls(keys: Seq<Single>, n: int)
    requires
        0 <= n <= keys.len(),
        forall|i: int| 0 <= i < n ==> !(#[trigger] keys[i]).is_nan(),
    ensures
        falling(ranked(keys, n), keys),
    decreases n,
{
    if n > 0 {
        lemma_ranked_falls(keys, n - 1);
        lemma_ranked_permutation(keys, n - 1);
        lemma_placed_falls(ranked(keys, n - 1), keys, n - 1);
    }
}

/// A permutation leaves no place out.
pub proof fn lemma_permutation_covers(order: Seq<int>, n: int, i: int)
    requires
        is_permutation(order, n),
        0 <= i < n,
    ensures
        order.contains(i),
{
    let all = vstd::set_lib::set_int_range(0, n);
    vstd::set_lib::lemma_int_range(0, n);
    let held = order.to_set();
    order.unique_seq_to_set();
    assert(held.subset_of(all)) by {
        assert forall|x: int| held.contains(x) implies all.contains(x) by {
            let k = choose|k: int| 0 <= k < order.len() && order[k] == x;
            assert(0 <= order[k] < n);
        }
    }
    vstd::set_lib::lemma_subset_equality(held, all);
    assert(all.contains(i));
}

/// Places as integers.
pub open spec fn places(v: Seq<usize>) -> Seq<int> {
    v.map_values(|x: usize| x as int)
}

fn place(order: &mut Vec<usize>, keys: &[Single], k: usize)
    requires
        k < keys@.len(),
        forall|i: int| 0 <= i < old(order)@.len() ==> (#[trigger] old(order)@[i]) < keys@.len(),
    ensures
        places(final(order)@) == placed(places(old(order)@), keys@, k as int),
{
    let ghost o = places(order@);
    let ghost all = placed(o, keys@, k as int);
    let mut m: usize = order.len();
    assert(o.take(m as int) =~= o);
    assert(all =~= placed(o.take(m as int), keys@, k as int) + o.skip(m as int));
    while m > 0 && keys[order[m - 1]].lt(keys[k])
        invariant
            m <= order@.len(),
            k < keys@.len(),
            o == places(order@),
            order@ == old(order)@,
            forall|i: int| 0 <= i < order@.len() ==> (#[trigger] order@[i]) < keys@.len(),
            all == placed(o.take(m as int), keys@, k as int) + o.skip(m as int),
        decreases m,
    {
        proof {
            let t = o.take(m as int);
            assert(t.last() == order@[m - 1] as int);
            assert(t.drop_last() =~= o.take(m - 1));
            assert(placed(t, keys@, k as int) == placed(t.drop_last(), keys@, k as int).push(t.last()));
            assert(placed(o.take(m - 1), keys@, k as int).push(t.last()) + o.skip(m as int) =~= placed(
                o.take(m - 1),
                keys@,
                k as int,
            ) + o.skip(m - 1));
        }
        m = m - 1;
    }
    proof {
        let t = o.take(m as int);
        if m > 0 {
            assert(t.last() == order@[m - 1] as int);
        }
        assert(placed(t, keys@, k as int) =~= t.push(k as int));
    }
    order.insert(m, k);
    proof {
        assert(places(order@) =~= o.take(m as int).push(k as int) + o.skip(m as int));
    }
}

/// The places of the keys, largest key first.
pub fn rank(keys: &[Single]) -> (r: Vec<usize>)
    ensures
        places(r@) == ranked(keys@, keys@.len() as int),
        r@.len() == keys@.len(),
        forall|i: int| 0 <= i < r@.len() ==> (#[trigger] r@[i]) < keys@.len(),
{
    let mut r: Vec<usize> = Vec::new();
    let mut i: usize = 0;
    assert(places(r@) =~= ranked(keys@, 0));
    while i < keys.len()
        invariant
            i <= keys@.len(),
            places(r@) == ranked(keys@, i as int),
        decreases keys@.len() - i,
    {
        proof {
            lemma_ranked_permutation(keys@, i as int);
            assert forall|j: int| 0 <= j < r@.len() implies (#[trigger] r@[j]) < keys@.len() by {
                assert(places(r@)[j] == r@[j] as int);
            }
        }
        place(&mut r, keys, i);
        i = i + 1;
    }
    proof {
        lemma_ranked_permutation(keys@, i as int);
        assert(places(r@).len() == r@.len());
        assert forall|j: int| 0 <= j < r@.len() implies (#[trigger] r@[j]) < keys@.len() by {
            assert(places(r@)[j] == r@[j] as int);
        }
    }
    r
}

} // verus!
