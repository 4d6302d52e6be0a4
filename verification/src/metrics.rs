//! Timings and comparisons of tensors.

use crate::ieee::convert;
use crate::ieee::decimal;
use crate::ieee::double;
use crate::ieee::double::Double;
use crate::ieee::facts;
use crate::ieee::maths;
use crate::ieee::single;
use crate::ieee::single::Single;
use vstd::prelude::*;

verus! {

/// `v`, which is sorted, with `x` before the first value that is larger.
pub open spec fn inserted(v: Seq<Double>, x: Double) -> Seq<Double>
    decreases v.len(),
{
    if v.len() == 0 {
        seq![x]
    } else if x.lt(v.last()) {
        inserted(v.drop_last(), x).push(v.last())
    } else {
        v.push(x)
    }
}

/// The values in ascending order; equal ones keep theirs.
pub open spec fn sorted(v: Seq<Double>) -> Seq<Double>
    decreases v.len(),
{
    if v.len() == 0 {
        Seq::empty()
    } else {
        inserted(sorted(v.drop_last()), v.last())
    }
}

/// Whether no value comes before a smaller one.
pub open spec fn ascending(v: Seq<Double>) -> bool {
    forall|i: int, j: int| 0 <= i < j < v.len() ==> !(#[trigger] v[j]).lt(#[trigger] v[i])
}

/// Whether all values are numbers.
pub open spec fn numbers(v: Seq<Double>) -> bool {
    forall|i: int| 0 <= i < v.len() ==> !(#[trigger] v[i]).is_nan()
}

proof fn lemma_inserted(v: Seq<Double>, x: Double)
    requires
        ascending(v),
        numbers(v),
        !x.is_nan(),
    ensures
        ascending(inserted(v, x)),
        numbers(inserted(v, x)),
        inserted(v, x).len() == v.len() + 1,
        inserted(v, x).to_multiset() == v.to_multiset().insert(x),
        forall|k: int|
            0 <= k < inserted(v, x).len() ==> #[trigger] inserted(v, x)[k] == x || v.contains(
                inserted(v, x)[k],
            ),
    decreases v.len(),
{
    broadcast use vstd::seq_lib::group_to_multiset_ensures;

    if v.len() == 0 {
        assert(v =~= Seq::empty());
        assert(seq![x] =~= v.push(x));
    } else if x.lt(v.last()) {
        let w = v.drop_last();
        lemma_inserted(w, x);
        let r = inserted(w, x);
        let all = r.push(v.last());
        assert forall|i: int, j: int| 0 <= i < j < all.len() implies !(#[trigger] all[j]).lt(
            #[trigger] all[i],
        ) by {
            if j == all.len() - 1 {
                assert(r[i] == x || w.contains(r[i]));
                if r[i] != x {
                    let k = choose|k: int| 0 <= k < w.len() && w[k] == r[i];
                    assert(!v[v.len() - 1].lt(v[k]));
                }
            }
        }
        assert forall|k: int| 0 <= k < all.len() implies #[trigger] all[k] == x || v.contains(
            all[k],
        ) by {
            if k < r.len() {
                if r[k] != x {
                    let m = choose|m: int| 0 <= m < w.len() && w[m] == r[k];
                    assert(v[m] == r[k]);
                }
            } else {
                assert(v[v.len() - 1] == all[k]);
            }
        }
        assert(v =~= w.push(v.last()));
    } else {
        let all = v.push(x);
        assert forall|i: int, j: int| 0 <= i < j < all.len() implies !(#[trigger] all[j]).lt(
            #[trigger] all[i],
        ) by {
            if j == v.len() {
                if i < v.len() - 1 {
                    assert(!v[v.len() - 1].lt(v[i]));
                }
            }
        }
    }
}

/// Sorting numbers puts them in order and keeps each of them.
pub proof fn lemma_sorted(v: Seq<Double>)
    requires
        numbers(v),
    ensures
        ascending(sorted(v)),
        sorted(v).to_multiset() == v.to_multiset(),
        sorted(v).len() == v.len(),
        numbers(sorted(v)),
    decreases v.len(),
{
    broadcast use vstd::seq_lib::group_to_multiset_ensures;

    if v.len() > 0 {
        lemma_sorted(v.drop_last());
        lemma_inserted(sorted(v.drop_last()), v.last());
        assert(v =~= v.drop_last().push(v.last()));
    } else {
        assert(v =~= Seq::empty());
    }
}

proof fn lemma_inserted_len(v: Seq<Double>, x: Double)
    ensures
        inserted(v, x).len() == v.len() + 1,
    decreases v.len(),
{
    if v.len() > 0 && x.lt(v.last()) {
        lemma_inserted_len(v.drop_last(), x);
    }
}

proof fn lemma_sorted_len(v: Seq<Double>)
    ensures
        sorted(v).len() == v.len(),
    decreases v.len(),
{
    if v.len() > 0 {
        lemma_sorted_len(v.drop_last());
        lemma_inserted_len(sorted(v.drop_last()), v.last());
    }
}

/// Places `x` in a sorted list.
fn insert(v: &mut Vec<Double>, x: Double)
    ensures
        final(v)@ == inserted(old(v)@, x),
{
    let ghost all = inserted(v@, x);
    let mut k: usize = v.len();
    assert(v@.take(k as int) =~= v@);
    assert(all =~= inserted(v@.take(k as int), x) + v@.skip(k as int));
    while k > 0 && x.lt(v[k - 1])
        invariant
            k <= v@.len(),
            v@ == old(v)@,
            all == inserted(v@.take(k as int), x) + v@.skip(k as int),
        decreases k,
    {
        proof {
            let t = v@.take(k as int);
            assert(t.drop_last() =~= v@.take(k - 1));
            assert(inserted(t, x) == inserted(t.drop_last(), x).push(t.last()));
            assert(inserted(v@.take(k - 1), x).push(t.last()) + v@.skip(k as int) =~= inserted(
                v@.take(k - 1),
                x,
            ) + v@.skip(k - 1));
        }
        k = k - 1;
    }
    proof {
        let t = v@.take(k as int);
        assert(inserted(t, x) =~= t.push(x));
        assert(v@.insert(k as int, x) =~= t.push(x) + v@.skip(k as int));
    }
    v.insert(k, x);
}

/// Sorts values in ascending order.
pub fn sort(v: &[Double]) -> (r: Vec<Double>)
    ensures
        r@ == sorted(v@),
        r@.len() == v@.len(),
{
    let mut r: Vec<Double> = Vec::new();
    let mut i: usize = 0;
    assert(v@.take(0) =~= Seq::empty());
    while i < v.len()
        invariant
            i <= v@.len(),
            r@ == sorted(v@.take(i as int)),
        decreases v@.len() - i,
    {
        assert(v@.take(i + 1).drop_last() =~= v@.take(i as int));
        insert(&mut r, v[i]);
        i = i + 1;
    }
    proof {
        assert(v@.take(i as int) =~= v@);
        lemma_sorted_len(v@);
    }
    r
}

/// A sum of numbers of double precision from left to right, starting at zero.
pub open spec fn total_of(v: Seq<Double>) -> Double
    decreases v.len(),
{
    if v.len() == 0 {
        double::of(0)
    } else {
        total_of(v.drop_last()) + v.last()
    }
}

fn total(v: &[Double]) -> (r: Double)
    ensures
        r == total_of(v@),
{
    let mut r: Double = double::of(0);
    let mut i: usize = 0;
    while i < v.len()
        invariant
            i <= v@.len(),
            r == total_of(v@.take(i as int)),
        decreases v@.len() - i,
    {
        assert(v@.take(i + 1).drop_last() =~= v@.take(i as int));
        r = r + v[i];
        i = i + 1;
    }
    assert(v@.take(i as int) =~= v@);
    r
}

/// Run times in milliseconds.
#[derive(Clone, Copy, Debug, PartialEq, Eq, Structural)]
pub struct Latency {
    pub warmup: u32,
    pub iters: u32,
    pub mean_ms: Double,
    pub p50_ms: Double,
    pub p90_ms: Double,
    pub p99_ms: Double,
    pub min_ms: Double,
    pub max_ms: Double,
}

/// The value below which the given share of the sorted values lies, between two of them where it
/// falls between two.
pub open spec fn quantile(v: Seq<Double>, share: Double) -> Double {
    if v.len() == 0 {
        double::of(0)
    } else {
        let r = share * Double::from_int(v.len() - 1);
        let lo = r.floor().to_int(0, u32::MAX as int);
        let hi = r.ceil().to_int(0, u32::MAX as int);
        let w = r - Double::from_int(lo);
        v[lo] * (double::of(double::ONE) - w) + v[hi] * w
    }
}

/// The value below which the given share of the sorted values lies.
pub fn pct(sorted: &[Double], share: Double) -> (r: Double)
    requires
        sorted@.len() <= u32::MAX,
        share.le(double::of(double::ONE)),
        !share.minus(),
    ensures
        r == quantile(sorted@, share),
{
    if sorted.len() == 0 {
        return double::of(0);
    }
    let n: usize = sorted.len() - 1;
    let at: Double = share * double::from_u64(n as u64);
    proof {
        facts::lemma_double_share(share, n as int, u32::MAX as int);
    }
    let lo: u32 = at.floor().to_u32();
    let hi: u32 = at.ceil().to_u32();
    let w: Double = at - double::from_u64(lo as u64);
    sorted[lo as usize] * (double::of(double::ONE) - w) + sorted[hi as usize] * w
}

/// The figures of some run times.
pub open spec fn figures(warmup: u32, s: Seq<Double>) -> Latency {
    let v = sorted(s);
    Latency {
        warmup,
        iters: s.len() as u32,
        mean_ms: if s.len() == 0 {
            double::of(0)
        } else {
            total_of(v) / Double::from_int(s.len() as int)
        },
        p50_ms: quantile(v, double::of(decimal::DN0_5)),
        p90_ms: quantile(v, double::of(decimal::DN0_9)),
        p99_ms: quantile(v, double::of(decimal::DN0_99)),
        min_ms: if s.len() == 0 {
            double::of(0)
        } else {
            v.first()
        },
        max_ms: if s.len() == 0 {
            double::of(0)
        } else {
            v.last()
        },
    }
}

impl Latency {
    /// The figures of some run times, which are all numbers.
    pub fn from_samples(warmup: u32, s: &[Double]) -> (r: Latency)
        requires
            s@.len() <= u32::MAX,
            s@.len() > 1 ==> numbers(s@),
        ensures
            r == figures(warmup, s@),
    {
        let v: Vec<Double> = sort(s);
        let n: usize = v.len();
        let z: Double = double::of(0);
        Latency {
            warmup,
            iters: n as u32,
            mean_ms: if n == 0 {
                z
            } else {
                total(v.as_slice()) / double::from_u64(n as u64)
            },
            p50_ms: pct(v.as_slice(), double::of(decimal::DN0_5)),
            p90_ms: pct(v.as_slice(), double::of(decimal::DN0_9)),
            p99_ms: pct(v.as_slice(), double::of(decimal::DN0_99)),
            min_ms: if n == 0 {
                z
            } else {
                v[0]
            },
            max_ms: if n == 0 {
                z
            } else {
                v[n - 1]
            },
        }
    }
}

/// The smallest and the largest run time bound all of them.
pub proof fn lemma_extremes(warmup: u32, s: Seq<Double>, i: int)
    requires
        numbers(s),
        0 <= i < s.len(),
    ensures
        figures(warmup, s).min_ms.le(s[i]),
        s[i].le(figures(warmup, s).max_ms),
{
    lemma_sorted(s);
    let v = sorted(s);
    broadcast use vstd::seq_lib::group_to_multiset_ensures;
    assert(s.contains(s[i]));
    assert(v.to_multiset().contains(s[i]));
    assert(v.contains(s[i]));
    let k = choose|k: int| 0 <= k < v.len() && v[k] == s[i];
    assert(!v[0].is_nan() && !v[v.len() - 1].is_nan());
    if k > 0 {
        assert(!v[k].lt(v[0]));
    }
    if k < v.len() - 1 {
        assert(!v[v.len() - 1].lt(v[k]));
    }
}

/// Memory in use, and the most that was.
#[derive(Clone, Copy, Debug, PartialEq, Eq, Structural)]
pub struct Rss {
    pub rss_bytes: u64,
    pub rss_peak_bytes: u64,
}

/// The number of pairs that two rows of numbers make.
pub open spec fn pairs(a: Seq<Single>, b: Seq<Single>) -> int {
    if a.len() < b.len() {
        a.len() as int
    } else {
        b.len() as int
    }
}

/// The largest difference of the first `n` pairs.
pub open spec fn widest(a: Seq<Single>, b: Seq<Single>, n: int) -> Single
    decreases n,
{
    if n <= 0 {
        single::of(0)
    } else {
        widest(a, b, n - 1).max((a[n - 1] - b[n - 1]).abs())
    }
}

/// The largest difference between two rows of numbers, zero of none.
pub fn max_abs(a: &[Single], b: &[Single]) -> (r: Single)
    ensures
        r == widest(a@, b@, pairs(a@, b@)),
{
    let n: usize = if a.len() < b.len() {
        a.len()
    } else {
        b.len()
    };
    let mut r: Single = single::of(0);
    let mut i: usize = 0;
    while i < n
        invariant
            n == pairs(a@, b@),
            i <= n,
            r == widest(a@, b@, i as int),
        decreases n - i,
    {
        r = r.max((a[i] - b[i]).abs());
        i = i + 1;
    }
    r
}

/// The differences of two rows of numbers, without their signs.
pub open spec fn gaps(a: Seq<Single>, b: Seq<Single>) -> Seq<Single> {
    Seq::new(pairs(a, b) as nat, |i: int| (a[i] - b[i]).abs())
}

/// The mean difference between two rows of numbers, zero of none.
pub fn mean_abs(a: &[Single], b: &[Single]) -> (r: Single)
    ensures
        r == (if pairs(a@, b@) == 0 {
            single::of(0)
        } else {
            maths::sum_of(gaps(a@, b@)) / Single::from_int(pairs(a@, b@))
        }),
{
    let n: usize = if a.len() < b.len() {
        a.len()
    } else {
        b.len()
    };
    if n == 0 {
        return single::of(0);
    }
    let mut g: Vec<Single> = Vec::new();
    let mut i: usize = 0;
    while i < n
        invariant
            n == pairs(a@, b@),
            i <= n,
            g@ == gaps(a@, b@).take(i as int),
        decreases n - i,
    {
        g.push((a[i] - b[i]).abs());
        i = i + 1;
        assert(g@ =~= gaps(a@, b@).take(i as int));
    }
    assert(g@ =~= gaps(a@, b@));
    maths::sum(g.as_slice()) / single::from_u64(n as u64)
}

/// The sum of the products of the first `n` pairs, in double precision.
pub open spec fn inner(a: Seq<Single>, b: Seq<Single>, n: int) -> Double
    decreases n,
{
    if n <= 0 {
        double::of(0)
    } else {
        inner(a, b, n - 1) + convert::to_double(a[n - 1]) * convert::to_double(b[n - 1])
    }
}

/// The cosine of the angle between two rows of numbers, zero where one of them is zero.
pub fn cosine(a: &[Single], b: &[Single]) -> (r: Single)
    ensures
        ({
            let n = pairs(a@, b@);
            let (na, nb) = (inner(a@, a@, n), inner(b@, b@, n));
            r == (if na.same(double::of(0)) || nb.same(double::of(0)) {
                single::of(0)
            } else {
                convert::to_single(inner(a@, b@, n) / (na.sqrt() * nb.sqrt()))
            })
        }),
{
    let n: usize = if a.len() < b.len() {
        a.len()
    } else {
        b.len()
    };
    let mut dot: Double = double::of(0);
    let mut na: Double = double::of(0);
    let mut nb: Double = double::of(0);
    let mut i: usize = 0;
    while i < n
        invariant
            n == pairs(a@, b@),
            i <= n,
            dot == inner(a@, b@, i as int),
            na == inner(a@, a@, i as int),
            nb == inner(b@, b@, i as int),
        decreases n - i,
    {
        let x: Double = convert::to_double(a[i]);
        let y: Double = convert::to_double(b[i]);
        dot = dot + x * y;
        na = na + x * x;
        nb = nb + y * y;
        i = i + 1;
    }
    if na.same(double::of(0)) || nb.same(double::of(0)) {
        single::of(0)
    } else {
        convert::to_single(dot / (na.sqrt() * nb.sqrt()))
    }
}

/// The word of four bytes, the lowest first.
pub open spec fn word_of(b: Seq<u8>, at: int) -> u32 {
    (b[at] + 0x100 * b[at + 1] + 0x1_0000 * b[at + 2] + 0x100_0000 * b[at + 3]) as u32
}

/// The numbers in a run of bytes, four bytes each with the lowest first; what is left over at the
/// end is dropped.
pub fn read_f32_le(b: &[u8]) -> (r: Vec<Single>)
    ensures
        r@ == Seq::new((b@.len() / 4) as nat, |i: int| single::of(word_of(b@, 4 * i))),
{
    let n: usize = b.len() / 4;
    let mut r: Vec<Single> = Vec::new();
    let mut i: usize = 0;
    while i < n
        invariant
            n == b@.len() / 4,
            b@.len() <= usize::MAX,
            i <= n,
            r@.len() == i,
            forall|k: int| 0 <= k < i ==> #[trigger] r@[k] == single::of(word_of(b@, 4 * k)),
        decreases n - i,
    {
        let at: usize = 4 * i;
        let w: u32 = b[at] as u32 + 0x100 * b[at + 1] as u32 + 0x1_0000 * b[at + 2] as u32
            + 0x100_0000 * b[at + 3] as u32;
        r.push(single::of(w));
        i = i + 1;
    }
    assert(r@ =~= Seq::new((b@.len() / 4) as nat, |i: int| single::of(word_of(b@, 4 * i))));
    r
}

} // verus!
