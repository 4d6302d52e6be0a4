//! Expressions: what the points of a face say of eyes, brows, mouth and jaw.
//!
//! Every feature learns what is normal for a face from a running median, and how
//! far it goes either way, and is then a number about zero.

use crate::geom;
use crate::ieee::maths;
use crate::ieee::order;
use crate::ieee::single;
use crate::ieee::single::Single;
use vstd::arithmetic::power2::*;
use vstd::prelude::*;

verus! {

/// How many values a level of the median collects.
pub const LEVEL: usize = 64;

/// The words of small numbers.
pub const TWO: u32 = 0x4000_0000;
pub const THREE: u32 = 0x4040_0000;
pub const FOUR: u32 = 0x4080_0000;
pub const SIX: u32 = 0x40c0_0000;
pub const MINUS_ONE: u32 = 0xbf80_0000;

/// The words of what counts as nothing.
pub const TINY: u32 = 0x322b_cc77;
pub const SMALL: u32 = 0x3586_37bd;

/// The words of how a feature is smoothed, how its ends are set in, and how fast
/// they come back.
pub const ALPHA: u32 = 0x3e4c_cccd;
pub const HARD: u32 = 0x3e19_999a;
pub const DECAY: u32 = 0x3a83_126f;

/// The words of the thresholds of the features.
pub const TH_WIDE: u32 = 0x3e19_999a;
pub const TH_MID: u32 = 0x3d4c_cccd;
pub const TH_FINE: u32 = 0x3ca3_d70a;

/// `v`, which is sorted, with `x` before the first value that is larger.
pub open spec fn inserted(v: Seq<Single>, x: Single) -> Seq<Single>
    decreases v.len(),
{
    if v.len() == 0 {
        seq![x]
    } else if x.lt(v.last()) {
        inserted(v.drop_last(), x).push(v.last())
    } else {
        v.push(x)
    }
}

/// The values in ascending order; equal ones keep theirs.
pub open spec fn sorted(v: Seq<Single>) -> Seq<Single>
    decreases v.len(),
{
    if v.len() == 0 {
        Seq::empty()
    } else {
        inserted(sorted(v.drop_last()), v.last())
    }
}

/// Whether no value comes before a smaller one.
pub open spec fn ascending(v: Seq<Single>) -> bool {
    forall|i: int, j: int| 0 <= i < j < v.len() ==> !(#[trigger] v[j]).lt(#[trigger] v[i])
}

/// Whether all values are numbers.
pub open spec fn numbers(v: Seq<Single>) -> bool {
    forall|i: int| 0 <= i < v.len() ==> !(#[trigger] v[i]).is_nan()
}

proof fn lemma_inserted(v: Seq<Single>, x: Single)
    requires
        ascending(v),
        numbers(v),
        !x.is_nan(),
    ensures
        ascending(inserted(v, x)),
        numbers(inserted(v, x)),
        inserted(v, x).len() == v.len() + 1,
        inserted(v, x).to_multiset() == v.to_multiset().insert(x),
        forall|k: int|
            0 <= k < inserted(v, x).len() ==> #[trigger] inserted(v, x)[k] == x || v.contains(
                inserted(v, x)[k],
            ),
    decreases v.len(),
{
    broadcast use vstd::seq_lib::group_to_multiset_ensures;

    if v.len() == 0 {
        assert(v =~= Seq::empty());
        assert(seq![x] =~= v.push(x));
    } else if x.lt(v.last()) {
        let w = v.drop_last();
        lemma_inserted(w, x);
        let r = inserted(w, x);
        let all = r.push(v.last());
        assert forall|i: int, j: int| 0 <= i < j < all.len() implies !(#[trigger] all[j]).lt(
            #[trigger] all[i],
        ) by {
            if j == all.len() - 1 {
                assert(r[i] == x || w.contains(r[i]));
                if r[i] != x {
                    let k = choose|k: int| 0 <= k < w.len() && w[k] == r[i];
                    assert(!v[v.len() - 1].lt(v[k]));
                }
            }
        }
        assert forall|k: int| 0 <= k < all.len() implies #[trigger] all[k] == x || v.contains(
            all[k],
        ) by {
            if k < r.len() {
                if r[k] != x {
                    let m = choose|m: int| 0 <= m < w.len() && w[m] == r[k];
                    assert(v[m] == r[k]);
                }
            } else {
                assert(v[v.len() - 1] == all[k]);
            }
        }
        assert(v =~= w.push(v.last()));
    } else {
        let all = v.push(x);
        assert forall|i: int, j: int| 0 <= i < j < all.len() implies !(#[trigger] all[j]).lt(
            #[trigger] all[i],
        ) by {
            if j == v.len() {
                if i < v.len() - 1 {
                    assert(!v[v.len() - 1].lt(v[i]));
                }
            }
        }
    }
}

/// Sorting numbers puts them in order and keeps each of them.
pub proof fn lemma_sorted(v: Seq<Single>)
    requires
        numbers(v),
    ensures
        ascending(sorted(v)),
        sorted(v).to_multiset() == v.to_multiset(),
        sorted(v).len() == v.len(),
        numbers(sorted(v)),
    decreases v.len(),
{
    broadcast use vstd::seq_lib::group_to_multiset_ensures;

    if v.len() > 0 {
        lemma_sorted(v.drop_last());
        lemma_inserted(sorted(v.drop_last()), v.last());
        assert(v =~= v.drop_last().push(v.last()));
    } else {
        assert(v =~= Seq::empty());
    }
}

proof fn lemma_inserted_len(v: Seq<Single>, x: Single)
    ensures
        inserted(v, x).len() == v.len() + 1,
    decreases v.len(),
{
    if v.len() > 0 && x.lt(v.last()) {
        lemma_inserted_len(v.drop_last(), x);
    }
}

pub proof fn lemma_sorted_len(v: Seq<Single>)
    ensures
        sorted(v).len() == v.len(),
    decreases v.len(),
{
    if v.len() > 0 {
        lemma_sorted_len(v.drop_last());
        lemma_inserted_len(sorted(v.drop_last()), v.last());
    }
}

/// Places `x` in a sorted list.
fn insert(v: &mut Vec<Single>, x: Single)
    ensures
        final(v)@ == inserted(old(v)@, x),
{
    let ghost all = inserted(v@, x);
    let mut k: usize = v.len();
    assert(v@.take(k as int) =~= v@);
    assert(all =~= inserted(v@.take(k as int), x) + v@.skip(k as int));
    while k > 0 && x.lt(v[k - 1])
        invariant
            k <= v@.len(),
            v@ == old(v)@,
            all == inserted(v@.take(k as int), x) + v@.skip(k as int),
        decreases k,
    {
        proof {
            let t = v@.take(k as int);
            assert(t.drop_last() =~= v@.take(k - 1));
            assert(inserted(t, x) == inserted(t.drop_last(), x).push(t.last()));
            assert(inserted(v@.take(k - 1), x).push(t.last()) + v@.skip(k as int) =~= inserted(
                v@.take(k - 1),
                x,
            ) + v@.skip(k - 1));
        }
        k = k - 1;
    }
    proof {
        let t = v@.take(k as int);
        assert(inserted(t, x) =~= t.push(x));
        assert(v@.insert(k as int, x) =~= t.push(x) + v@.skip(k as int));
    }
    v.insert(k, x);
}

/// Sorts values in ascending order.
pub fn sort(v: &[Single]) -> (r: Vec<Single>)
    ensures
        r@ == sorted(v@),
        r@.len() == v@.len(),
{
    let mut r: Vec<Single> = Vec::new();
    let mut i: usize = 0;
    assert(v@.take(0) =~= Seq::empty());
    while i < v.len()
        invariant
            i <= v@.len(),
            r@ == sorted(v@.take(i as int)),
        decreases v@.len() - i,
    {
        assert(v@.take(i + 1).drop_last() =~= v@.take(i as int));
        insert(&mut r, v[i]);
        i = i + 1;
    }
    proof {
        assert(v@.take(i as int) =~= v@);
        lemma_sorted_len(v@);
    }
    r
}

/// The value in the middle, or half way between the two; zero of nothing.
pub open spec fn median_of(lst: Seq<Single>) -> Single {
    let v = sorted(lst);
    let n = v.len() as int;
    if n == 0 {
        single::of(0)
    } else if n < 3 {
        (v[0] + v[n - 1]) / single::of(TWO)
    } else if n % 2 == 0 {
        (v[n / 2] + v[n / 2 - 1]) / single::of(TWO)
    } else {
        v[n / 2]
    }
}

/// The median of some values.
pub fn median(lst: &[Single]) -> (r: Single)
    ensures
        r == median_of(lst@),
{
    let v: Vec<Single> = sort(lst);
    let n: usize = v.len();
    if n == 0 {
        return single::of(0);
    }
    if n < 3 {
        return (v[0] + v[n - 1]) / single::of(TWO);
    }
    let p: usize = n / 2;
    if n % 2 == 0 {
        (v[p] + v[p - 1]) / single::of(TWO)
    } else {
        v[p]
    }
}

/// A running median in little room: when a level is full, its median goes to the
/// next level.
pub struct Remedian {
    levels: Vec<Vec<Single>>,
}

/// The levels with one more value at level `i`.
pub open spec fn fed(levels: Seq<Seq<Single>>, i: int, x: Single) -> Seq<Seq<Single>>
    decreases levels.len() - i,
{
    if i < 0 || i >= levels.len() {
        levels.push(seq![x])
    } else {
        let l = levels[i].push(x);
        if l.len() == LEVEL {
            fed(levels.update(i, Seq::empty()), i + 1, median_of(l))
        } else {
            levels.update(i, l)
        }
    }
}

/// What the levels say: the median of the last.
pub open spec fn settled(levels: Seq<Seq<Single>>) -> Single {
    median_of(levels.last())
}

/// One empty level.
pub open spec fn fresh() -> Seq<Seq<Single>> {
    seq![Seq::<Single>::empty()]
}

impl Remedian {
    pub closed spec fn view(self) -> Seq<Seq<Single>> {
        Seq::new(self.levels@.len(), |i: int| self.levels@[i]@)
    }

    #[verifier::type_invariant]
    spec fn inv(self) -> bool {
        self.levels@.len() >= 1
    }

    /// Nothing yet.
    pub fn new() -> (r: Self)
        ensures
            r@ == fresh(),
    {
        let mut levels: Vec<Vec<Single>> = Vec::new();
        let none: Vec<Single> = Vec::new();
        levels.push(none);
        let r: Remedian = Remedian { levels };
        assert(r@ =~= fresh());
        r
    }

    /// Takes in a value.
    pub fn push(&mut self, x: Single)
        ensures
            final(self)@ == fed(old(self)@, 0, x),
    {
        proof {
            use_type_invariant(&*self);
        }
        let mut levels: Vec<Vec<Single>> = Vec::new();
        let none: Vec<Single> = Vec::new();
        levels.push(none);
        std::mem::swap(&mut levels, &mut self.levels);
        let ghost all = fed(old(self)@, 0, x);
        let mut x: Single = x;
        let mut i: usize = 0;
        let mut done: bool = false;
        while !done && i < levels.len()
            invariant
                i <= levels@.len(),
                levels@.len() >= 1,
                done ==> all == deep(levels@),
                !done ==> all == fed(deep(levels@), i as int, x),
            decreases levels@.len() - i, (if done { 0int } else { 1int }),
        {
            let ghost before = deep(levels@);
            let ghost row = before[i as int];
            levels[i].push(x);
            proof {
                assert(levels@[i as int]@ == row.push(x));
            }
            if levels[i].len() == LEVEL {
                x = median(levels[i].as_slice());
                let empty: Vec<Single> = Vec::new();
                levels[i] = empty;
                assert(deep(levels@) =~= before.update(i as int, Seq::empty()));
                i = i + 1;
            } else {
                assert(deep(levels@) =~= before.update(i as int, row.push(x)));
                done = true;
            }
        }
        if !done {
            let ghost before = deep(levels@);
            let mut top: Vec<Single> = Vec::new();
            top.push(x);
            levels.push(top);
            assert(deep(levels@) =~= before.push(seq![x]));
        }
        self.levels = levels;
        assert(self@ =~= deep(self.levels@));
    }

    /// The median so far.
    pub fn median(&self) -> (r: Single)
        ensures
            r == settled(self@),
    {
        proof {
            use_type_invariant(self);
        }
        let n: usize = self.levels.len();
        median(self.levels[n - 1].as_slice())
    }
}

spec fn deep(levels: Seq<Vec<Single>>) -> Seq<Seq<Single>> {
    Seq::new(levels.len(), |i: int| levels[i]@)
}

/// What a feature has learned, besides its median.
#[derive(Clone, Copy, Debug)]
pub struct FeatureState {
    /// The lowest value, once one was low enough.
    pub min: Option<Single>,
    /// The highest value, once one was high enough.
    pub max: Option<Single>,
    /// Where the lowest value comes back to.
    pub hard_min: Option<Single>,
    /// Where the highest value comes back to.
    pub hard_max: Option<Single>,
    /// How far from the median is far, in medians.
    pub threshold: Single,
    /// The last smoothed result.
    pub last: Single,
    pub current_median: Single,
    /// For how many seconds the feature learns; zero for ever.
    pub max_feature_updates: Single,
    /// When the first value came; negative before.
    pub first_seen: Single,
    pub updating: bool,
    /// Whether only values above the median count.
    pub one_sided: bool,
}

/// A feature as it is reasoned about: what it learned, and the levels of its median.
pub struct FeatureModel {
    pub state: FeatureState,
    pub levels: Seq<Seq<Single>>,
}

/// A new feature.
pub open spec fn new_state(threshold: Single, max_updates: Single, one_sided: bool) -> FeatureState {
    FeatureState {
        min: None,
        max: None,
        hard_min: None,
        hard_max: None,
        threshold,
        last: single::of(0),
        current_median: single::of(0),
        max_feature_updates: max_updates,
        first_seen: single::of(MINUS_ONE),
        updating: true,
        one_sided,
    }
}

/// Whether a feature is still learning at `now`.
pub open spec fn learning(updating: bool, max_updates: Single, first_seen: Single, now: Single)
    -> bool {
    updating && (max_updates.same(single::of(0)) || (now - first_seen).lt(max_updates))
}

/// When the first value came, seen at `now`.
pub open spec fn seen_at(max_updates: Single, first_seen: Single, now: Single) -> Single {
    if max_updates.gt(single::of(0)) && first_seen.lt(single::of(0)) {
        now
    } else {
        first_seen
    }
}

/// An end that comes back to where it was set in, a little at a time.
pub open spec fn eased(end: Single, hard: Single) -> Single {
    hard * single::of(DECAY) + end * (single::of(single::ONE) - single::of(DECAY))
}

/// A new lowest value.
pub open spec fn new_low(s: FeatureState, x: Single, median: Single, updating: bool) -> FeatureState {
    if updating {
        FeatureState {
            min: Some(x),
            hard_min: Some(x + single::of(HARD) * (median - x)),
            ..s
        }
    } else {
        s
    }
}

/// A new highest value.
pub open spec fn new_high(s: FeatureState, x: Single, median: Single, updating: bool)
    -> FeatureState {
    if updating {
        FeatureState {
            max: Some(x),
            hard_max: Some(x - single::of(HARD) * (x - median)),
            ..s
        }
    } else {
        s
    }
}

/// The highest value, eased.
pub open spec fn eased_high(s: FeatureState, updating: bool) -> FeatureState {
    match (s.max, s.hard_max) {
        (Some(m), Some(h)) => if updating && m.gt(h) {
            FeatureState { max: Some(eased(m, h)), ..s }
        } else {
            s
        },
        _ => s,
    }
}

/// The lowest value, eased.
pub open spec fn eased_low(s: FeatureState, updating: bool) -> FeatureState {
    match (s.min, s.hard_min) {
        (Some(m), Some(h)) => if updating && m.lt(h) {
            FeatureState { min: Some(eased(m, h)), ..s }
        } else {
            s
        },
        _ => s,
    }
}

/// Whether `far` is more than the threshold away from the median, in medians.
pub open spec fn beyond(far: Single, median: Single, threshold: Single) -> bool {
    !median.same(single::of(0)) && (far / median).gt(threshold)
}

/// How far `x` lies above the median, of the highest value.
pub open spec fn share_above(x: Single, median: Single, max: Single) -> Single {
    if (max - median).abs().lt(single::of(TINY)) {
        single::of(0)
    } else {
        (x - median) / (max - median)
    }
}

/// How far `x` lies below the median, of the lowest value, as a negative number.
pub open spec fn share_below(x: Single, median: Single, min: Single) -> Single {
    if (median - min).abs().lt(single::of(TINY)) {
        single::of(0)
    } else {
        (single::of(single::ONE) - (x - min) / (median - min)).negated()
    }
}

/// What a one-sided feature makes of `x`: nothing up to the median, one for a new
/// highest value, and a share in between.
pub open spec fn positive_step(s: FeatureState, x: Single, median: Single, updating: bool) -> (
    FeatureState,
    Single,
) {
    let zero = single::of(0);
    let one = single::of(single::ONE);
    if median.same(zero) || x.le(median) {
        (s, zero)
    } else {
        match s.max {
            None => if ((x - median) / median).gt(s.threshold) {
                (new_high(s, x, median, updating), one)
            } else {
                (s, zero)
            },
            Some(m) => if x.gt(m) {
                (new_high(s, x, median, updating), one)
            } else {
                let t = eased_high(s, updating);
                (t, share_above(x, median, t.max->0))
            },
        }
    }
}

/// What a feature makes of `x`: minus one for a new lowest value, one for a new
/// highest, nothing until both ends are known, and then a share.
pub open spec fn value_step(s: FeatureState, x: Single, median: Single, updating: bool) -> (
    FeatureState,
    Single,
) {
    let zero = single::of(0);
    let one = single::of(single::ONE);
    match s.min {
        None => if x.lt(median) && beyond(median - x, median, s.threshold) {
            (new_low(s, x, median, updating), one.negated())
        } else {
            (s, zero)
        },
        Some(low) => if x.lt(low) {
            (new_low(s, x, median, updating), one.negated())
        } else {
            match s.max {
                None => if x.gt(median) && beyond(x - median, median, s.threshold) {
                    (new_high(s, x, median, updating), one)
                } else {
                    (s, zero)
                },
                Some(high) => if x.gt(high) {
                    (new_high(s, x, median, updating), one)
                } else {
                    let t = eased_high(eased_low(s, updating), updating);
                    if x.lt(median) {
                        (t, share_below(x, median, t.min->0))
                    } else if x.gt(median) {
                        (t, share_above(x, median, t.max->0))
                    } else {
                        (t, zero)
                    }
                },
            }
        },
    }
}

/// A feature after the value `x` at `now`.
#[verifier::opaque]
pub open spec fn next(f: FeatureModel, x: Single, now: Single) -> FeatureModel {
    let first_seen = seen_at(f.state.max_feature_updates, f.state.first_seen, now);
    let updating = learning(f.state.updating, f.state.max_feature_updates, first_seen, now);
    let levels = if updating {
        fed(f.levels, 0, x)
    } else {
        f.levels
    };
    let median = if updating {
        settled(levels)
    } else {
        f.state.current_median
    };
    let s = FeatureState {
        first_seen,
        current_median: median,
        updating: f.state.updating && updating,
        ..f.state
    };
    let (t, new) = if s.one_sided {
        positive_step(s, x, median, updating)
    } else {
        value_step(s, x, median, updating)
    };
    let last = t.last * single::of(ALPHA) + new * (single::of(single::ONE) - single::of(ALPHA));
    FeatureModel { state: FeatureState { last, ..t }, levels }
}

/// A feature that learns its median and its range.
pub struct Feature {
    pub state: FeatureState,
    pub median: Remedian,
}

impl Feature {
    pub open spec fn view(self) -> FeatureModel {
        FeatureModel { state: self.state, levels: self.median@ }
    }

    /// A feature with values on both sides of the median.
    pub fn new(threshold: Single, max_feature_updates: Single) -> (r: Self)
        ensures
            r@ == (FeatureModel {
                state: new_state(threshold, max_feature_updates, false),
                levels: fresh(),
            }),
    {
        Self::new_ex(threshold, max_feature_updates, false)
    }

    /// A feature with values above the median only.
    pub fn new_positive(threshold: Single, max_feature_updates: Single) -> (r: Self)
        ensures
            r@ == (FeatureModel {
                state: new_state(threshold, max_feature_updates, true),
                levels: fresh(),
            }),
    {
        Self::new_ex(threshold, max_feature_updates, true)
    }

    fn new_ex(threshold: Single, max_feature_updates: Single, one_sided: bool) -> (r: Self)
        ensures
            r@ == (FeatureModel {
                state: new_state(threshold, max_feature_updates, one_sided),
                levels: fresh(),
            }),
    {
        Feature {
            state: FeatureState {
                min: None,
                max: None,
                hard_min: None,
                hard_max: None,
                threshold,
                last: single::of(0),
                current_median: single::of(0),
                max_feature_updates,
                first_seen: single::of(MINUS_ONE),
                updating: true,
                one_sided,
            },
            median: Remedian::new(),
        }
    }

    /// Takes in a value and gives the smoothed result.
    pub fn update(&mut self, x: Single, now: Single) -> (r: Single)
        ensures
            final(self)@ == next(old(self)@, x, now),
            r == final(self)@.state.last,
    {
        if self.state.max_feature_updates.gt(single::of(0)) && self.state.first_seen.lt(
            single::of(0),
        ) {
            self.state.first_seen = now;
        }
        let new: Single = self.update_state(x, now);
        proof {
            reveal(next);
        }
        let alpha: Single = single::of(ALPHA);
        let filtered: Single = self.state.last * alpha + new * (single::of(single::ONE) - alpha);
        self.state.last = filtered;
        filtered
    }

    /// The median so far.
    pub fn raw_median(&self) -> (r: Single)
        ensures
            r == self@.state.current_median,
    {
        self.state.current_median
    }

    fn update_state(&mut self, x: Single, now: Single) -> (r: Single)
        ensures
            ({
                let o = old(self)@;
                let updating = learning(
                    o.state.updating,
                    o.state.max_feature_updates,
                    o.state.first_seen,
                    now,
                );
                let levels = if updating {
                    fed(o.levels, 0, x)
                } else {
                    o.levels
                };
                let median = if updating {
                    settled(levels)
                } else {
                    o.state.current_median
                };
                let s = FeatureState {
                    current_median: median,
                    updating: o.state.updating && updating,
                    ..o.state
                };
                let (t, new) = if s.one_sided {
                    positive_step(s, x, median, updating)
                } else {
                    value_step(s, x, median, updating)
                };
                final(self)@ == (FeatureModel { state: t, levels }) && r == new
            }),
    {
        let updating: bool = self.state.updating && (self.state.max_feature_updates.same(
            single::of(0),
        ) || (now - self.state.first_seen).lt(self.state.max_feature_updates));
        if updating {
            self.median.push(x);
            self.state.current_median = self.median.median();
        } else {
            self.state.updating = false;
        }
        let median: Single = self.state.current_median;
        if self.state.one_sided {
            return self.update_positive(x, median, updating);
        }
        let zero: Single = single::of(0);
        let one: Single = single::of(single::ONE);
        match self.state.min {
            None => {
                if x.lt(median) && !median.same(zero) && ((median - x) / median).gt(
                    self.state.threshold,
                ) {
                    self.set_low(x, median, updating);
                    return one.negated();
                }
                return zero;
            },
            Some(low) => {
                if x.lt(low) {
                    self.set_low(x, median, updating);
                    return one.negated();
                }
            },
        }
        match self.state.max {
            None => {
                if x.gt(median) && !median.same(zero) && ((x - median) / median).gt(
                    self.state.threshold,
                ) {
                    self.set_high(x, median, updating);
                    return one;
                }
                return zero;
            },
            Some(high) => {
                if x.gt(high) {
                    self.set_high(x, median, updating);
                    return one;
                }
            },
        }
        self.ease_low(updating);
        self.ease_high(updating);
        if x.lt(median) {
            match self.state.min {
                Some(min) => below(x, median, min),
                None => zero,
            }
        } else if x.gt(median) {
            match self.state.max {
                Some(max) => above(x, median, max),
                None => zero,
            }
        } else {
            zero
        }
    }

    fn update_positive(&mut self, x: Single, median: Single, updating: bool) -> (r: Single)
        ensures
            final(self).median@ == old(self).median@,
            (final(self).state, r) == positive_step(old(self).state, x, median, updating),
    {
        let zero: Single = single::of(0);
        if median.same(zero) || x.le(median) {
            return zero;
        }
        match self.state.max {
            None => {
                if ((x - median) / median).gt(self.state.threshold) {
                    self.set_high(x, median, updating);
                    return single::of(single::ONE);
                }
                return zero;
            },
            Some(high) => {
                if x.gt(high) {
                    self.set_high(x, median, updating);
                    return single::of(single::ONE);
                }
            },
        }
        self.ease_high(updating);
        match self.state.max {
            Some(max) => above(x, median, max),
            None => zero,
        }
    }

    fn set_low(&mut self, x: Single, median: Single, updating: bool)
        ensures
            final(self).median == old(self).median,
            final(self).state == new_low(old(self).state, x, median, updating),
    {
        if updating {
            self.state.min = Some(x);
            self.state.hard_min = Some(x + single::of(HARD) * (median - x));
        }
    }

    fn set_high(&mut self, x: Single, median: Single, updating: bool)
        ensures
            final(self).median == old(self).median,
            final(self).state == new_high(old(self).state, x, median, updating),
    {
        if updating {
            self.state.max = Some(x);
            self.state.hard_max = Some(x - single::of(HARD) * (x - median));
        }
    }

    fn ease_low(&mut self, updating: bool)
        ensures
            final(self).median == old(self).median,
            final(self).state == eased_low(old(self).state, updating),
    {
        match (self.state.min, self.state.hard_min) {
            (Some(m), Some(h)) => {
                if updating && m.lt(h) {
                    self.state.min = Some(ease(m, h));
                }
            },
            _ => {},
        }
    }

    fn ease_high(&mut self, updating: bool)
        ensures
            final(self).median == old(self).median,
            final(self).state == eased_high(old(self).state, updating),
    {
        match (self.state.max, self.state.hard_max) {
            (Some(m), Some(h)) => {
                if updating && m.gt(h) {
                    self.state.max = Some(ease(m, h));
                }
            },
            _ => {},
        }
    }
}

fn ease(end: Single, hard: Single) -> (r: Single)
    ensures
        r == eased(end, hard),
{
    let decay: Single = single::of(DECAY);
    hard * decay + end * (single::of(single::ONE) - decay)
}

fn above(x: Single, median: Single, max: Single) -> (r: Single)
    ensures
        r == share_above(x, median, max),
{
    if (max - median).abs().lt(single::of(TINY)) {
        single::of(0)
    } else {
        (x - median) / (max - median)
    }
}

fn below(x: Single, median: Single, min: Single) -> (r: Single)
    ensures
        r == share_below(x, median, min),
{
    if (median - min).abs().lt(single::of(TINY)) {
        single::of(0)
    } else {
        (single::of(single::ONE) - (x - min) / (median - min)).negated()
    }
}

/// Once a feature has stopped learning, its median and its range stay.
pub proof fn lemma_stops_learning(f: FeatureModel, x: Single, now: Single)
    requires
        !f.state.updating,
    ensures
        ({
            let g = next(f, x, now);
            &&& g.levels == f.levels
            &&& g.state.current_median == f.state.current_median
            &&& g.state.min == f.state.min
            &&& g.state.max == f.state.max
            &&& !g.state.updating
        }),
{
    reveal(next);
}

/// The words of the eye's numbers: where a shut lid lies, how much of the last
/// result is kept, what a blink is, and what is too wide or too weak.
pub const EYE_CLOSED: u32 = 0x3da3_d70a;
pub const EYE_ALPHA: u32 = 0x3f19_999a;
pub const EYE_ALPHA_OUTLIER: u32 = 0x3f51_eb85;
pub const EYE_MEDIAN_GATE: u32 = 0x3f33_3333;
pub const EYE_FRAME_FRAC: u32 = 0x3f8f_5c29;
pub const EYE_WEAK: u32 = 0x3ecc_cccd;

/// What an eye has learned, besides its median.
#[derive(Clone, Copy, Debug)]
pub struct EyeState {
    pub last: Single,
    pub current_median: Single,
    pub max_feature_updates: Single,
    pub first_seen: Single,
    pub updating: bool,
    /// How many values in a row were out of the ordinary.
    pub outlier_run: u8,
}

/// An eye as it is reasoned about.
pub struct EyeModel {
    pub state: EyeState,
    pub levels: Seq<Seq<Single>>,
}

/// A new eye.
pub open spec fn new_eye(max_updates: Single) -> EyeModel {
    EyeModel {
        state: EyeState {
            last: single::of(0),
            current_median: single::of(0),
            max_feature_updates: max_updates,
            first_seen: single::of(MINUS_ONE),
            updating: true,
            outlier_run: 0,
        },
        levels: fresh(),
    }
}

pub open spec fn eye_value_spec(x: Single, median: Single) -> Single {
    let zero = single::of(0);
    let one = single::of(single::ONE);
    if median.abs().lt(single::of(TINY)) || x.ge(median) {
        zero
    } else {
        ((x - median) / (median * (one - single::of(EYE_CLOSED)))).clamp(one.negated(), zero)
    }
}

/// How far an eye is shut: nothing at the open median, minus one at a shut lid, and
/// everything in between.
#[verifier::when_used_as_spec(eye_value_spec)]
pub fn eye_value(x: Single, median: Single) -> (r: Single)
    ensures
        r == eye_value_spec(x, median),
{
    let zero: Single = single::of(0);
    let one: Single = single::of(single::ONE);
    if median.abs().lt(single::of(TINY)) || x.ge(median) {
        zero
    } else {
        ((x - median) / (median * (one - single::of(EYE_CLOSED)))).clamp(one.negated(), zero)
    }
}

/// Whether an eye looks wider than it can be.
pub open spec fn too_wide(x: Single, median: Single) -> bool {
    median.gt(single::of(TINY)) && x.gt(median * single::of(EYE_FRAME_FRAC))
}

/// Whether an eye was hardly seen.
pub open spec fn weak(conf: Option<Single>) -> bool {
    match conf {
        Some(c) => c.lt(single::of(EYE_WEAK)),
        None => false,
    }
}

/// An eye after the opening `x` at `now`, seen with confidence `conf`. Blinks, what
/// was hardly seen and what is too wide do not move the median.
#[verifier::opaque]
pub open spec fn eye_next(e: EyeModel, x: Single, now: Single, conf: Option<Single>) -> EyeModel {
    let s = e.state;
    let first_seen = seen_at(s.max_feature_updates, s.first_seen, now);
    let updating = learning(s.updating, s.max_feature_updates, first_seen, now);
    let odd = weak(conf) || too_wide(x, s.current_median);
    let run = if !odd {
        0
    } else if s.outlier_run < 255 {
        s.outlier_run + 1
    } else {
        255
    };
    let learns = updating && !odd && (s.current_median.abs().lt(single::of(TINY)) || x.ge(
        s.current_median * single::of(EYE_MEDIAN_GATE),
    ));
    let levels = if learns {
        fed(e.levels, 0, x)
    } else {
        e.levels
    };
    let median = if learns {
        settled(levels)
    } else {
        s.current_median
    };
    let alpha = if run >= 2 {
        single::of(EYE_ALPHA_OUTLIER)
    } else {
        single::of(EYE_ALPHA)
    };
    EyeModel {
        state: EyeState {
            last: s.last * alpha + eye_value(x, median) * (single::of(single::ONE) - alpha),
            current_median: median,
            first_seen,
            updating: s.updating && updating,
            outlier_run: run as u8,
            ..s
        },
        levels,
    }
}

/// How far an eye is open, without a jump at any opening.
pub struct EyeFeature {
    pub state: EyeState,
    pub median: Remedian,
}

impl EyeFeature {
    pub open spec fn view(self) -> EyeModel {
        EyeModel { state: self.state, levels: self.median@ }
    }

    pub fn new(max_feature_updates: Single) -> (r: Self)
        ensures
            r@ == new_eye(max_feature_updates),
    {
        EyeFeature {
            state: EyeState {
                last: single::of(0),
                current_median: single::of(0),
                max_feature_updates,
                first_seen: single::of(MINUS_ONE),
                updating: true,
                outlier_run: 0,
            },
            median: Remedian::new(),
        }
    }

    /// Takes in an opening.
    pub fn update(&mut self, x: Single, now: Single) -> (r: Single)
        ensures
            final(self)@ == eye_next(old(self)@, x, now, None),
            r == final(self)@.state.last,
    {
        self.update_ex(x, now, None)
    }

    /// Takes in an opening that was seen with some confidence.
    pub fn update_ex(&mut self, x: Single, now: Single, eye_conf: Option<Single>) -> (r: Single)
        ensures
            final(self)@ == eye_next(old(self)@, x, now, eye_conf),
            r == final(self)@.state.last,
    {
        proof {
            reveal(eye_next);
        }
        if self.state.max_feature_updates.gt(single::of(0)) && self.state.first_seen.lt(
            single::of(0),
        ) {
            self.state.first_seen = now;
        }
        let updating: bool = self.state.updating && (self.state.max_feature_updates.same(
            single::of(0),
        ) || (now - self.state.first_seen).lt(self.state.max_feature_updates));
        let faint: bool = match eye_conf {
            Some(c) => c.lt(single::of(EYE_WEAK)),
            None => false,
        };
        let median: Single = self.state.current_median;
        let wide: bool = median.gt(single::of(TINY)) && x.gt(median * single::of(EYE_FRAME_FRAC));
        if faint || wide {
            if self.state.outlier_run < 255 {
                self.state.outlier_run = self.state.outlier_run + 1;
            }
        } else {
            self.state.outlier_run = 0;
        }
        if updating {
            if !faint && !wide && (median.abs().lt(single::of(TINY)) || x.ge(
                median * single::of(EYE_MEDIAN_GATE),
            )) {
                self.median.push(x);
                self.state.current_median = self.median.median();
            }
        } else {
            self.state.updating = false;
        }
        let new: Single = eye_value(x, self.state.current_median);
        let alpha: Single = if self.state.outlier_run >= 2 {
            single::of(EYE_ALPHA_OUTLIER)
        } else {
            single::of(EYE_ALPHA)
        };
        self.state.last = self.state.last * alpha + new * (single::of(single::ONE) - alpha);
        self.state.last
    }
}

/// An out-of-the-ordinary opening does not move what an open eye is.
pub proof fn lemma_outlier_keeps_median(e: EyeModel, x: Single, now: Single, conf: Option<Single>)
    requires
        weak(conf) || too_wide(x, e.state.current_median),
    ensures
        eye_next(e, x, now, conf).levels == e.levels,
        eye_next(e, x, now, conf).state.current_median == e.state.current_median,
{
    reveal(eye_next);
}

/// The words of a quarter and half turn in degrees.
pub const QUARTER: u32 = 0x42b4_0000;
pub const HALF_TURN: u32 = 0x4334_0000;

/// The direction of a line as a tilt, by the arc tangent of its direction.
pub open spec fn tilt(arc: Single) -> Single {
    let half = single::of(HALF_TURN);
    let d0 = maths::degrees(geom::wrapped(arc));
    let d1 = if d0.ge(single::of(QUARTER)) {
        (d0 - half).negated()
    } else {
        d0
    };
    let d2 = if d1.le(single::of(QUARTER).negated()) {
        (d1 + half).negated()
    } else {
        d1
    };
    maths::radians(d2)
}

/// The tilt of a line, by the arc tangent of its direction.
pub fn tilt_of(arc: Single) -> (r: Single)
    requires
        arc.is_nan() || arc.abs().lt(single::of(maths::TURN)),
    ensures
        r == tilt(arc),
{
    let mut d: Single = maths::degrees(geom::angle(arc));
    if d.ge(single::of(QUARTER)) {
        d = (d - single::of(HALF_TURN)).negated();
    }
    if d.le(single::of(QUARTER).negated()) {
        d = (d + single::of(HALF_TURN)).negated();
    }
    maths::radians(d)
}

/// The tilt of a line, and the cosine and sine of its opposite, by which points are
/// turned level.
#[derive(Clone, Copy, Debug)]
pub struct Turn {
    pub tilt: Single,
    pub cos: Single,
    pub sin: Single,
}

/// The height of a point that was turned level about `origin`.
pub open spec fn levelled(origin: Seq<Single>, point: Seq<Single>, t: Turn) -> Single {
    geom::rotated((origin[0], origin[1]), (point[0], point[1]), t.cos, t.sin).1
}

fn level(origin: &[Single; 3], point: &[Single; 3], t: &Turn) -> (r: Single)
    ensures
        r == levelled(origin@, point@, *t),
{
    geom::rotate((origin[0], origin[1]), (point[0], point[1]), t.cos, t.sin).1
}

/// The gap between the lids of an eye with the given corners, of the distance
/// between them; the lids are two upper and two lower points.
pub open spec fn aspect(
    outer: Seq<Single>,
    inner: Seq<Single>,
    u0: Seq<Single>,
    u1: Seq<Single>,
    l0: Seq<Single>,
    l1: Seq<Single>,
    t: Turn,
) -> Single {
    let two = single::of(TWO);
    let gap = ((levelled(outer, u0, t) + levelled(outer, u1, t)) / two - (levelled(outer, l0, t)
        + levelled(outer, l1, t)) / two).abs();
    gap / maths::hypot(inner[0] - outer[0], inner[1] - outer[1]).max(single::of(SMALL))
}

/// How far an eye is open, of its width, once it is turned level.
pub fn eye_aspect(
    outer: &[Single; 3],
    inner: &[Single; 3],
    lids: [&[Single; 3]; 4],
    t: &Turn,
) -> (r: Single)
    ensures
        r == aspect(outer@, inner@, lids[0]@, lids[1]@, lids[2]@, lids[3]@, *t),
{
    let two: Single = single::of(TWO);
    let gap: Single = ((level(outer, lids[0], t) + level(outer, lids[1], t)) / two - (level(
        outer,
        lids[2],
        t,
    ) + level(outer, lids[3], t)) / two).abs();
    let w: Single = maths::hypot(inner[0] - outer[0], inner[1] - outer[1]).max(single::of(SMALL));
    gap / w
}

/// The number of features.
pub const FEATURE_COUNT: usize = 20;

/// The names of the features.
pub const FEATURE_NAMES: [&'static str; 20] = [
    "eye_l",
    "eye_r",
    "eyebrow_steepness_l",
    "eyebrow_updown_l",
    "eyebrow_quirk_l",
    "eyebrow_steepness_r",
    "eyebrow_updown_r",
    "eyebrow_quirk_r",
    "mouth_corner_updown_l",
    "mouth_corner_inout_l",
    "mouth_corner_updown_r",
    "mouth_corner_inout_r",
    "mouth_open",
    "mouth_wide",
    "mouth_pucker",
    "mouth_offset_x",
    "cheek_puff",
    "jaw_open",
    "mouth_funnel",
    "mouth_press_lip_open",
];

/// The places of the features.
pub const FEAT_EYE_L: usize = 0;
pub const FEAT_EYE_R: usize = 1;
pub const FEAT_BROW_STEEP_L: usize = 2;
pub const FEAT_BROW_UD_L: usize = 3;
pub const FEAT_BROW_STEEP_R: usize = 5;
pub const FEAT_BROW_UD_R: usize = 6;
pub const FEAT_CORNER_UD_L: usize = 8;
pub const FEAT_CORNER_IO_L: usize = 9;
pub const FEAT_CORNER_UD_R: usize = 10;
pub const FEAT_CORNER_IO_R: usize = 11;
pub const FEAT_MOUTH_OPEN: usize = 12;
pub const FEAT_MOUTH_WIDE: usize = 13;
pub const FEAT_MOUTH_PUCKER: usize = 14;
pub const FEAT_MOUTH_OFFSET_X: usize = 15;
pub const FEAT_CHEEK_PUFF: usize = 16;
pub const FEAT_JAW_OPEN: usize = 17;
pub const FEAT_MOUTH_FUNNEL: usize = 18;
pub const FEAT_MOUTH_PRESS_LIP_OPEN: usize = 19;

/// The values of all features.
pub type FeatureVec = [Single; 20];

/// The words of the weights and gates of the mouth features.
pub const OFFSET_BIAS: u32 = 0x3f80_0000;
pub const PUCKER_Z_WEIGHT: u32 = 0x3f00_0000;
pub const CHEEK_Z_WEIGHT: u32 = 0x3f00_0000;
pub const CHEEK_SMILE_GATE: u32 = 0x3e99_999a;
pub const CHEEK_OPEN_GATE: u32 = 0x3f00_0000;
pub const FUNNEL_NARROW_FRAC: u32 = 0x3f6b_851f;
pub const FUNNEL_GAP_MIN: u32 = 0x3e4c_cccd;
pub const PRESS_W: u32 = 0x3f4c_cccd;
pub const PRESS_LIP_BIAS: u32 = 0x40c0_0000;

/// The turns of the lines that points are levelled by: the eyes, from jaw to jaw,
/// across the nose, and the brows.
#[derive(Clone, Copy, Debug)]
pub struct Turns {
    pub eye_l: Turn,
    pub eye_r: Turn,
    pub jaw: Turn,
    pub nose: Turn,
    pub brow_l: Turn,
    pub brow_r: Turn,
}

/// The end points of the lines that the turns are of.
pub const TURN_LINES: [[usize; 2]; 6] = [[42, 45], [36, 39], [0, 16], [31, 35], [22, 26], [17, 21]];

/// The width that distances across are measured in.
pub open spec fn norm_x(p: Seq<[Single; 3]>) -> Single {
    (((p[0][0] - p[16][0]) + (p[1][0] - p[15][0])) / single::of(TWO)).abs().max(single::of(SMALL))
}

/// The height that distances up and down are measured in.
pub open spec fn norm_y(p: Seq<[Single; 3]>) -> Single {
    (((p[27][1] - p[28][1]) + (p[28][1] - p[29][1]) + (p[29][1] - p[30][1])) / single::of(
        THREE,
    )).abs().max(single::of(SMALL))
}

/// The width and the height that distances in a face are measured in.
pub fn face_norm_basis(p: &[[Single; 3]]) -> (r: (Single, Single))
    requires
        p@.len() >= 31,
    ensures
        r.0 == norm_x(p@),
        r.1 == norm_y(p@),
{
    let nx: Single = (((p[0][0] - p[16][0]) + (p[1][0] - p[15][0])) / single::of(TWO)).abs().max(
        single::of(SMALL),
    );
    let ny: Single = (((p[27][1] - p[28][1]) + (p[28][1] - p[29][1]) + (p[29][1] - p[30][1]))
        / single::of(THREE)).abs().max(single::of(SMALL));
    (nx, ny)
}

/// The mean of three heights.
pub open spec fn mean3(p: Seq<[Single; 3]>, a: int, b: int, c: int) -> Single {
    (p[a][1] + p[b][1] + p[c][1]) / single::of(THREE)
}

fn mean_y(p: &[[Single; 3]], a: usize, b: usize, c: usize) -> (r: Single)
    requires
        a < p@.len(),
        b < p@.len(),
        c < p@.len(),
    ensures
        r == mean3(p@, a as int, b as int, c as int),
{
    (p[a][1] + p[b][1] + p[c][1]) / single::of(THREE)
}

/// How far the left eye is open.
pub open spec fn open_l(p: Seq<[Single; 3]>, t: Turns) -> Single {
    aspect(p[42]@, p[45]@, p[43]@, p[44]@, p[47]@, p[46]@, t.eye_l)
}

/// How far the right eye is open.
pub open spec fn open_r(p: Seq<[Single; 3]>, t: Turns) -> Single {
    aspect(p[36]@, p[39]@, p[37]@, p[38]@, p[41]@, p[40]@, t.eye_r)
}

/// The tilt of the face in degrees.
pub open spec fn face_tilt(t: Turns) -> Single {
    (maths::degrees(t.eye_l.tilt) + maths::degrees(t.eye_r.tilt) + maths::degrees(t.jaw.tilt)
        + maths::degrees(t.nose.tilt)) / single::of(FOUR)
}

/// How far the inner points of a brow that begins at point `a` rise above its
/// first, once it is level.
pub open spec fn bend(p: Seq<[Single; 3]>, a: int, t: Turn) -> Single {
    let y0 = levelled(p[a]@, p[a]@, t);
    single::of(0).max((levelled(p[a]@, p[a + 1]@, t) - y0).abs()).max(
        (levelled(p[a]@, p[a + 2]@, t) - y0).abs(),
    ).max((levelled(p[a]@, p[a + 3]@, t) - y0).abs()) / norm_y(p)
}

fn brow_bend(p: &[[Single; 3]], a: usize, t: &Turn, ny: Single) -> (r: Single)
    requires
        a + 3 < p@.len() <= usize::MAX,
        ny == norm_y(p@),
    ensures
        r == bend(p@, a as int, *t),
{
    let y0: Single = level(&p[a], &p[a], t);
    single::of(0).max((level(&p[a], &p[a + 1], t) - y0).abs()).max(
        (level(&p[a], &p[a + 2], t) - y0).abs(),
    ).max((level(&p[a], &p[a + 3], t) - y0).abs()) / ny
}

/// How far a brow lies above the bridge of the nose.
pub open spec fn brow_height(p: Seq<[Single; 3]>, a: int, b: int) -> Single {
    ((p[a][1] + p[b][1]) / single::of(TWO) - p[27][1]) / norm_y(p)
}

/// How far a corner of the mouth lies below the upper lip.
pub open spec fn corner_height(p: Seq<[Single; 3]>, a: int) -> Single {
    (mean3(p, 49, 50, 51) - p[a][1]) / norm_y(p)
}

/// How far a corner of the mouth lies from the middle of the face.
pub open spec fn corner_width(p: Seq<[Single; 3]>, a: int) -> Single {
    let middle = (p[50][0] + p[60][0] + p[27][0] + p[30][0] + p[64][0] + p[55][0]) / single::of(
        SIX,
    );
    (middle - p[a][0]).abs() / norm_x(p)
}

/// The gap between the lips.
pub open spec fn lip_gap(p: Seq<[Single; 3]>) -> Single {
    (mean3(p, 59, 60, 61) - mean3(p, 63, 64, 65)).abs() / norm_y(p)
}

/// The width of the mouth.
pub open spec fn mouth_width(p: Seq<[Single; 3]>) -> Single {
    (p[58][0] - p[62][0]).abs() / norm_x(p)
}

/// How narrow the mouth is and how far it comes forward.
pub open spec fn pucker(p: Seq<[Single; 3]>) -> Single {
    let z = (p[48][2] + p[52][2] + p[58][2] + p[62][2]) / single::of(FOUR) - p[30][2];
    single::of(single::ONE) - mouth_width(p) + single::of(PUCKER_Z_WEIGHT) * z
}

/// How far the chin lies below the nose.
pub open spec fn jaw_drop(p: Seq<[Single; 3]>) -> Single {
    (p[30][1] - p[8][1]).abs() / norm_y(p)
}

/// How far the lips show the teeth or are pressed together.
pub open spec fn lip_press(p: Seq<[Single; 3]>) -> Single {
    let ny = norm_y(p);
    let upper_outer = mean3(p, 49, 50, 51);
    let lower_outer = mean3(p, 54, 55, 56);
    let inner_upper = mean3(p, 59, 60, 61);
    let inner_lower = mean3(p, 63, 64, 65);
    (p[30][1] - upper_outer).negated() / ny - (lower_outer - p[8][1]) / ny + single::of(PRESS_W) * (
    (upper_outer - inner_upper) + (inner_lower - lower_outer)) / ny + single::of(PRESS_LIP_BIAS)
}

/// How far the mouth lies to the side.
pub open spec fn mouth_shift(p: Seq<[Single; 3]>) -> Single {
    (p[50][0] + p[55][0] + p[58][0] + p[60][0] + p[62][0] + p[64][0]) / single::of(SIX) / norm_x(p)
        + single::of(OFFSET_BIAS)
}

/// How full the cheeks are.
pub open spec fn cheek_fill(p: Seq<[Single; 3]>) -> Single {
    let span = ((p[2][0] - p[14][0]).abs() + (p[3][0] - p[13][0]).abs()) / single::of(TWO);
    let z = (p[2][2] + p[3][2] + p[4][2] + p[12][2] + p[13][2] + p[14][2]) / single::of(SIX);
    span / (p[36][0] - p[45][0]).abs().max(single::of(SMALL)) + single::of(CHEEK_Z_WEIGHT) * z
}

/// The round opening of the mouth, gated: nothing unless the mouth is narrower than
/// usual and open.
pub open spec fn gated_funnel(value: Single, rest_w: Single, mouth_w: Single, gap: Single)
    -> Single {
    if rest_w.le(single::of(SMALL)) || mouth_w.ge(rest_w * single::of(FUNNEL_NARROW_FRAC))
        || gap.lt(single::of(FUNNEL_GAP_MIN)) {
        single::of(0)
    } else {
        value
    }
}

/// Whether what the mouth does forbids pressed lips.
pub open spec fn no_press(pucker: Single, wide: Single, gap: Single, jaw: Single) -> bool {
    let gate = single::of(CHEEK_SMILE_GATE);
    pucker.gt(gate) || wide.gt(gate) || gap.gt(single::of(FUNNEL_GAP_MIN)) || jaw.gt(gate)
}

/// The press of the lips that is learned: kept to one side of its median where the
/// mouth is round or does something else.
pub open spec fn learned_press(raw: Single, med: Single, funnel: Single, blocked: bool) -> Single {
    if med.abs().gt(single::of(SMALL)) {
        let a = if funnel.gt(single::of(0)) {
            raw.min(med)
        } else {
            raw
        };
        if blocked {
            a.max(med)
        } else {
            a
        }
    } else {
        raw
    }
}

/// The press of the lips that is shown.
pub open spec fn shown_press(value: Single, funnel: Single, blocked: bool) -> Single {
    let zero = single::of(0);
    let a = if funnel.gt(zero) {
        value.min(zero)
    } else {
        value
    };
    if blocked {
        a.max(zero)
    } else {
        a
    }
}

/// The cheeks that are shown: nothing in a smile or an open mouth, and never less.
pub open spec fn shown_cheeks(value: Single, wide: Single, open: Single) -> Single {
    if wide.gt(single::of(CHEEK_SMILE_GATE)) || open.gt(single::of(CHEEK_OPEN_GATE)) {
        single::of(0)
    } else {
        value.max(single::of(0))
    }
}

/// All features of a face.
pub struct FeatureExtractor {
    pub eye_l: EyeFeature,
    pub eye_r: EyeFeature,
    pub eyebrow_updown_l: Feature,
    pub eyebrow_updown_r: Feature,
    pub eyebrow_quirk_l: Feature,
    pub eyebrow_quirk_r: Feature,
    pub eyebrow_steepness_l: Feature,
    pub eyebrow_steepness_r: Feature,
    pub mouth_corner_updown_l: Feature,
    pub mouth_corner_updown_r: Feature,
    pub mouth_corner_inout_l: Feature,
    pub mouth_corner_inout_r: Feature,
    pub mouth_open: Feature,
    pub mouth_wide: Feature,
    pub mouth_pucker: Feature,
    pub mouth_offset_x: Feature,
    pub cheek_puff: Feature,
    pub jaw_open: Feature,
    pub mouth_funnel: Feature,
    pub mouth_press_lip_open: Feature,
}

/// A new feature, as it is reasoned about.
pub open spec fn new_feature(threshold: u32, max_updates: Single, one_sided: bool) -> FeatureModel {
    FeatureModel {
        state: new_state(single::of(threshold), max_updates, one_sided),
        levels: fresh(),
    }
}

impl FeatureExtractor {
    /// Whether nothing has been learned yet.
    pub open spec fn is_new(self, max_feature_updates: Single) -> bool {
        &&& self.eye_l@ == new_eye(max_feature_updates)
        &&& self.eye_r@ == new_eye(max_feature_updates)
        &&& self.eyebrow_updown_l@ == new_feature(TH_WIDE, max_feature_updates, false)
        &&& self.eyebrow_updown_r@ == new_feature(TH_WIDE, max_feature_updates, false)
        &&& self.eyebrow_quirk_l@ == new_feature(TH_MID, max_feature_updates, false)
        &&& self.eyebrow_quirk_r@ == new_feature(TH_MID, max_feature_updates, false)
        &&& self.eyebrow_steepness_l@ == new_feature(TH_MID, max_feature_updates, false)
        &&& self.eyebrow_steepness_r@ == new_feature(TH_MID, max_feature_updates, false)
        &&& self.mouth_corner_updown_l@ == new_feature(TH_WIDE, max_feature_updates, false)
        &&& self.mouth_corner_updown_r@ == new_feature(TH_WIDE, max_feature_updates, false)
        &&& self.mouth_corner_inout_l@ == new_feature(TH_FINE, max_feature_updates, false)
        &&& self.mouth_corner_inout_r@ == new_feature(TH_FINE, max_feature_updates, false)
        &&& self.mouth_open@ == new_feature(TH_WIDE, max_feature_updates, false)
        &&& self.mouth_wide@ == new_feature(TH_FINE, max_feature_updates, false)
        &&& self.mouth_pucker@ == new_feature(TH_FINE, max_feature_updates, false)
        &&& self.mouth_offset_x@ == new_feature(TH_FINE, max_feature_updates, false)
        &&& self.cheek_puff@ == new_feature(TH_FINE, max_feature_updates, false)
        &&& self.jaw_open@ == new_feature(TH_WIDE, max_feature_updates, true)
        &&& self.mouth_funnel@ == new_feature(TH_MID, max_feature_updates, true)
        &&& self.mouth_press_lip_open@ == new_feature(TH_MID, max_feature_updates, false)
    }

    /// Features that have learned nothing yet.
    pub fn new(max_feature_updates: Single) -> (r: Self)
        ensures
            r.is_new(max_feature_updates),
    {
        let m: Single = max_feature_updates;
        let wide: Single = single::of(TH_WIDE);
        let mid: Single = single::of(TH_MID);
        let fine: Single = single::of(TH_FINE);
        FeatureExtractor {
            eye_l: EyeFeature::new(m),
            eye_r: EyeFeature::new(m),
            eyebrow_updown_l: Feature::new(wide, m),
            eyebrow_updown_r: Feature::new(wide, m),
            eyebrow_quirk_l: Feature::new(mid, m),
            eyebrow_quirk_r: Feature::new(mid, m),
            eyebrow_steepness_l: Feature::new(mid, m),
            eyebrow_steepness_r: Feature::new(mid, m),
            mouth_corner_updown_l: Feature::new(wide, m),
            mouth_corner_updown_r: Feature::new(wide, m),
            mouth_corner_inout_l: Feature::new(fine, m),
            mouth_corner_inout_r: Feature::new(fine, m),
            mouth_open: Feature::new(wide, m),
            mouth_wide: Feature::new(fine, m),
            mouth_pucker: Feature::new(fine, m),
            mouth_offset_x: Feature::new(fine, m),
            cheek_puff: Feature::new(fine, m),
            jaw_open: Feature::new_positive(wide, m),
            mouth_funnel: Feature::new_positive(mid, m),
            mouth_press_lip_open: Feature::new(mid, m),
        }
    }

    /// Takes in the points of a face at `now` and gives all features.
    pub fn update(&mut self, pts: &[[Single; 3]], full: bool, now: Single, turns: &Turns) -> (r:
        FeatureVec)
        requires
            pts@.len() >= 66,
        ensures
            updated(*old(self), *final(self), r@, pts@, full, None, now, *turns),
    {
        self.update_ex(pts, full, None, now, turns)
    }

    /// Takes in the points of a face at `now`, whose eyes were seen with some
    /// confidence, and gives all features. Without `full` the steepness and bend of
    /// the brows and the width of the corners of the mouth are left out.
    pub fn update_ex(
        &mut self,
        pts: &[[Single; 3]],
        full: bool,
        eye_conf: Option<Single>,
        now: Single,
        turns: &Turns,
    ) -> (r: FeatureVec)
        requires
            pts@.len() >= 66,
        ensures
            updated(*old(self), *final(self), r@, pts@, full, eye_conf, now, *turns),
    {
        let m: Measures = measure(pts, turns);
        let u: [Single; 8] = self.update_upper(&m, full, eye_conf, now);
        let l: [Single; 12] = self.update_mouth(&m, full, now);
        [
            u[0], u[1], u[2], u[3], u[4], u[5], u[6], u[7],
            l[0], l[1], l[2], l[3], l[4], l[5], l[6], l[7], l[8], l[9], l[10], l[11],
        ]
    }

    /// Takes in what was measured of eyes and brows.
    fn update_upper(&mut self, m: &Measures, full: bool, eye_conf: Option<Single>, now: Single) -> (r:
        [Single; 8])
        ensures
            upper_updated(*old(self), *final(self), r@, *m, full, eye_conf, now),
            same_mouth(*old(self), *final(self)),
    {
        let zero: Single = single::of(0);
        let eye_l: Single = self.eye_l.update_ex(m.open_l, now, eye_conf);
        let eye_r: Single = self.eye_r.update_ex(m.open_r, now, eye_conf);
        let mut steep_l: Single = zero;
        let mut quirk_l: Single = zero;
        let mut steep_r: Single = zero;
        let mut quirk_r: Single = zero;
        if full {
            steep_l = self.eyebrow_steepness_l.update(m.steep_l, now);
            quirk_l = self.eyebrow_quirk_l.update(m.bend_l, now);
            steep_r = self.eyebrow_steepness_r.update(m.steep_r, now);
            quirk_r = self.eyebrow_quirk_r.update(m.bend_r, now);
        }
        let up_l: Single = self.eyebrow_updown_l.update(m.brow_l, now);
        let up_r: Single = self.eyebrow_updown_r.update(m.brow_r, now);
        [eye_l, eye_r, steep_l, up_l, quirk_l, steep_r, up_r, quirk_r]
    }

    /// Takes in what was measured of mouth, jaw and cheeks.
    fn update_mouth(&mut self, m: &Measures, full: bool, now: Single) -> (r: [Single; 12])
        ensures
            mouth_updated(*old(self), *final(self), r@, 0, *m, full, now),
            same_upper(*old(self), *final(self)),
    {
        let zero: Single = single::of(0);
        let m_ud_l: Single = self.mouth_corner_updown_l.update(m.corner_l, now);
        let mut m_io_l: Single = zero;
        if full {
            m_io_l = self.mouth_corner_inout_l.update(m.side_l, now);
        }
        let m_ud_r: Single = self.mouth_corner_updown_r.update(m.corner_r, now);
        let mut m_io_r: Single = zero;
        if full {
            m_io_r = self.mouth_corner_inout_r.update(m.side_r, now);
        }
        let mouth_open: Single = self.mouth_open.update(m.gap, now);
        let mouth_wide: Single = self.mouth_wide.update(m.width, now);
        let mouth_pucker: Single = self.mouth_pucker.update(m.pucker, now);
        let jaw_open: Single = self.jaw_open.update(m.jaw, now);
        let round: Single = self.mouth_funnel.update(
            m.gap * (single::of(single::ONE) - m.width),
            now,
        );
        let mouth_funnel: Single = funnel_gate(round, self.mouth_wide.raw_median(), m.width, m.gap);
        let blocked: bool = press_blocked(mouth_pucker, mouth_wide, m.gap, jaw_open);
        let press: Single = press_learned(
            m.press,
            self.mouth_press_lip_open.raw_median(),
            mouth_funnel,
            blocked,
        );
        let lips: Single = self.mouth_press_lip_open.update(press, now);
        let lip_open: Single = press_shown(lips, mouth_funnel, blocked);
        let mouth_offset_x: Single = self.mouth_offset_x.update(m.shift, now);
        let cheeks: Single = self.cheek_puff.update(m.cheeks, now);
        let cheek_puff: Single = cheeks_shown(cheeks, mouth_wide, mouth_open);
        [
            m_ud_l,
            m_io_l,
            m_ud_r,
            m_io_r,
            mouth_open,
            mouth_wide,
            mouth_pucker,
            mouth_offset_x,
            cheek_puff,
            jaw_open,
            mouth_funnel,
            lip_open,
        ]
    }
}

fn funnel_gate(value: Single, rest_w: Single, mouth_w: Single, gap: Single) -> (r: Single)
    ensures
        r == gated_funnel(value, rest_w, mouth_w, gap),
{
    if rest_w.le(single::of(SMALL)) || mouth_w.ge(rest_w * single::of(FUNNEL_NARROW_FRAC))
        || gap.lt(single::of(FUNNEL_GAP_MIN)) {
        single::of(0)
    } else {
        value
    }
}

fn press_blocked(pucker: Single, wide: Single, gap: Single, jaw: Single) -> (r: bool)
    ensures
        r == no_press(pucker, wide, gap, jaw),
{
    let gate: Single = single::of(CHEEK_SMILE_GATE);
    pucker.gt(gate) || wide.gt(gate) || gap.gt(single::of(FUNNEL_GAP_MIN)) || jaw.gt(gate)
}

fn press_learned(raw: Single, med: Single, funnel: Single, blocked: bool) -> (r: Single)
    ensures
        r == learned_press(raw, med, funnel, blocked),
{
    let mut v: Single = raw;
    if med.abs().gt(single::of(SMALL)) {
        if funnel.gt(single::of(0)) {
            v = v.min(med);
        }
        if blocked {
            v = v.max(med);
        }
    }
    v
}

fn press_shown(value: Single, funnel: Single, blocked: bool) -> (r: Single)
    ensures
        r == shown_press(value, funnel, blocked),
{
    let zero: Single = single::of(0);
    let mut v: Single = value;
    if funnel.gt(zero) {
        v = v.min(zero);
    }
    if blocked {
        v = v.max(zero);
    }
    v
}

fn cheeks_shown(value: Single, wide: Single, open: Single) -> (r: Single)
    ensures
        r == shown_cheeks(value, wide, open),
{
    if wide.gt(single::of(CHEEK_SMILE_GATE)) || open.gt(single::of(CHEEK_OPEN_GATE)) {
        single::of(0)
    } else {
        value.max(single::of(0))
    }
}

/// Everything that is measured of the points of a face.
pub struct Measures {
    pub open_l: Single,
    pub open_r: Single,
    pub steep_l: Single,
    pub steep_r: Single,
    pub bend_l: Single,
    pub bend_r: Single,
    pub brow_l: Single,
    pub brow_r: Single,
    pub corner_l: Single,
    pub corner_r: Single,
    pub side_l: Single,
    pub side_r: Single,
    pub gap: Single,
    pub width: Single,
    pub pucker: Single,
    pub jaw: Single,
    pub press: Single,
    pub shift: Single,
    pub cheeks: Single,
}

/// What is measured of points whose lines have the given turns.
#[verifier::opaque]
pub open spec fn measures_of(p: Seq<[Single; 3]>, t: Turns) -> Measures {
    Measures {
        open_l: open_l(p, t),
        open_r: open_r(p, t),
        steep_l: maths::degrees(t.brow_l.tilt).negated() - face_tilt(t),
        steep_r: maths::degrees(t.brow_r.tilt) - face_tilt(t),
        bend_l: bend(p, 22, t.brow_l),
        bend_r: bend(p, 17, t.brow_r),
        brow_l: brow_height(p, 22, 26),
        brow_r: brow_height(p, 17, 21),
        corner_l: corner_height(p, 62),
        corner_r: corner_height(p, 58),
        side_l: corner_width(p, 62),
        side_r: corner_width(p, 58),
        gap: lip_gap(p),
        width: mouth_width(p),
        pucker: pucker(p),
        jaw: jaw_drop(p),
        press: lip_press(p),
        shift: mouth_shift(p),
        cheeks: cheek_fill(p),
    }
}

/// Measures the points of a face.
pub fn measure(pts: &[[Single; 3]], turns: &Turns) -> (m: Measures)
    requires
        pts@.len() >= 66,
    ensures
        m == measures_of(pts@, *turns),
{
    proof {
        reveal(measures_of);
    }
    let two: Single = single::of(TWO);
    let four: Single = single::of(FOUR);
    let six: Single = single::of(SIX);
    let small: Single = single::of(SMALL);
    let nx: Single = (((pts[0][0] - pts[16][0]) + (pts[1][0] - pts[15][0])) / two).abs().max(small);
    let ny: Single = (((pts[27][1] - pts[28][1]) + (pts[28][1] - pts[29][1]) + (pts[29][1]
        - pts[30][1])) / single::of(THREE)).abs().max(small);
    let norm: Single = (maths::degrees(turns.eye_l.tilt) + maths::degrees(turns.eye_r.tilt)
        + maths::degrees(turns.jaw.tilt) + maths::degrees(turns.nose.tilt)) / four;
    let upper: Single = mean_y(pts, 49, 50, 51);
    let lower: Single = mean_y(pts, 54, 55, 56);
    let inner_upper: Single = mean_y(pts, 59, 60, 61);
    let inner_lower: Single = mean_y(pts, 63, 64, 65);
    let middle: Single = (pts[50][0] + pts[60][0] + pts[27][0] + pts[30][0] + pts[64][0]
        + pts[55][0]) / six;
    let width: Single = (pts[58][0] - pts[62][0]).abs() / nx;
    let lip_z: Single = (pts[48][2] + pts[52][2] + pts[58][2] + pts[62][2]) / four - pts[30][2];
    let mouth_cx: Single = (pts[50][0] + pts[55][0] + pts[58][0] + pts[60][0] + pts[62][0]
        + pts[64][0]) / six;
    let eye_span: Single = (pts[36][0] - pts[45][0]).abs().max(small);
    let cheek_span: Single = ((pts[2][0] - pts[14][0]).abs() + (pts[3][0] - pts[13][0]).abs()) / two;
    let cheek_z: Single = (pts[2][2] + pts[3][2] + pts[4][2] + pts[12][2] + pts[13][2] + pts[14][2])
        / six;
    Measures {
        open_l: eye_aspect(
            &pts[42],
            &pts[45],
            [&pts[43], &pts[44], &pts[47], &pts[46]],
            &turns.eye_l,
        ),
        open_r: eye_aspect(
            &pts[36],
            &pts[39],
            [&pts[37], &pts[38], &pts[41], &pts[40]],
            &turns.eye_r,
        ),
        steep_l: maths::degrees(turns.brow_l.tilt).negated() - norm,
        steep_r: maths::degrees(turns.brow_r.tilt) - norm,
        bend_l: brow_bend(pts, 22, &turns.brow_l, ny),
        bend_r: brow_bend(pts, 17, &turns.brow_r, ny),
        brow_l: ((pts[22][1] + pts[26][1]) / two - pts[27][1]) / ny,
        brow_r: ((pts[17][1] + pts[21][1]) / two - pts[27][1]) / ny,
        corner_l: (upper - pts[62][1]) / ny,
        corner_r: (upper - pts[58][1]) / ny,
        side_l: (middle - pts[62][0]).abs() / nx,
        side_r: (middle - pts[58][0]).abs() / nx,
        gap: (inner_upper - inner_lower).abs() / ny,
        width,
        pucker: single::of(single::ONE) - width + single::of(PUCKER_Z_WEIGHT) * lip_z,
        jaw: (pts[30][1] - pts[8][1]).abs() / ny,
        press: (pts[30][1] - upper).negated() / ny - (lower - pts[8][1]) / ny + single::of(PRESS_W)
            * ((upper - inner_upper) + (inner_lower - lower)) / ny + single::of(PRESS_LIP_BIAS),
        shift: mouth_cx / nx + single::of(OFFSET_BIAS),
        cheeks: cheek_span / eye_span + single::of(CHEEK_Z_WEIGHT) * cheek_z,
    }
}

/// A feature after a value where it is taken in, else as it was.
pub open spec fn next_if(on: bool, f: FeatureModel, x: Single, now: Single) -> FeatureModel {
    if on {
        next(f, x, now)
    } else {
        f
    }
}

/// The result of a feature where it is taken in, else nothing.
pub open spec fn last_if(on: bool, f: FeatureModel) -> Single {
    if on {
        f.state.last
    } else {
        single::of(0)
    }
}

/// Whether eyes and brows are the same.
pub open spec fn same_upper(a: FeatureExtractor, b: FeatureExtractor) -> bool {
    &&& a.eye_l == b.eye_l && a.eye_r == b.eye_r
    &&& a.eyebrow_updown_l == b.eyebrow_updown_l && a.eyebrow_updown_r == b.eyebrow_updown_r
    &&& a.eyebrow_quirk_l == b.eyebrow_quirk_l && a.eyebrow_quirk_r == b.eyebrow_quirk_r
    &&& a.eyebrow_steepness_l == b.eyebrow_steepness_l
    &&& a.eyebrow_steepness_r == b.eyebrow_steepness_r
}

/// Whether mouth, jaw and cheeks are the same.
pub open spec fn same_mouth(a: FeatureExtractor, b: FeatureExtractor) -> bool {
    &&& a.mouth_corner_updown_l == b.mouth_corner_updown_l
    &&& a.mouth_corner_updown_r == b.mouth_corner_updown_r
    &&& a.mouth_corner_inout_l == b.mouth_corner_inout_l
    &&& a.mouth_corner_inout_r == b.mouth_corner_inout_r
    &&& a.mouth_open == b.mouth_open && a.mouth_wide == b.mouth_wide
    &&& a.mouth_pucker == b.mouth_pucker && a.mouth_offset_x == b.mouth_offset_x
    &&& a.cheek_puff == b.cheek_puff && a.jaw_open == b.jaw_open
    &&& a.mouth_funnel == b.mouth_funnel && a.mouth_press_lip_open == b.mouth_press_lip_open
}

/// What one face does to eyes and brows: `a` before, `b` after, and the results at the start of `r`.
pub open spec fn upper_updated(
    a: FeatureExtractor,
    b: FeatureExtractor,
    r: Seq<Single>,
    m: Measures,
    full: bool,
    conf: Option<Single>,
    now: Single,
) -> bool {
    &&& b.eye_l@ == eye_next(a.eye_l@, m.open_l, now, conf)
    &&& r[0] == b.eye_l@.state.last
    &&& b.eye_r@ == eye_next(a.eye_r@, m.open_r, now, conf)
    &&& r[1] == b.eye_r@.state.last
    &&& b.eyebrow_steepness_l@ == next_if(full, a.eyebrow_steepness_l@, m.steep_l, now)
    &&& r[2] == last_if(full, b.eyebrow_steepness_l@)
    &&& b.eyebrow_updown_l@ == next(a.eyebrow_updown_l@, m.brow_l, now)
    &&& r[3] == b.eyebrow_updown_l@.state.last
    &&& b.eyebrow_quirk_l@ == next_if(full, a.eyebrow_quirk_l@, m.bend_l, now)
    &&& r[4] == last_if(full, b.eyebrow_quirk_l@)
    &&& b.eyebrow_steepness_r@ == next_if(full, a.eyebrow_steepness_r@, m.steep_r, now)
    &&& r[5] == last_if(full, b.eyebrow_steepness_r@)
    &&& b.eyebrow_updown_r@ == next(a.eyebrow_updown_r@, m.brow_r, now)
    &&& r[6] == b.eyebrow_updown_r@.state.last
    &&& b.eyebrow_quirk_r@ == next_if(full, a.eyebrow_quirk_r@, m.bend_r, now)
    &&& r[7] == last_if(full, b.eyebrow_quirk_r@)
}

/// What one face does to mouth, jaw and cheeks: `a` before, `b` after, and the results in `r` from
/// place `o` on.
pub open spec fn mouth_updated(
    a: FeatureExtractor,
    b: FeatureExtractor,
    r: Seq<Single>,
    o: int,
    m: Measures,
    full: bool,
    now: Single,
) -> bool {
    let funnel = gated_funnel(
        b.mouth_funnel@.state.last,
        b.mouth_wide@.state.current_median,
        m.width,
        m.gap,
    );
    let blocked = no_press(
        b.mouth_pucker@.state.last,
        b.mouth_wide@.state.last,
        m.gap,
        b.jaw_open@.state.last,
    );
    &&& b.mouth_corner_updown_l@ == next(a.mouth_corner_updown_l@, m.corner_l, now)
    &&& r[o] == b.mouth_corner_updown_l@.state.last
    &&& b.mouth_corner_inout_l@ == next_if(full, a.mouth_corner_inout_l@, m.side_l, now)
    &&& r[o + 1] == last_if(full, b.mouth_corner_inout_l@)
    &&& b.mouth_corner_updown_r@ == next(a.mouth_corner_updown_r@, m.corner_r, now)
    &&& r[o + 2] == b.mouth_corner_updown_r@.state.last
    &&& b.mouth_corner_inout_r@ == next_if(full, a.mouth_corner_inout_r@, m.side_r, now)
    &&& r[o + 3] == last_if(full, b.mouth_corner_inout_r@)
    &&& b.mouth_open@ == next(a.mouth_open@, m.gap, now)
    &&& r[o + 4] == b.mouth_open@.state.last
    &&& b.mouth_wide@ == next(a.mouth_wide@, m.width, now)
    &&& r[o + 5] == b.mouth_wide@.state.last
    &&& b.mouth_pucker@ == next(a.mouth_pucker@, m.pucker, now)
    &&& r[o + 6] == b.mouth_pucker@.state.last
    &&& b.mouth_offset_x@ == next(a.mouth_offset_x@, m.shift, now)
    &&& r[o + 7] == b.mouth_offset_x@.state.last
    &&& b.cheek_puff@ == next(a.cheek_puff@, m.cheeks, now)
    &&& r[o + 8] == shown_cheeks(
        b.cheek_puff@.state.last,
        b.mouth_wide@.state.last,
        b.mouth_open@.state.last,
    )
    &&& b.jaw_open@ == next(a.jaw_open@, m.jaw, now)
    &&& r[o + 9] == b.jaw_open@.state.last
    &&& b.mouth_funnel@ == next(
        a.mouth_funnel@,
        m.gap * (single::of(single::ONE) - m.width),
        now,
    )
    &&& r[o + 10] == funnel
    &&& b.mouth_press_lip_open@ == next(
        a.mouth_press_lip_open@,
        learned_press(
            m.press,
            a.mouth_press_lip_open@.state.current_median,
            funnel,
            blocked,
        ),
        now,
    )
    &&& r[o + 11] == shown_press(b.mouth_press_lip_open@.state.last, funnel, blocked)
}

/// What one face does to the features: `a` before, `b` after, `r` the results.
pub open spec fn updated(
    a: FeatureExtractor,
    b: FeatureExtractor,
    r: Seq<Single>,
    p: Seq<[Single; 3]>,
    full: bool,
    conf: Option<Single>,
    now: Single,
    t: Turns,
) -> bool {
    let m = measures_of(p, t);
    &&& r.len() == 20
    &&& upper_updated(a, b, r, m, full, conf, now)
    &&& mouth_updated(a, b, r, 8, m, full, now)
}

/// The mean of a value with itself is the value.
proof fn lemma_median_of_one(x: Single)
    requires
        (x + x).is_finite(),
    ensures
        x.is_finite(),
        settled(fed(fresh(), 0, x)) == x,
{
    let l = fresh()[0].push(x);
    assert(fed(fresh(), 0, x).last() == l);
    assert(l.drop_last() =~= Seq::empty());
    assert(sorted(l.drop_last()) =~= Seq::empty());
    assert(sorted(l) =~= seq![x]);
    order::lemma_half_of_double(x);
}

/// A first value says nothing: the result of a feature that has learned nothing yet is zero.
pub proof fn lemma_first_value(threshold: u32, max_updates: Single, one_sided: bool, x: Single, now: Single)
    requires
        (x + x).is_finite(),
    ensures
        next(new_feature(threshold, max_updates, one_sided), x, now).state.last == single::of(0),
{
    reveal(next);
    lemma_median_of_one(x);
    lemma_nothing_weighed(single::of(ALPHA));
}

/// A first opening says nothing: the result of an eye that has learned nothing yet is zero.
pub proof fn lemma_first_opening(max_updates: Single, x: Single, now: Single, conf: Option<Single>)
    requires
        (x + x).is_finite(),
    ensures
        eye_next(new_eye(max_updates), x, now, conf).state.last == single::of(0),
{
    reveal(eye_next);
    lemma_median_of_one(x);
    assert(single::of(0).abs() == single::of(0));
    lemma_nothing_weighed(single::of(EYE_ALPHA));
    lemma_nothing_weighed(single::of(EYE_ALPHA_OUTLIER));
}

pub proof fn lemma_nothing_weighed(a: Single)
    requires
        single::of(0).lt(a),
        a.lt(single::of(single::ONE)),
    ensures
        ({
            let zero = single::of(0);
            zero * a + zero * (single::of(single::ONE) - a) == zero
        }),
{
    let zero = single::of(0);
    order::lemma_one_less(a);
    order::lemma_times_nothing(zero, a);
    order::lemma_times_nothing(zero, single::of(single::ONE) - a);
    order::lemma_less_itself(zero);
    order::lemma_zeros();
}

/// The weights of the last result and of the new value make up one exactly.
proof fn lemma_eye_weights(alpha: Single)
    requires
        alpha == single::of(EYE_ALPHA) || alpha == single::of(EYE_ALPHA_OUTLIER),
    ensures
        order::val(alpha) + order::val(single::of(single::ONE) - alpha) == pow2(149),
{
    lemma2_to64();
    lemma_pow2_adds(24, 125);
    lemma_pow2_unfold(125);
    lemma_pow2_unfold(124);
    order::lemma_units_at(125, 0x99_999a);
    order::lemma_units_at(124, 0xcc_cccc);
    assert(125 * pow2(23) + 0x99_999a == 0x3f19_999a);
    assert(124 * pow2(23) + 0xcc_cccc == 0x3ecc_cccc);
    order::lemma_units_at(125, 0xd1_eb85);
    order::lemma_units_at(123, 0xb8_51ec);
    assert(125 * pow2(23) + 0xd1_eb85 == 0x3f51_eb85);
    assert(123 * pow2(23) + 0xb8_51ec == 0x3e38_51ec);
    if alpha == single::of(EYE_ALPHA) {
        order::lemma_complement(EYE_ALPHA, 0x3ecc_cccc);
    } else {
        order::lemma_complement(EYE_ALPHA_OUTLIER, 0x3e38_51ec);
    }
}

/// Eyes stay between shut and open: from a result between minus one and zero the next one is there
/// too, where the opening and the median that is learned are numbers.
pub proof fn lemma_eye_range(e: EyeModel, x: Single, now: Single, conf: Option<Single>)
    requires
        order::within_shut(e.state.last),
        x.is_finite(),
        eye_next(e, x, now, conf).state.current_median.is_finite(),
    ensures
        order::within_shut(eye_next(e, x, now, conf).state.last),
{
    reveal(eye_next);
    let median = eye_next(e, x, now, conf).state.current_median;
    let one = single::of(single::ONE);
    let v = eye_value(x, median);
    assert(order::within_shut(v)) by {
        if !(median.abs().lt(single::of(TINY)) || x.ge(median)) {
            order::lemma_difference(x, median);
            order::lemma_one_less(single::of(EYE_CLOSED));
            let den = median * (one - single::of(EYE_CLOSED));
            order::lemma_share(median, one - single::of(EYE_CLOSED));
            order::lemma_quotient(x - median, den);
        }
    }
    order::lemma_one_less(single::of(EYE_ALPHA));
    order::lemma_one_less(single::of(EYE_ALPHA_OUTLIER));
    lemma_eye_weights(single::of(EYE_ALPHA));
    lemma_eye_weights(single::of(EYE_ALPHA_OUTLIER));
    order::lemma_mean_within(
        e.state.last,
        v,
        single::of(EYE_ALPHA),
        one - single::of(EYE_ALPHA),
    );
    order::lemma_mean_within(
        e.state.last,
        v,
        single::of(EYE_ALPHA_OUTLIER),
        one - single::of(EYE_ALPHA_OUTLIER),
    );
}

/// A one-sided feature does not fall below zero: from a result that is not below zero the next one is
/// not, where value and median are numbers and the highest value, eased as it may be, has not come
/// down below the median.
pub proof fn lemma_one_sided_range(f: FeatureModel, x: Single, now: Single)
    requires
        f.state.one_sided,
        single::of(0).le(f.state.last),
        x.is_finite(),
        ({
            let g = next(f, x, now).state;
            &&& g.current_median.is_finite()
            &&& g.max matches Some(m) ==> m.is_finite() && g.current_median.le(m) && (m
                - g.current_median).is_finite()
        }),
    ensures
        next(f, x, now).state.one_sided,
        single::of(0).le(next(f, x, now).state.last),
{
    reveal(next);
    let g = next(f, x, now).state;
    let median = g.current_median;
    let alpha = single::of(ALPHA);
    let rest = single::of(single::ONE) - alpha;
    order::lemma_one_less(alpha);
    order::lemma_difference(x, median);
    if let Some(m) = g.max {
        order::lemma_difference(m, median);
        if !(m - median).abs().lt(single::of(TINY)) {
            if median.le(x) {
                order::lemma_not_below_zero(x - median, single::of(0), m - median);
            }
        }
    }
    let zero = single::of(0);
    let one = single::of(single::ONE);
    assert forall|new: Single| zero.le(new) implies zero.le(#[trigger] (new * rest)) && zero.le(
        f.state.last * alpha + new * rest,
    ) by {
        order::lemma_not_below_zero(f.state.last, new, alpha);
        order::lemma_not_below_zero(new, new, rest);
        order::lemma_not_below_zero(f.state.last * alpha, new * rest, alpha);
    }
}

/// The gates of the features: a smile or an open mouth hides the cheeks, which never fall below zero,
/// and what is read of a whole face only is zero of another.
pub proof fn lemma_gates(
    a: FeatureExtractor,
    b: FeatureExtractor,
    r: Seq<Single>,
    p: Seq<[Single; 3]>,
    full: bool,
    conf: Option<Single>,
    now: Single,
    t: Turns,
)
    requires
        updated(a, b, r, p, full, conf, now, t),
    ensures
        single::of(0).le(r[16]),
        r[13].gt(single::of(CHEEK_SMILE_GATE)) || r[12].gt(single::of(CHEEK_OPEN_GATE)) ==> r[16]
            == single::of(0),
        !full ==> forall|i: int|
            (i == 2 || i == 4 || i == 5 || i == 7 || i == 9 || i == 11) ==> #[trigger] r[i] == single::of(0),
        r[18] == single::of(0) || r[18] == b.mouth_funnel@.state.last,
{
}

/// Whether everything that is measured of a face is a number that can be doubled.
pub open spec fn all_measured(m: Measures) -> bool {
    &&& doubles(m.open_l) && doubles(m.open_r)
    &&& doubles(m.steep_l) && doubles(m.steep_r)
    &&& doubles(m.brow_l) && doubles(m.brow_r)
    &&& doubles(m.bend_l) && doubles(m.bend_r)
    &&& doubles(m.corner_l) && doubles(m.corner_r)
    &&& doubles(m.side_l) && doubles(m.side_r)
    &&& doubles(m.gap) && doubles(m.width)
    &&& doubles(m.pucker) && doubles(m.shift)
    &&& doubles(m.cheeks) && doubles(m.jaw)
    &&& doubles(m.press) && doubles(m.gap * (single::of(single::ONE) - m.width))
}

/// Whether a number can be doubled.
pub open spec fn doubles(x: Single) -> bool {
    (x + x).is_finite()
}

/// The first face says nothing: all features are zero.
pub proof fn lemma_first_update(
    a: FeatureExtractor,
    b: FeatureExtractor,
    r: Seq<Single>,
    p: Seq<[Single; 3]>,
    full: bool,
    conf: Option<Single>,
    now: Single,
    t: Turns,
    max_updates: Single,
)
    requires
        a.is_new(max_updates),
        updated(a, b, r, p, full, conf, now, t),
        all_measured(measures_of(p, t)),
    ensures
        forall|i: int| 0 <= i < 20 ==> #[trigger] r[i] == single::of(0),
{
    let m = measures_of(p, t);
    let zero = single::of(0);
    lemma_first_opening(max_updates, m.open_l, now, conf);
    lemma_first_opening(max_updates, m.open_r, now, conf);
    lemma_first_value(TH_MID, max_updates, false, m.steep_l, now);
    lemma_first_value(TH_MID, max_updates, false, m.steep_r, now);
    lemma_first_value(TH_WIDE, max_updates, false, m.brow_l, now);
    lemma_first_value(TH_WIDE, max_updates, false, m.brow_r, now);
    lemma_first_value(TH_MID, max_updates, false, m.bend_l, now);
    lemma_first_value(TH_MID, max_updates, false, m.bend_r, now);
    lemma_first_value(TH_WIDE, max_updates, false, m.corner_l, now);
    lemma_first_value(TH_WIDE, max_updates, false, m.corner_r, now);
    lemma_first_value(TH_FINE, max_updates, false, m.side_l, now);
    lemma_first_value(TH_FINE, max_updates, false, m.side_r, now);
    lemma_first_value(TH_WIDE, max_updates, false, m.gap, now);
    lemma_first_value(TH_FINE, max_updates, false, m.width, now);
    lemma_first_value(TH_FINE, max_updates, false, m.pucker, now);
    lemma_first_value(TH_FINE, max_updates, false, m.shift, now);
    lemma_first_value(TH_FINE, max_updates, false, m.cheeks, now);
    lemma_first_value(TH_WIDE, max_updates, true, m.jaw, now);
    lemma_first_value(
        TH_MID,
        max_updates,
        true,
        m.gap * (single::of(single::ONE) - m.width),
        now,
    );
    lemma_first_value(TH_MID, max_updates, false, m.press, now);
    assert(r[0] == zero && r[1] == zero && r[2] == zero && r[3] == zero && r[4] == zero);
    assert(r[5] == zero && r[6] == zero && r[7] == zero && r[8] == zero && r[9] == zero);
    assert(r[10] == zero && r[11] == zero && r[12] == zero && r[13] == zero && r[14] == zero);
    assert(r[15] == zero && r[16] == zero && r[17] == zero && r[18] == zero && r[19] == zero);
}

/// Whether every value can be doubled.
pub open spec fn tame(v: Seq<Single>) -> bool {
    forall|i: int| 0 <= i < v.len() ==> doubles(#[trigger] v[i])
}

/// Whether every value of every level can be doubled, and there is a level.
pub open spec fn levels_tame(levels: Seq<Seq<Single>>) -> bool {
    &&& levels.len() > 0
    &&& forall|i: int| 0 <= i < levels.len() ==> tame(#[trigger] levels[i])
}

proof fn lemma_inserted_tame(v: Seq<Single>, x: Single)
    requires
        tame(v),
        doubles(x),
    ensures
        tame(inserted(v, x)),
    decreases v.len(),
{
    if v.len() > 0 && x.lt(v.last()) {
        let w = v.drop_last();
        assert(tame(w)) by {
            assert forall|i: int| 0 <= i < w.len() implies doubles(#[trigger] w[i]) by {
                assert(w[i] == v[i]);
            }
        }
        lemma_inserted_tame(w, x);
        assert(doubles(v[v.len() - 1]));
    }
}

proof fn lemma_sorted_tame(v: Seq<Single>)
    requires
        tame(v),
    ensures
        tame(sorted(v)),
    decreases v.len(),
{
    if v.len() > 0 {
        let w = v.drop_last();
        assert(tame(w)) by {
            assert forall|i: int| 0 <= i < w.len() implies doubles(#[trigger] w[i]) by {
                assert(w[i] == v[i]);
            }
        }
        lemma_sorted_tame(w);
        assert(doubles(v[v.len() - 1]));
        lemma_inserted_tame(sorted(w), v.last());
    }
}

/// The mean of two values that can be doubled can be doubled.
proof fn lemma_mean_tame(a: Single, b: Single)
    requires
        doubles(a),
        doubles(b),
    ensures
        doubles((a + b) / single::of(TWO)),
{
    let c = if a.mag() <= b.mag() {
        b
    } else {
        a
    };
    order::lemma_sum_at_most(a, b, c);
    order::lemma_half_of_double(c);
    order::lemma_half_at_most(a + b, c + c);
    let m = (a + b) / single::of(TWO);
    order::lemma_sum_at_most(m, m, c);
}

/// The median of values that can be doubled can be doubled.
proof fn lemma_median_tame(v: Seq<Single>)
    requires
        tame(v),
    ensures
        doubles(median_of(v)),
{
    let w = sorted(v);
    let n = w.len() as int;
    lemma_sorted_tame(v);
    if n == 0 {
        order::lemma_less_itself(single::of(0));
        order::lemma_zeros();
    } else if n < 3 {
        assert(doubles(w[0]) && doubles(w[n - 1]));
        lemma_mean_tame(w[0], w[n - 1]);
    } else {
        assert(doubles(w[n / 2]) && doubles(w[n / 2 - 1]));
        lemma_mean_tame(w[n / 2], w[n / 2 - 1]);
    }
}

/// Feeding a value that can be doubled leaves only such values.
proof fn lemma_fed_tame(levels: Seq<Seq<Single>>, i: int, x: Single)
    requires
        levels_tame(levels),
        0 <= i <= levels.len(),
        doubles(x),
    ensures
        levels_tame(fed(levels, i, x)),
    decreases levels.len() - i,
{
    if i >= levels.len() {
        let all = levels.push(seq![x]);
        assert forall|j: int| 0 <= j < all.len() implies tame(#[trigger] all[j]) by {
            if j < levels.len() {
                assert(all[j] == levels[j]);
            }
        }
    } else {
        let l = levels[i].push(x);
        assert(tame(levels[i]));
        assert(tame(l)) by {
            assert forall|j: int| 0 <= j < l.len() implies doubles(#[trigger] l[j]) by {
                if j < levels[i].len() {
                    assert(l[j] == levels[i][j]);
                }
            }
        }
        if l.len() == LEVEL {
            lemma_median_tame(l);
            let e = levels.update(i, Seq::empty());
            assert forall|j: int| 0 <= j < e.len() implies tame(#[trigger] e[j]) by {
                if j != i {
                    assert(e[j] == levels[j]);
                }
            }
            lemma_fed_tame(e, i + 1, median_of(l));
        } else {
            let e = levels.update(i, l);
            assert forall|j: int| 0 <= j < e.len() implies tame(#[trigger] e[j]) by {
                if j != i {
                    assert(e[j] == levels[j]);
                }
            }
        }
    }
}

/// An eye whose result lies between shut and open, and whose learned values can be doubled.
pub open spec fn eye_in_range(e: EyeModel) -> bool {
    &&& order::within_shut(e.state.last)
    &&& levels_tame(e.levels)
    &&& doubles(e.state.current_median)
}

/// Eyes stay in range, whatever openings come.
pub proof fn lemma_eye_stays(e: EyeModel, x: Single, now: Single, conf: Option<Single>)
    requires
        eye_in_range(e),
        doubles(x),
    ensures
        eye_in_range(eye_next(e, x, now, conf)),
{
    reveal(eye_next);
    let n = eye_next(e, x, now, conf);
    lemma_fed_tame(e.levels, 0, x);
    assert(levels_tame(n.levels));
    lemma_median_tame(n.levels.last());
    order::lemma_half_of_double(n.state.current_median);
    order::lemma_half_of_double(x);
    lemma_eye_range(e, x, now, conf);
}

/// A feature whose learned values can be doubled.
pub open spec fn median_tame(f: FeatureModel) -> bool {
    &&& levels_tame(f.levels)
    &&& doubles(f.state.current_median)
}

proof fn lemma_median_stays(f: FeatureModel, x: Single, now: Single)
    requires
        median_tame(f),
        doubles(x),
    ensures
        median_tame(next(f, x, now)),
        next(f, x, now).state.one_sided == f.state.one_sided,
{
    reveal(next);
    lemma_fed_tame(f.levels, 0, x);
    let n = next(f, x, now);
    assert(levels_tame(n.levels));
    lemma_median_tame(n.levels.last());
}

/// Whether the highest value of a feature has not come down below its median.
pub open spec fn stands(f: FeatureModel) -> bool {
    f.state.max matches Some(m) ==> f.state.current_median.le(m) && (m
        - f.state.current_median).is_finite()
}

/// What holds of the features of a face from the first update on: the eyes lie between shut and
/// open, and what eyes, jaw and funnel have learned can be doubled.
pub open spec fn in_range(f: FeatureExtractor) -> bool {
    &&& eye_in_range(f.eye_l@)
    &&& eye_in_range(f.eye_r@)
    &&& median_tame(f.jaw_open@) && f.jaw_open@.state.one_sided
    &&& median_tame(f.mouth_funnel@) && f.mouth_funnel@.state.one_sided
}

/// Whether neither the jaw nor the funnel is below zero.
pub open spec fn not_below_zero(f: FeatureExtractor) -> bool {
    &&& single::of(0).le(f.jaw_open@.state.last)
    &&& single::of(0).le(f.mouth_funnel@.state.last)
}

/// Features that have learned nothing are in range.
pub proof fn lemma_new_in_range(f: FeatureExtractor, max_updates: Single)
    requires
        f.is_new(max_updates),
    ensures
        in_range(f),
        not_below_zero(f),
{
    order::lemma_less_itself(single::of(0));
    order::lemma_zeros();
    assert(tame(Seq::<Single>::empty()));
    assert(fresh()[0] == Seq::<Single>::empty());
    assert(levels_tame(fresh()));
}

/// Every update of measures that can be doubled keeps the features in range, and gives results in
/// range: eyes between minus one and zero, and cheeks not below zero. Jaw and funnel do not fall
/// below zero either while their highest values have not come down below their medians.
pub proof fn lemma_update_keeps_range(
    a: FeatureExtractor,
    b: FeatureExtractor,
    r: Seq<Single>,
    p: Seq<[Single; 3]>,
    full: bool,
    conf: Option<Single>,
    now: Single,
    t: Turns,
)
    requires
        in_range(a),
        updated(a, b, r, p, full, conf, now, t),
        all_measured(measures_of(p, t)),
    ensures
        in_range(b),
        order::within_shut(r[0]),
        order::within_shut(r[1]),
        single::of(0).le(r[16]),
        not_below_zero(a) && stands(b.jaw_open@) && stands(b.mouth_funnel@) ==> not_below_zero(b)
            && single::of(0).le(r[17]) && single::of(0).le(r[18]),
{
    let m = measures_of(p, t);
    let round = m.gap * (single::of(single::ONE) - m.width);
    lemma_eye_stays(a.eye_l@, m.open_l, now, conf);
    lemma_eye_stays(a.eye_r@, m.open_r, now, conf);
    lemma_median_stays(a.jaw_open@, m.jaw, now);
    lemma_median_stays(a.mouth_funnel@, round, now);
    lemma_gates(a, b, r, p, full, conf, now, t);
    if not_below_zero(a) && stands(b.jaw_open@) && stands(b.mouth_funnel@) {
        order::lemma_half_of_double(m.jaw);
        order::lemma_half_of_double(round);
        order::lemma_half_of_double(b.jaw_open@.state.current_median);
        order::lemma_half_of_double(b.mouth_funnel@.state.current_median);
        lemma_difference_finite(b.jaw_open@);
        lemma_difference_finite(b.mouth_funnel@);
        lemma_one_sided_range(a.jaw_open@, m.jaw, now);
        lemma_one_sided_range(a.mouth_funnel@, round, now);
    }
}

/// A highest value whose distance from the median is a number is one.
proof fn lemma_difference_finite(f: FeatureModel)
    requires
        stands(f),
        f.state.current_median.is_finite(),
    ensures
        f.state.max matches Some(m) ==> m.is_finite(),
{
    reveal(Single::spec_add);
}

} // verus!
