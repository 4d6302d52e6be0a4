//! Blend shapes and their weights, kept in the order of their names.

use crate::ieee::decimal;
use crate::ieee::single;
use crate::ieee::single::Single;
use vstd::prelude::*;
use vstd::string::StrSliceExecFns;

verus! {

/// Whether `a` comes before `b`: character by character, a beginning before its continuation.
pub open spec fn precedes(a: Seq<char>, b: Seq<char>) -> bool
    decreases a.len(),
{
    if b.len() == 0 {
        false
    } else if a.len() == 0 {
        true
    } else if a[0] != b[0] {
        a[0] < b[0]
    } else {
        precedes(a.drop_first(), b.drop_first())
    }
}

proof fn lemma_irreflexive(a: Seq<char>)
    ensures
        !precedes(a, a),
    decreases a.len(),
{
    if a.len() > 0 {
        lemma_irreflexive(a.drop_first());
    }
}

proof fn lemma_transitive(a: Seq<char>, b: Seq<char>, c: Seq<char>)
    requires
        precedes(a, b),
        precedes(b, c),
    ensures
        precedes(a, c),
    decreases a.len(),
{
    if a.len() > 0 && a[0] == b[0] && b[0] == c[0] {
        lemma_transitive(a.drop_first(), b.drop_first(), c.drop_first());
    }
}

proof fn lemma_total(a: Seq<char>, b: Seq<char>)
    ensures
        a == b || precedes(a, b) || precedes(b, a),
    decreases a.len(),
{
    if a.len() > 0 && b.len() > 0 && a[0] == b[0] {
        lemma_total(a.drop_first(), b.drop_first());
        if a.drop_first() == b.drop_first() {
            assert(a =~= seq![a[0]] + a.drop_first());
            assert(b =~= seq![b[0]] + b.drop_first());
        }
    } else if a.len() == 0 && b.len() == 0 {
        assert(a =~= b);
    }
}

/// Whether `a` comes before `b`.
pub fn comes_before(a: &str, b: &str) -> (r: bool)
    ensures
        r == precedes(a@, b@),
{
    let n: usize = a.unicode_len();
    let m: usize = b.unicode_len();
    let mut i: usize = 0;
    proof {
        assert(a@.skip(0) =~= a@);
        assert(b@.skip(0) =~= b@);
    }
    while i < n && i < m
        invariant
            n == a@.len(),
            m == b@.len(),
            i <= n,
            i <= m,
            precedes(a@, b@) == precedes(a@.skip(i as int), b@.skip(i as int)),
        decreases n - i,
    {
        let x: char = a.get_char(i);
        let y: char = b.get_char(i);
        if x != y {
            return x < y;
        }
        proof {
            assert(a@.skip(i as int).drop_first() =~= a@.skip(i + 1));
            assert(b@.skip(i as int).drop_first() =~= b@.skip(i + 1));
        }
        i = i + 1;
    }
    i < m
}

/// Whether two names are the same.
fn same_name(a: &str, b: &str) -> (r: bool)
    ensures
        r == (a@ == b@),
{
    proof {
        lemma_total(a@, b@);
        lemma_irreflexive(a@);
    }
    !comes_before(a, b) && !comes_before(b, a)
}

/// Blend shapes with their weights, in the order of their names.
#[derive(Debug)]
pub struct Blends {
    pub items: Vec<(&'static str, Single)>,
}

/// Whether names come in order, each once.
pub open spec fn in_order(items: Seq<(&'static str, Single)>) -> bool {
    forall|i: int, j: int|
        0 <= i < j < items.len() ==> precedes(#[trigger] items[i].0@, #[trigger] items[j].0@)
}

/// A place at which a name stands.
pub open spec fn place(items: Seq<(&'static str, Single)>, n: Seq<char>) -> int {
    choose|i: int| 0 <= i < items.len() && #[trigger] items[i].0@ == n
}

/// The weights by name.
pub open spec fn weights(items: Seq<(&'static str, Single)>) -> Map<Seq<char>, Single> {
    Map::new(
        |n: Seq<char>| exists|i: int| 0 <= i < items.len() && #[trigger] items[i].0@ == n,
        |n: Seq<char>| items[place(items, n)].1,
    )
}

proof fn lemma_place(items: Seq<(&'static str, Single)>, i: int)
    requires
        in_order(items),
        0 <= i < items.len(),
    ensures
        place(items, items[i].0@) == i,
        weights(items).dom().contains(items[i].0@),
        weights(items)[items[i].0@] == items[i].1,
{
    let n = items[i].0@;
    let j = place(items, n);
    assert(items[i].0@ == n);
    assert(0 <= j < items.len() && items[j].0@ == n);
    lemma_irreflexive(n);
}

/// Two lists in order that hold the same pairs, but for `n`, have the same weights, but for `n`.
proof fn lemma_same_but(
    a: Seq<(&'static str, Single)>,
    b: Seq<(&'static str, Single)>,
    n: Seq<char>,
)
    requires
        in_order(a),
        in_order(b),
        forall|i: int|
            0 <= i < a.len() && #[trigger] a[i].0@ != n ==> exists|j: int|
                0 <= j < b.len() && #[trigger] b[j].0@ == a[i].0@ && b[j].1 == a[i].1,
        forall|j: int|
            0 <= j < b.len() && #[trigger] b[j].0@ != n ==> exists|i: int|
                0 <= i < a.len() && #[trigger] a[i].0@ == b[j].0@ && a[i].1 == b[j].1,
    ensures
        weights(a).remove(n) == weights(b).remove(n),
{
    let x = weights(a).remove(n);
    let y = weights(b).remove(n);
    assert forall|m: Seq<char>| x.dom().contains(m) implies y.dom().contains(m) && x[m] == y[m] by {
        let i = choose|i: int| 0 <= i < a.len() && #[trigger] a[i].0@ == m;
        assert(a[i].0@ == m && m != n);
        let j = choose|j: int| 0 <= j < b.len() && #[trigger] b[j].0@ == a[i].0@ && b[j].1 == a[i].1;
        assert(b[j].0@ == m);
        lemma_place(a, i);
        lemma_place(b, j);
    }
    assert forall|m: Seq<char>| y.dom().contains(m) implies x.dom().contains(m) by {
        let j = choose|j: int| 0 <= j < b.len() && #[trigger] b[j].0@ == m;
        assert(b[j].0@ == m && m != n);
        let i = choose|i: int| 0 <= i < a.len() && #[trigger] a[i].0@ == b[j].0@ && a[i].1 == b[j].1;
        assert(a[i].0@ == m);
    }
    assert(x =~= y);
}

/// Whether every weight counts and is at most one.
pub open spec fn in_range(items: Seq<(&'static str, Single)>) -> bool {
    forall|i: int|
        0 <= i < items.len() ==> (#[trigger] items[i]).1.gt(single::of(decimal::N0_0001))
            && items[i].1.le(single::of(single::ONE))
}

/// Whether `k` is the place for `n`: what stands before comes before, what stands behind does not.
spec fn is_place_for(items: Seq<(&'static str, Single)>, k: int, n: Seq<char>) -> bool {
    &&& 0 <= k <= items.len()
    &&& forall|i: int| 0 <= i < k ==> precedes(#[trigger] items[i].0@, n)
    &&& forall|i: int| k <= i < items.len() ==> !precedes(#[trigger] items[i].0@, n)
}

proof fn lemma_elsewhere(items: Seq<(&'static str, Single)>, k: int, n: Seq<char>, i: int)
    requires
        in_order(items),
        is_place_for(items, k, n),
        0 <= i < items.len(),
        i != k,
    ensures
        items[i].0@ != n,
{
    lemma_irreflexive(n);
    if i > k {
        assert(precedes(items[k].0@, items[i].0@));
    }
}

proof fn lemma_absent(items: Seq<(&'static str, Single)>, k: int, n: Seq<char>)
    requires
        in_order(items),
        is_place_for(items, k, n),
        k < items.len() ==> items[k].0@ != n,
    ensures
        weights(items).remove(n) == weights(items),
{
    assert forall|i: int| 0 <= i < items.len() implies #[trigger] items[i].0@ != n by {
        if i != k {
            lemma_elsewhere(items, k, n, i);
        }
    }
    assert(weights(items).remove(n) =~= weights(items));
}

proof fn lemma_replaced(before: Seq<(&'static str, Single)>, k: int, p: (&'static str, Single))
    requires
        in_order(before),
        in_range(before),
        is_place_for(before, k, p.0@),
        k < before.len(),
        before[k].0@ == p.0@,
        p.1.gt(single::of(decimal::N0_0001)),
        p.1.le(single::of(single::ONE)),
    ensures
        in_order(before.update(k, p)),
        in_range(before.update(k, p)),
        weights(before.update(k, p)) == weights(before).insert(p.0@, p.1),
{
    let after = before.update(k, p);
    let n = p.0@;
    assert forall|i: int| 0 <= i < before.len() && #[trigger] before[i].0@ != n implies exists|j: int|
        0 <= j < after.len() && #[trigger] after[j].0@ == before[i].0@ && after[j].1 == before[i].1 by {
        assert(after[i] == before[i]);
    }
    assert forall|j: int| 0 <= j < after.len() && #[trigger] after[j].0@ != n implies exists|i: int|
        0 <= i < before.len() && #[trigger] before[i].0@ == after[j].0@ && before[i].1 == after[j].1 by {
        assert(after[j] == before[j]);
    }
    lemma_same_but(before, after, n);
    lemma_place(after, k);
    assert(weights(after) =~= weights(after).remove(n).insert(n, p.1));
    assert(weights(before).insert(n, p.1) =~= weights(before).remove(n).insert(n, p.1));
}

proof fn lemma_inserted_order(before: Seq<(&'static str, Single)>, k: int, p: (&'static str, Single))
    requires
        in_order(before),
        is_place_for(before, k, p.0@),
        k < before.len() ==> before[k].0@ != p.0@,
    ensures
        in_order(before.insert(k, p)),
{
    let after = before.insert(k, p);
    let n = p.0@;
    assert forall|i: int, j: int| 0 <= i < j < after.len() implies precedes(
        #[trigger] after[i].0@,
        #[trigger] after[j].0@,
    ) by {
        if i == k {
            assert(after[j] == before[j - 1]);
            lemma_total(n, before[j - 1].0@);
            if j - 1 != k {
                lemma_elsewhere(before, k, n, j - 1);
            }
        } else if j == k {
            assert(after[i] == before[i]);
        } else {
            let a = if i < k {
                i
            } else {
                i - 1
            };
            let b = if j < k {
                j
            } else {
                j - 1
            };
            assert(after[i] == before[a] && after[j] == before[b]);
        }
    }
}

proof fn lemma_inserted(before: Seq<(&'static str, Single)>, k: int, p: (&'static str, Single))
    requires
        in_order(before),
        in_range(before),
        is_place_for(before, k, p.0@),
        k < before.len() ==> before[k].0@ != p.0@,
        p.1.gt(single::of(decimal::N0_0001)),
        p.1.le(single::of(single::ONE)),
    ensures
        in_order(before.insert(k, p)),
        in_range(before.insert(k, p)),
        weights(before.insert(k, p)) == weights(before).insert(p.0@, p.1),
{
    let after = before.insert(k, p);
    let n = p.0@;
    lemma_inserted_order(before, k, p);
    assert(in_range(after)) by {
        assert forall|i: int| 0 <= i < after.len() implies (#[trigger] after[i]).1.gt(
            single::of(decimal::N0_0001),
        ) && after[i].1.le(single::of(single::ONE)) by {
            if i < k {
                assert(after[i] == before[i]);
            } else if i > k {
                assert(after[i] == before[i - 1]);
            }
        }
    }
    assert(weights(before).remove(n) == weights(after).remove(n)) by {
        assert forall|i: int| 0 <= i < before.len() && #[trigger] before[i].0@ != n implies exists|j: int|
            0 <= j < after.len() && #[trigger] after[j].0@ == before[i].0@ && after[j].1 == before[i].1 by {
            let j = if i < k {
                i
            } else {
                i + 1
            };
            assert(after[j] == before[i]);
        }
        assert forall|j: int| 0 <= j < after.len() && #[trigger] after[j].0@ != n implies exists|i: int|
            0 <= i < before.len() && #[trigger] before[i].0@ == after[j].0@ && before[i].1 == after[j].1 by {
            let i = if j < k {
                j
            } else {
                j - 1
            };
            assert(after[j] == before[i]);
        }
        lemma_same_but(before, after, n);
    }
    assert(weights(after) =~= weights(after).remove(n).insert(n, p.1)) by {
        lemma_place(after, k);
    }
    assert(weights(before).insert(n, p.1) =~= weights(before).remove(n).insert(n, p.1));
}

proof fn lemma_removed(before: Seq<(&'static str, Single)>, k: int)
    requires
        in_order(before),
        in_range(before),
        0 <= k < before.len(),
        is_place_for(before, k, before[k].0@),
    ensures
        in_order(before.remove(k)),
        in_range(before.remove(k)),
        weights(before.remove(k)) == weights(before).remove(before[k].0@),
{
    let after = before.remove(k);
    let n = before[k].0@;
    assert forall|i: int, j: int| 0 <= i < j < after.len() implies precedes(
        #[trigger] after[i].0@,
        #[trigger] after[j].0@,
    ) by {
        let a = if i < k {
            i
        } else {
            i + 1
        };
        let b = if j < k {
            j
        } else {
            j + 1
        };
        assert(after[i] == before[a] && after[j] == before[b]);
    }
    assert forall|i: int| 0 <= i < before.len() && #[trigger] before[i].0@ != n implies exists|j: int|
        0 <= j < after.len() && #[trigger] after[j].0@ == before[i].0@ && after[j].1 == before[i].1 by {
        let j = if i < k {
            i
        } else {
            i - 1
        };
        assert(after[j] == before[i]);
    }
    assert forall|j: int| 0 <= j < after.len() && #[trigger] after[j].0@ != n implies exists|i: int|
        0 <= i < before.len() && #[trigger] before[i].0@ == after[j].0@ && before[i].1 == after[j].1 by {
        let i = if j < k {
            j
        } else {
            j + 1
        };
        assert(after[j] == before[i]);
    }
    lemma_same_but(before, after, n);
    assert forall|j: int| 0 <= j < after.len() implies #[trigger] after[j].0@ != n by {
        let i = if j < k {
            j
        } else {
            j + 1
        };
        assert(after[j] == before[i]);
        lemma_elsewhere(before, k, n, i);
    }
    assert(weights(after) =~= weights(after).remove(n));
}

/// Weights once `name` is set to `w`: held to the range from zero to one, and without the name
/// where next to nothing is left.
#[verifier::opaque]
pub open spec fn put(m: Map<Seq<char>, Single>, name: Seq<char>, w: Single) -> Map<Seq<char>, Single> {
    let v = w.max(single::of(0));
    if v.gt(single::of(decimal::N0_0001)) {
        m.insert(name, v.min(single::of(single::ONE)))
    } else {
        m.remove(name)
    }
}

impl View for Blends {
    type V = Map<Seq<char>, Single>;

    open spec fn view(&self) -> Map<Seq<char>, Single> {
        weights(self.items@)
    }
}

impl Blends {
    /// Whether names come in order, each once, and every weight counts and is at most one.
    pub open spec fn wf(self) -> bool {
        &&& in_order(self.items@)
        &&& in_range(self.items@)
    }

    /// No blend shapes.
    pub fn new() -> (r: Blends)
        ensures
            r.wf(),
            r@ == Map::<Seq<char>, Single>::empty(),
    {
        let r = Blends { items: Vec::new() };
        proof {
            assert(r@ =~= Map::<Seq<char>, Single>::empty());
        }
        r
    }

    /// The first place whose name does not come before `name`.
    fn find(&self, name: &str) -> (r: usize)
        requires
            in_order(self.items@),
        ensures
            is_place_for(self.items@, r as int, name@),
    {
        let mut i: usize = 0;
        while i < self.items.len()
            invariant
                in_order(self.items@),
                i <= self.items@.len(),
                forall|j: int| 0 <= j < i ==> precedes(#[trigger] self.items@[j].0@, name@),
            decreases self.items@.len() - i,
        {
            if !comes_before(self.items[i].0, name) {
                proof {
                    assert forall|j: int| i <= j < self.items@.len() implies !precedes(
                        #[trigger] self.items@[j].0@,
                        name@,
                    ) by {
                        if j > i && precedes(self.items@[j].0@, name@) {
                            lemma_transitive(self.items@[i as int].0@, self.items@[j].0@, name@);
                        }
                    }
                }
                return i;
            }
            i = i + 1;
        }
        i
    }

    /// Sets the weight of a blend shape.
    pub fn set_blend(&mut self, name: &'static str, w: Single)
        requires
            old(self).wf(),
        ensures
            final(self).wf(),
            final(self)@ == put(old(self)@, name@, w),
    {
        proof {
            reveal(put);
        }
        let w: Single = w.max(single::of(0));
        let at: usize = self.find(name);
        let there: bool = at < self.items.len() && same_name(self.items[at].0, name);
        let ghost before = self.items@;
        let ghost k = at as int;
        if w.gt(single::of(decimal::N0_0001)) {
            let v: Single = w.min(single::of(single::ONE));
            if there {
                self.items.set(at, (name, v));
                proof {
                    lemma_replaced(before, k, (name, v));
                }
            } else {
                self.items.insert(at, (name, v));
                proof {
                    lemma_inserted(before, k, (name, v));
                }
            }
        } else if there {
            self.items.remove(at);
            proof {
                lemma_removed(before, k);
            }
        } else {
            proof {
                lemma_absent(before, k, name@);
            }
        }
    }

    /// The weight of a blend shape.
    pub fn get(&self, name: &str) -> (r: Option<Single>)
        requires
            self.wf(),
        ensures
            r == (if self@.dom().contains(name@) {
                Some(self@[name@])
            } else {
                None
            }),
    {
        let mut i: usize = 0;
        while i < self.items.len()
            invariant
                self.wf(),
                i <= self.items@.len(),
                forall|j: int| 0 <= j < i ==> #[trigger] self.items@[j].0@ != name@,
            decreases self.items@.len() - i,
        {
            if same_name(self.items[i].0, name) {
                proof {
                    lemma_place(self.items@, i as int);
                }
                return Some(self.items[i].1);
            }
            i = i + 1;
        }
        None
    }
}

} // verus!
