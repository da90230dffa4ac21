//! Multisets of numbers with their least, greatest and total kept at hand.

use vstd::multiset::Multiset;
use vstd::prelude::*;

verus! {

/// The sum of all elements.
pub open spec fn sum_of(m: Multiset<u64>) -> nat
    decreases m.len(),
{
    if m.len() == 0 {
        0
    } else {
        let x = m.choose();
        if m.contains(x) {
            x as nat + sum_of(m.remove(x))
        } else {
            0
        }
    }
}

/// `x` is an element that no element is below.
pub open spec fn is_least(m: Multiset<u64>, x: u64) -> bool {
    m.contains(x) && forall|y: u64| #[trigger] m.contains(y) ==> x <= y
}

/// `x` is an element that no element is above.
pub open spec fn is_greatest(m: Multiset<u64>, x: u64) -> bool {
    m.contains(x) && forall|y: u64| #[trigger] m.contains(y) ==> y <= x
}

/// The least element; zero when there is none.
pub open spec fn least(m: Multiset<u64>) -> u64 {
    if m.len() == 0 {
        0
    } else {
        choose|x: u64| is_least(m, x)
    }
}

/// The greatest element; zero when there is none.
pub open spec fn greatest(m: Multiset<u64>) -> u64 {
    if m.len() == 0 {
        0
    } else {
        choose|x: u64| is_greatest(m, x)
    }
}

/// No element is above a later one.
pub open spec fn nondecreasing(s: Seq<u64>) -> bool {
    forall|i: int, j: int| 0 <= i <= j < s.len() ==> #[trigger] s[i] <= #[trigger] s[j]
}

/// The elements in ascending order.
pub open spec fn in_order(m: Multiset<u64>) -> Seq<u64> {
    choose|s: Seq<u64>| #[trigger] nondecreasing(s) && s.to_multiset() == m
}

/// Any ascending arrangement of the elements is the one.
pub proof fn in_order_is_unique(s: Seq<u64>)
    requires
        nondecreasing(s),
    ensures
        in_order(s.to_multiset()) == s,
{
    let t = in_order(s.to_multiset());
    assert(nondecreasing(s) && s.to_multiset() == s.to_multiset());
    assert(nondecreasing(t) && t.to_multiset() == s.to_multiset());
    let leq = |a: u64, b: u64| a <= b;
    vstd::seq_lib::lemma_sorted_unique(t, s, leq);
}

/// Adding an element adds its value to the sum.
pub proof fn sum_of_insert(m: Multiset<u64>, x: u64)
    ensures
        sum_of(m.insert(x)) == sum_of(m) + x,
    decreases m.len(),
{
    let n = m.insert(x);
    assert(n.len() == m.len() + 1);
    assert(n.contains(x));
    let y = n.choose();
    assert(n.contains(y));
    if y == x {
        assert(n.remove(x) =~= m);
    } else {
        assert(m.contains(y));
        assert(m.len() > 0);
        let rest = m.remove(y);
        assert(n.remove(y) =~= rest.insert(x));
        sum_of_insert(rest, x);
        assert(m =~= rest.insert(y));
        sum_of_insert(rest, y);
    }
}

/// Taking an element out takes its value off the sum.
pub proof fn sum_of_remove(m: Multiset<u64>, x: u64)
    requires
        m.contains(x),
    ensures
        sum_of(m.remove(x)) + x == sum_of(m),
{
    assert(m =~= m.remove(x).insert(x));
    sum_of_insert(m.remove(x), x);
}

/// A sum is at most the number of elements times the greatest value.
pub proof fn sum_of_bound(m: Multiset<u64>)
    ensures
        sum_of(m) <= m.len() * 0xffff_ffff_ffff_ffff,
    decreases m.len(),
{
    if m.len() > 0 {
        let x = m.choose();
        if m.contains(x) {
            sum_of_bound(m.remove(x));
            assert(m.remove(x).len() == m.len() - 1);
            assert((m.len() - 1) * 0xffff_ffff_ffff_ffff + 0xffff_ffff_ffff_ffff == m.len()
                * 0xffff_ffff_ffff_ffff) by (nonlinear_arith);
        }
    }
}

/// A multiset with elements has a least and a greatest one.
pub proof fn extremes_exist(m: Multiset<u64>)
    requires
        m.len() > 0,
    ensures
        is_least(m, least(m)),
        is_greatest(m, greatest(m)),
    decreases m.len(),
{
    let x = m.choose();
    assert(m.contains(x));
    let rest = m.remove(x);
    assert(m =~= rest.insert(x));
    if rest.len() == 0 {
        assert forall|y: u64| #[trigger] m.contains(y) implies y == x by {
            if y != x {
                assert(rest.count(y) <= rest.len());
            }
        }
        assert(is_least(m, x));
        assert(is_greatest(m, x));
    } else {
        extremes_exist(rest);
        let l = least(rest);
        let g = greatest(rest);
        let l2 = if x < l { x } else { l };
        let g2 = if x > g { x } else { g };
        assert(rest.contains(l) && rest.contains(g));
        assert(m.contains(l) && m.contains(g));
        assert forall|y: u64| #[trigger] m.contains(y) implies l2 <= y && y <= g2 by {
            if y != x {
                assert(rest.contains(y));
            }
        }
        assert(is_least(m, l2));
        assert(is_greatest(m, g2));
    }
}

/// A sum lies between the number of elements times the least of them and
/// times the greatest.
proof fn sum_lies_between(m: Multiset<u64>, low: u64, high: u64)
    requires
        forall|x: u64| #[trigger] m.contains(x) ==> low <= x <= high,
    ensures
        m.len() * low <= sum_of(m) <= m.len() * high,
    decreases m.len(),
{
    if m.len() > 0 {
        let x = m.choose();
        assert(m.contains(x));
        let rest = m.remove(x);
        assert forall|y: u64| #[trigger] rest.contains(y) implies low <= y <= high by {
            assert(m.contains(y));
        }
        sum_lies_between(rest, low, high);
        let n = rest.len();
        assert(m.len() == n + 1);
        assert((n + 1) * low == n * low + low && (n + 1) * high == n * high + high)
            by (nonlinear_arith);
    }
}

/// A mean lies between the least element and the greatest.
pub proof fn mean_lies_between(m: Multiset<u64>)
    requires
        m.len() > 0,
    ensures
        least(m) <= sum_of(m) / m.len() <= greatest(m),
{
    extremes_exist(m);
    let (low, high, n) = (least(m), greatest(m), m.len());
    sum_lies_between(m, low, high);
    let sum = sum_of(m);
    assert(low <= sum / n <= high) by (nonlinear_arith)
        requires
            n > 0,
            n * low <= sum <= n * high,
    ;
}

/// Numbers in ascending order, each as often as it was added.
pub struct Tally {
    values: Vec<u64>,
}

impl View for Tally {
    type V = Multiset<u64>;

    closed spec fn view(&self) -> Multiset<u64> {
        self.values@.to_multiset()
    }
}

impl Tally {
    pub closed spec fn wf(&self) -> bool {
        forall|i: int, j: int| 0 <= i <= j < self.values@.len() ==> self.values@[i]
            <= self.values@[j]
    }

    pub fn new() -> (t: Self)
        ensures
            t.wf(),
            t@ == Multiset::<u64>::empty(),
    {
        let t = Tally { values: Vec::new() };
        proof {
            t.values@.to_multiset_ensures();
            assert(t@ =~= Multiset::empty());
        }
        t
    }

    /// How many elements there are.
    pub fn len(&self) -> (n: usize)
        ensures
            n == self@.len(),
    {
        proof {
            self.values@.to_multiset_ensures();
        }
        self.values.len()
    }

    /// How many elements are below `x`.
    fn rank(&self, x: u64) -> (i: usize)
        requires
            self.wf(),
        ensures
            i <= self.values@.len(),
            forall|j: int| 0 <= j < i ==> self.values@[j] < x,
            forall|j: int| i <= j < self.values@.len() ==> x <= self.values@[j],
    {
        let mut lo: usize = 0;
        let mut hi: usize = self.values.len();
        while lo < hi
            invariant
                self.wf(),
                lo <= hi <= self.values@.len(),
                forall|j: int| 0 <= j < lo ==> self.values@[j] < x,
                forall|j: int| hi <= j < self.values@.len() ==> x <= self.values@[j],
            decreases hi - lo,
        {
            let mid: usize = lo + (hi - lo) / 2;
            if self.values[mid] < x {
                lo = mid + 1;
            } else {
                hi = mid;
            }
        }
        lo
    }

    /// Adds one `x`.
    pub fn add(&mut self, x: u64)
        requires
            old(self).wf(),
        ensures
            final(self).wf(),
            final(self)@ == old(self)@.insert(x),
    {
        let i: usize = self.rank(x);
        let ghost before = self.values@;
        self.values.insert(i, x);
        proof {
            assert(self.values@ =~= before.insert(i as int, x));
            before.to_multiset_ensures();
            before.insert_ensures(i as int, x);
            vstd::seq_lib::to_multiset_insert(before, i as int, x);
        }
    }

    /// Takes one `x` out.
    pub fn take(&mut self, x: u64)
        requires
            old(self).wf(),
            old(self)@.contains(x),
        ensures
            final(self).wf(),
            final(self)@ == old(self)@.remove(x),
    {
        let i: usize = self.rank(x);
        let ghost before = self.values@;
        proof {
            before.to_multiset_ensures();
            assert(before.contains(x));
            let p = choose|p: int| 0 <= p < before.len() && before[p] == x;
            assert(i <= p);
            assert(before[i as int] <= before[p]);
        }
        let _ = self.values.remove(i);
        proof {
            assert(self.values@ =~= before.remove(i as int));
            vstd::seq_lib::to_multiset_remove(before, i as int);
        }
    }

    /// The element at position `k` in ascending order.
    pub fn nth(&self, k: usize) -> (x: u64)
        requires
            self.wf(),
            k < self@.len(),
        ensures
            x == in_order(self@)[k as int],
    {
        proof {
            self.values@.to_multiset_ensures();
            in_order_is_unique(self.values@);
        }
        self.values[k]
    }

    /// The least and the greatest element; zeros when there is none.
    pub fn min_max(&self) -> (r: (u64, u64))
        requires
            self.wf(),
        ensures
            r.0 == least(self@),
            r.1 == greatest(self@),
    {
        let n: usize = self.values.len();
        proof {
            self.values@.to_multiset_ensures();
        }
        if n == 0 {
            (0, 0)
        } else {
            let lo: u64 = self.values[0];
            let hi: u64 = self.values[n - 1];
            proof {
                let m = self@;
                assert forall|y: u64| #[trigger] m.contains(y) implies lo <= y && y <= hi by {
                    assert(self.values@.contains(y));
                }
                assert(self.values@.contains(lo));
                assert(self.values@.contains(hi));
                assert(is_least(m, lo));
                assert(is_greatest(m, hi));
                let l = least(m);
                assert(is_least(m, l));
                assert(m.contains(l) && m.contains(lo));
                let g = greatest(m);
                assert(is_greatest(m, g));
                assert(m.contains(g) && m.contains(hi));
            }
            (lo, hi)
        }
    }
}

} // verus!
