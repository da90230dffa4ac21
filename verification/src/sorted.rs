//! Sets and maps kept as ascending lists of keys.

use vstd::prelude::*;

use crate::order::{key_order, key_order_is_strict, strict_order, Key, Rel};

verus! {

/// Every element stands before all later ones.
pub open spec fn ascending<T>(lt: spec_fn(T, T) -> bool, s: Seq<T>) -> bool {
    forall|i: int, j: int| 0 <= i < j < s.len() ==> lt(#[trigger] s[i], #[trigger] s[j])
}

/// The ascending list of the elements of a set.
pub open spec fn listing<T>(lt: spec_fn(T, T) -> bool, set: Set<T>) -> Seq<T> {
    choose|s: Seq<T>| #[trigger] ascending(lt, s) && s.to_set() == set
}

/// Two ascending lists of the same elements are the same list.
pub proof fn ascending_is_unique<T>(lt: spec_fn(T, T) -> bool, a: Seq<T>, b: Seq<T>)
    requires
        strict_order(lt),
        ascending(lt, a),
        ascending(lt, b),
        a.to_set() == b.to_set(),
    ensures
        a == b,
    decreases a.len(),
{
    assert forall|x: T| a.contains(x) == b.contains(x) by {
        assert(a.to_set().contains(x) == a.contains(x));
        assert(b.to_set().contains(x) == b.contains(x));
    }
    if a.len() == 0 {
        if b.len() > 0 {
            assert(b.contains(b[0]));
            assert(a.contains(b[0]));
        }
        assert(a =~= b);
    } else {
        assert(a.contains(a[0]));
        let j = choose|j: int| 0 <= j < b.len() && b[j] == a[0];
        assert(b.contains(b[0]));
        let i = choose|i: int| 0 <= i < a.len() && a[i] == b[0];
        if j > 0 {
            assert(lt(b[0], b[j]));
            if i > 0 {
                assert(lt(a[0], a[i]));
                assert(lt(a[0], a[0]));
            }
        }
        assert(a[0] == b[0]);
        let a1 = a.skip(1);
        let b1 = b.skip(1);
        assert(a1.to_set() =~= b1.to_set()) by {
            assert forall|x: T| a1.contains(x) == b1.contains(x) by {
                if a1.contains(x) {
                    let p = choose|p: int| 0 <= p < a1.len() && a1[p] == x;
                    assert(a[p + 1] == x);
                    assert(lt(a[0], a[p + 1]));
                    assert(b.contains(x));
                    let q = choose|q: int| 0 <= q < b.len() && b[q] == x;
                    assert(q != 0);
                    assert(b1[q - 1] == x);
                }
                if b1.contains(x) {
                    let p = choose|p: int| 0 <= p < b1.len() && b1[p] == x;
                    assert(b[p + 1] == x);
                    assert(lt(b[0], b[p + 1]));
                    assert(a.contains(x));
                    let q = choose|q: int| 0 <= q < a.len() && a[q] == x;
                    assert(q != 0);
                    assert(a1[q - 1] == x);
                }
            }
        }
        ascending_is_unique(lt, a1, b1);
        assert(a =~= seq![a[0]] + a1);
        assert(b =~= seq![b[0]] + b1);
    }
}

/// An ascending list is the listing of its own elements.
pub proof fn ascending_is_listing<T>(lt: spec_fn(T, T) -> bool, s: Seq<T>)
    requires
        strict_order(lt),
        ascending(lt, s),
    ensures
        listing(lt, s.to_set()) == s,
        s.no_duplicates(),
{
    let t = listing(lt, s.to_set());
    assert(ascending(lt, s) && s.to_set() == s.to_set());
    assert(ascending(lt, t) && t.to_set() == s.to_set());
    ascending_is_unique(lt, s, t);
    assert forall|i: int, j: int| 0 <= i < s.len() && 0 <= j < s.len() && i != j implies s[i]
        != s[j] by {
        if i < j {
            assert(lt(s[i], s[j]));
        } else {
            assert(lt(s[j], s[i]));
        }
    }
}

/// `x` is the first element of a set.
pub open spec fn is_least<T>(lt: spec_fn(T, T) -> bool, set: Set<T>, x: T) -> bool {
    set.contains(x) && forall|y: T| #[trigger] set.contains(y) ==> y == x || lt(x, y)
}

proof fn least_exists<T>(lt: spec_fn(T, T) -> bool, set: Set<T>) -> (x: T)
    requires
        strict_order(lt),
        set.finite(),
        set.len() > 0,
    ensures
        is_least(lt, set, x),
    decreases set.len(),
{
    let a = set.choose();
    let rest = set.remove(a);
    if rest.len() == 0 {
        assert forall|y: T| #[trigger] set.contains(y) implies y == a || lt(a, y) by {
            if y != a {
                assert(rest.contains(y));
            }
        }
        a
    } else {
        let b = least_exists(lt, rest);
        let x = if lt(a, b) {
            a
        } else {
            b
        };
        assert forall|y: T| #[trigger] set.contains(y) implies y == x || lt(x, y) by {
            if y != a {
                assert(rest.contains(y));
            }
        }
        x
    }
}

/// Every finite set has an ascending list of its elements.
pub proof fn finite_sets_are_listed<T>(lt: spec_fn(T, T) -> bool, set: Set<T>)
    requires
        strict_order(lt),
        set.finite(),
    ensures
        ascending(lt, listing(lt, set)),
        listing(lt, set).to_set() == set,
        listing(lt, set).no_duplicates(),
    decreases set.len(),
{
    if set.len() == 0 {
        let none = Seq::<T>::empty();
        assert(none.to_set() =~= set);
        assert(ascending(lt, none) && none.to_set() == set);
    } else {
        let x = least_exists(lt, set);
        let rest = set.remove(x);
        finite_sets_are_listed(lt, rest);
        let tail = listing(lt, rest);
        let list = seq![x] + tail;
        assert forall|i: int, j: int| 0 <= i < j < list.len() implies lt(
            #[trigger] list[i],
            #[trigger] list[j],
        ) by {
            if i == 0 {
                assert(tail.to_set().contains(tail[j - 1]));
                assert(set.contains(list[j]));
            } else {
                assert(lt(tail[i - 1], tail[j - 1]));
            }
        }
        assert(list.to_set() =~= set) by {
            assert forall|y: T| list.to_set().contains(y) == set.contains(y) by {
                if set.contains(y) {
                    if y == x {
                        assert(list[0] == x);
                    } else {
                        assert(tail.to_set().contains(y));
                        let j = choose|j: int| 0 <= j < tail.len() && tail[j] == y;
                        assert(list[j + 1] == y);
                    }
                }
                if list.contains(y) {
                    let j = choose|j: int| 0 <= j < list.len() && list[j] == y;
                    if j > 0 {
                        assert(tail.to_set().contains(tail[j - 1]));
                    }
                }
            }
        }
        assert(ascending(lt, list) && list.to_set() == set);
    }
    ascending_is_listing(lt, listing(lt, set));
}

/// Where `k` stands in an ascending list of keys: whether it is there, and
/// how many keys come before it.
pub fn locate<K: Key>(keys: &Vec<K>, k: &K) -> (r: (bool, usize))
    requires
        ascending(key_order::<K>(), keys.model()),
    ensures
        r.1 <= keys.len(),
        forall|j: int| 0 <= j < r.1 ==> K::less(#[trigger] keys.model()[j], k.model()),
        r.0 ==> r.1 < keys.len() && keys.model()[r.1 as int] == k.model(),
        !r.0 ==> forall|j: int| r.1 <= j < keys.len() ==> K::less(
            k.model(),
            #[trigger] keys.model()[j],
        ),
        r.0 == keys.model().contains(k.model()),
{
    let ghost lt = key_order::<K>();
    let ghost model = keys.model();
    proof {
        key_order_is_strict::<K>();
    }
    let mut lo: usize = 0;
    let mut hi: usize = keys.len();
    while lo < hi
        invariant
            model == keys.model(),
            lt == key_order::<K>(),
            strict_order(lt),
            ascending(lt, model),
            lo <= hi <= keys.len(),
            forall|j: int| 0 <= j < lo ==> K::less(#[trigger] model[j], k.model()),
            forall|j: int| hi <= j < keys.len() ==> K::less(k.model(), #[trigger] model[j]),
        decreases hi - lo,
    {
        let mid: usize = lo + (hi - lo) / 2;
        match keys[mid].compare(k) {
            Rel::Less => {
                assert forall|j: int| 0 <= j < mid + 1 implies K::less(
                    #[trigger] model[j],
                    k.model(),
                ) by {
                    if j < mid {
                        assert(lt(model[j], model[mid as int]));
                        assert(lt(model[mid as int], k.model()));
                        assert(lt(model[j], k.model()));
                    }
                }
                lo = mid + 1;
            },
            Rel::Same => {
                assert forall|j: int| 0 <= j < mid implies K::less(
                    #[trigger] model[j],
                    k.model(),
                ) by {
                    assert(lt(model[j], model[mid as int]));
                }
                assert(model[mid as int] == k.model());
                return (true, mid);
            },
            Rel::Greater => {
                assert forall|j: int| mid <= j < keys.len() implies K::less(
                    k.model(),
                    #[trigger] model[j],
                ) by {
                    if mid < j {
                        assert(lt(k.model(), model[mid as int]));
                        assert(lt(model[mid as int], model[j]));
                        assert(lt(k.model(), model[j]));
                    }
                }
                hi = mid;
            },
        }
    }
    assert forall|j: int| 0 <= j < model.len() implies #[trigger] model[j] != k.model() by {
        K::irreflexive(k.model());
    }
    (false, lo)
}

/// A set of keys, held as their ascending list.
pub struct SortedSet<K: Key> {
    items: Vec<K>,
}

impl<K: Key> View for SortedSet<K> {
    type V = Set<K::Model>;

    closed spec fn view(&self) -> Set<K::Model> {
        self.items.model().to_set()
    }
}

impl<K: Key> SortedSet<K> {
    /// The keys in ascending order.
    pub closed spec fn listed(&self) -> Seq<K::Model> {
        self.items.model()
    }

    pub closed spec fn wf(&self) -> bool {
        ascending(key_order::<K>(), self.items.model())
    }

    /// The ascending list is determined by the set.
    pub proof fn listed_is_listing(&self)
        requires
            self.wf(),
        ensures
            self.listed() == listing(key_order::<K>(), self@),
            self.listed().to_set() == self@,
            self.listed().no_duplicates(),
            ascending(key_order::<K>(), self.listed()),
    {
        key_order_is_strict::<K>();
        ascending_is_listing(key_order::<K>(), self.items.model());
    }

    pub fn new() -> (s: Self)
        ensures
            s.wf(),
            s@ == Set::<K::Model>::empty(),
    {
        let s = SortedSet { items: Vec::new() };
        assert(s.items.model() =~= Seq::empty());
        assert(s@ =~= Set::empty());
        s
    }

    pub fn len(&self) -> (n: usize)
        ensures
            n == self.listed().len(),
    {
        self.items.len()
    }

    /// The `i`-th key in ascending order.
    pub fn at(&self, i: usize) -> (k: &K)
        requires
            i < self.listed().len(),
        ensures
            k.model() == self.listed()[i as int],
    {
        &self.items[i]
    }

    pub fn contains(&self, k: &K) -> (r: bool)
        requires
            self.wf(),
        ensures
            r == self@.contains(k.model()),
    {
        let (found, _): (bool, usize) = locate(&self.items, k);
        found
    }

    /// Adds `k`; says whether it was not there before.
    pub fn insert(&mut self, k: K) -> (fresh: bool)
        requires
            old(self).wf(),
        ensures
            final(self).wf(),
            final(self)@ == old(self)@.insert(k.model()),
            fresh == !old(self)@.contains(k.model()),
    {
        let ghost lt = key_order::<K>();
        let ghost before = self.items.model();
        let (found, i): (bool, usize) = locate(&self.items, &k);
        if found {
            assert(self@ =~= old(self)@.insert(k.model()));
            return false;
        }
        let ghost km = k.model();
        self.items.insert(i, k);
        proof {
            let after = self.items.model();
            assert(after =~= before.insert(i as int, km));
            assert forall|p: int, q: int| 0 <= p < q < after.len() implies lt(
                #[trigger] after[p],
                #[trigger] after[q],
            ) by {
                let pp = if p < i { p } else { p - 1 };
                let qq = if q < i { q } else { q - 1 };
                if p != i {
                    assert(after[p] == before[pp]);
                }
                if q != i {
                    assert(after[q] == before[qq]);
                }
                if p != i && q != i {
                    assert(lt(before[pp], before[qq]));
                }
            }
            assert forall|x: K::Model| after.to_set().contains(x) == before.to_set().insert(
                km,
            ).contains(x) by {
                if before.contains(x) {
                    let p = choose|p: int| 0 <= p < before.len() && before[p] == x;
                    assert(after[if p < i { p } else { p + 1 }] == x);
                }
                if x == km {
                    assert(after[i as int] == x);
                }
                if after.contains(x) {
                    let p = choose|p: int| 0 <= p < after.len() && after[p] == x;
                    if p != i {
                        assert(before[if p < i { p } else { p - 1 }] == x);
                    }
                }
            }
            assert(after.to_set() =~= before.to_set().insert(km));
        }
        true
    }

    /// Takes `k` out; says whether it was there.
    pub fn remove(&mut self, k: &K) -> (found: bool)
        requires
            old(self).wf(),
        ensures
            final(self).wf(),
            final(self)@ == old(self)@.remove(k.model()),
            found == old(self)@.contains(k.model()),
    {
        let ghost lt = key_order::<K>();
        let ghost before = self.items.model();
        let (found, i): (bool, usize) = locate(&self.items, k);
        if found {
            proof {
                key_order_is_strict::<K>();
            }
            let _ = self.items.remove(i);
            proof {
                let after = self.items.model();
                assert(after =~= before.remove(i as int));
                removed_from_ascending(lt, before, i as int);
                assert(after.to_set() =~= before.to_set().remove(k.model()));
            }
            true
        } else {
            assert(self@ =~= old(self)@.remove(k.model()));
            false
        }
    }

    /// A set with the same elements.
    pub fn duplicate(&self) -> (r: Self)
        requires
            self.wf(),
        ensures
            r.wf(),
            r@ == self@,
            r.listed() == self.listed(),
    {
        SortedSet { items: self.items.duplicate() }
    }

    /// Whether two sets have the same elements.
    pub fn same_elements(&self, other: &Self) -> (r: bool)
        requires
            self.wf(),
            other.wf(),
        ensures
            r == (self@ == other@),
    {
        proof {
            self.listed_is_listing();
            other.listed_is_listing();
        }
        crate::order::same(&self.items, &other.items)
    }
}

/// What taking one element out of an ascending list leaves.
proof fn removed_from_ascending<T>(lt: spec_fn(T, T) -> bool, s: Seq<T>, i: int)
    requires
        strict_order(lt),
        ascending(lt, s),
        0 <= i < s.len(),
    ensures
        ascending(lt, s.remove(i)),
        s.remove(i).to_set() == s.to_set().remove(s[i]),
{
    let after = s.remove(i);
    assert forall|p: int, q: int| 0 <= p < q < after.len() implies lt(
        #[trigger] after[p],
        #[trigger] after[q],
    ) by {
        let pp = if p < i { p } else { p + 1 };
        let qq = if q < i { q } else { q + 1 };
        assert(after[p] == s[pp] && after[q] == s[qq]);
        assert(lt(s[pp], s[qq]));
    }
    assert forall|x: T| after.to_set().contains(x) == s.to_set().remove(s[i]).contains(x) by {
        if after.contains(x) {
            let p = choose|p: int| 0 <= p < after.len() && after[p] == x;
            let pp = if p < i { p } else { p + 1 };
            assert(s[pp] == x);
            if pp < i {
                assert(lt(s[pp], s[i]));
            } else {
                assert(lt(s[i], s[pp]));
            }
            assert(x != s[i]);
        }
        if s.contains(x) && x != s[i] {
            let p = choose|p: int| 0 <= p < s.len() && s[p] == x;
            assert(after[if p < i { p } else { p - 1 }] == x);
        }
    }
    assert(after.to_set() =~= s.to_set().remove(s[i]));
}

/// The value standing beside `k` in two parallel lists.
pub open spec fn paired<M, V>(keys: Seq<M>, values: Seq<V>) -> Map<M, V> {
    Map::new(|k: M| keys.contains(k), |k: M| values[keys.index_of(k)])
}

proof fn paired_at<M, V>(keys: Seq<M>, values: Seq<V>, i: int)
    requires
        keys.no_duplicates(),
        keys.len() == values.len(),
        0 <= i < keys.len(),
    ensures
        paired(keys, values).dom().contains(keys[i]),
        paired(keys, values)[keys[i]] == values[i],
{
    assert(keys.contains(keys[i]));
    let j = keys.index_of(keys[i]);
    assert(keys[j] == keys[i]);
}

/// Writing one of the values changes the map at its key alone.
proof fn replaced_in_pairs<M, V>(keys: Seq<M>, values: Seq<V>, i: int)
    requires
        keys.no_duplicates(),
        keys.len() == values.len(),
        0 <= i < keys.len(),
    ensures
        forall|v: V|
            paired(keys, #[trigger] values.update(i, v)) == paired(keys, values).insert(keys[i], v),
{
    assert forall|v: V|
        paired(keys, #[trigger] values.update(i, v)) == paired(keys, values).insert(
            keys[i],
            v,
        ) by {
        let after = values.update(i, v);
        assert forall|x: M| keys.contains(x) implies #[trigger] paired(keys, after)[x] == paired(
            keys,
            values,
        ).insert(keys[i], v)[x] by {
            let p = keys.index_of(x);
            assert(keys[p] == x);
            paired_at(keys, values, p);
            paired_at(keys, after, p);
        }
        assert(keys.contains(keys[i]));
        assert(paired(keys, after) =~= paired(keys, values).insert(keys[i], v));
    }
}

/// A map from keys to values, held as the ascending list of its keys beside
/// the list of their values.
pub struct SortedMap<K: Key, V> {
    keys: Vec<K>,
    values: Vec<V>,
}

impl<K: Key, V> View for SortedMap<K, V> {
    type V = Map<K::Model, V>;

    closed spec fn view(&self) -> Map<K::Model, V> {
        paired(self.keys.model(), self.values@)
    }
}

impl<K: Key, V> SortedMap<K, V> {
    /// The keys in ascending order.
    pub closed spec fn listed(&self) -> Seq<K::Model> {
        self.keys.model()
    }

    pub closed spec fn wf(&self) -> bool {
        &&& ascending(key_order::<K>(), self.keys.model())
        &&& self.keys.len() == self.values.len()
    }

    /// The ascending list of keys is determined by the map.
    pub proof fn listed_is_listing(&self)
        requires
            self.wf(),
        ensures
            self.listed() == listing(key_order::<K>(), self@.dom()),
            self.listed().to_set() == self@.dom(),
            self.listed().no_duplicates(),
            ascending(key_order::<K>(), self.listed()),
    {
        key_order_is_strict::<K>();
        ascending_is_listing(key_order::<K>(), self.keys.model());
        assert(self@.dom() =~= self.keys.model().to_set());
    }

    pub fn new() -> (m: Self)
        ensures
            m.wf(),
            m@ == Map::<K::Model, V>::empty(),
    {
        let m = SortedMap { keys: Vec::new(), values: Vec::new() };
        assert(m.keys.model() =~= Seq::empty());
        assert(m@ =~= Map::empty());
        m
    }

    pub fn len(&self) -> (n: usize)
        ensures
            n == self.listed().len(),
    {
        self.keys.len()
    }

    /// The `i`-th key in ascending order.
    pub fn key_at(&self, i: usize) -> (k: &K)
        requires
            i < self.listed().len(),
        ensures
            k.model() == self.listed()[i as int],
    {
        &self.keys[i]
    }

    /// The value of the `i`-th key in ascending order.
    pub fn value_at(&self, i: usize) -> (v: &V)
        requires
            self.wf(),
            i < self.listed().len(),
        ensures
            self@.dom().contains(self.listed()[i as int]),
            *v == self@[self.listed()[i as int]],
    {
        proof {
            self.listed_is_listing();
            paired_at(self.keys.model(), self.values@, i as int);
        }
        &self.values[i]
    }

    /// The values, in the ascending order of their keys.
    pub fn into_values(self) -> (r: Vec<V>)
        requires
            self.wf(),
        ensures
            r@.len() == self.listed().len(),
            forall|i: int| 0 <= i < r@.len() ==> (#[trigger] r@[i]) == self@[self.listed()[i]],
    {
        proof {
            self.listed_is_listing();
            assert forall|i: int| 0 <= i < self.values@.len() implies (#[trigger] self.values@[i])
                == self@[self.listed()[i]] by {
                paired_at(self.keys.model(), self.values@, i);
            }
        }
        self.values
    }

    pub fn contains_key(&self, k: &K) -> (r: bool)
        requires
            self.wf(),
        ensures
            r == self@.dom().contains(k.model()),
    {
        let (found, _): (bool, usize) = locate(&self.keys, k);
        found
    }

    pub fn get(&self, k: &K) -> (r: Option<&V>)
        requires
            self.wf(),
        ensures
            match r {
                Some(v) => self@.dom().contains(k.model()) && *v == self@[k.model()],
                None => !self@.dom().contains(k.model()),
            },
    {
        let (found, i): (bool, usize) = locate(&self.keys, k);
        if found {
            proof {
                self.listed_is_listing();
                paired_at(self.keys.model(), self.values@, i as int);
            }
            Some(&self.values[i])
        } else {
            None
        }
    }

    /// The value of `k`, to be changed in place.
    pub fn get_mut(&mut self, k: &K) -> (r: Option<&mut V>)
        requires
            old(self).wf(),
        ensures
            final(self).wf(),
            match r {
                Some(v) => {
                    &&& old(self)@.dom().contains(k.model())
                    &&& *v == old(self)@[k.model()]
                    &&& final(self)@ == old(self)@.insert(k.model(), *final(v))
                },
                None => !old(self)@.dom().contains(k.model()) && *final(self) == *old(self),
            },
    {
        let ghost names = self.keys.model();
        let ghost vals = self.values@;
        proof {
            self.listed_is_listing();
        }
        let (found, i): (bool, usize) = locate(&self.keys, k);
        if found {
            proof {
                paired_at(names, vals, i as int);
                replaced_in_pairs(names, vals, i as int);
            }
            Some(&mut self.values[i])
        } else {
            None
        }
    }

    /// Gives `k` the value `v`, in place of any value it had.
    pub fn insert(&mut self, k: K, v: V)
        requires
            old(self).wf(),
        ensures
            final(self).wf(),
            final(self)@ == old(self)@.insert(k.model(), v),
    {
        let ghost lt = key_order::<K>();
        let ghost before = self.keys.model();
        let ghost vals = self.values@;
        let ghost km = k.model();
        proof {
            self.listed_is_listing();
        }
        let (found, i): (bool, usize) = locate(&self.keys, &k);
        if found {
            self.values.set(i, v);
            proof {
                assert(self.values@ =~= vals.update(i as int, v));
                assert forall|x: K::Model| before.contains(x) implies #[trigger] self@[x]
                    == old(self)@.insert(km, v)[x] by {
                    let p = before.index_of(x);
                    assert(before[p] == x);
                    paired_at(before, self.values@, p);
                    paired_at(before, vals, p);
                }
                assert(self@ =~= old(self)@.insert(km, v));
            }
            return ;
        }
        self.keys.insert(i, k);
        self.values.insert(i, v);
        proof {
            let after = self.keys.model();
            assert(after =~= before.insert(i as int, km));
            assert(self.values@ =~= vals.insert(i as int, v));
            assert forall|p: int, q: int| 0 <= p < q < after.len() implies lt(
                #[trigger] after[p],
                #[trigger] after[q],
            ) by {
                let pp = if p < i { p } else { p - 1 };
                let qq = if q < i { q } else { q - 1 };
                if p != i {
                    assert(after[p] == before[pp]);
                }
                if q != i {
                    assert(after[q] == before[qq]);
                }
                if p != i && q != i {
                    assert(lt(before[pp], before[qq]));
                }
            }
            self.listed_is_listing();
            assert forall|x: K::Model| after.contains(x) == (before.contains(x) || x == km) by {
                if before.contains(x) {
                    let p = choose|p: int| 0 <= p < before.len() && before[p] == x;
                    assert(after[if p < i { p } else { p + 1 }] == x);
                }
                if x == km {
                    assert(after[i as int] == x);
                }
                if after.contains(x) {
                    let p = choose|p: int| 0 <= p < after.len() && after[p] == x;
                    if p != i {
                        assert(before[if p < i { p } else { p - 1 }] == x);
                    }
                }
            }
            assert forall|x: K::Model| after.contains(x) implies #[trigger] self@[x] == old(
                self,
            )@.insert(km, v)[x] by {
                let p = after.index_of(x);
                assert(after[p] == x);
                paired_at(after, self.values@, p);
                if p != i {
                    let pp = if p < i { p } else { p - 1 };
                    assert(before[pp] == x);
                    paired_at(before, vals, pp);
                }
            }
            assert(self@ =~= old(self)@.insert(km, v));
        }
    }

    /// Takes `k` and its value out.
    pub fn remove(&mut self, k: &K) -> (r: Option<V>)
        requires
            old(self).wf(),
        ensures
            final(self).wf(),
            final(self)@ == old(self)@.remove(k.model()),
            match r {
                Some(v) => old(self)@.dom().contains(k.model()) && v == old(self)@[k.model()],
                None => !old(self)@.dom().contains(k.model()),
            },
    {
        let ghost lt = key_order::<K>();
        let ghost before = self.keys.model();
        let ghost vals = self.values@;
        proof {
            self.listed_is_listing();
            key_order_is_strict::<K>();
        }
        let (found, i): (bool, usize) = locate(&self.keys, k);
        if found {
            let _ = self.keys.remove(i);
            let v = self.values.remove(i);
            proof {
                let after = self.keys.model();
                assert(after =~= before.remove(i as int));
                assert(self.values@ =~= vals.remove(i as int));
                removed_from_ascending(lt, before, i as int);
                paired_at(before, vals, i as int);
                self.listed_is_listing();
                assert forall|x: K::Model| after.contains(x) == (before.contains(x) && x
                    != k.model()) by {
                    assert(after.to_set().contains(x) == before.to_set().remove(
                        before[i as int],
                    ).contains(x));
                }
                assert forall|x: K::Model| after.contains(x) implies #[trigger] self@[x] == old(
                    self,
                )@.remove(k.model())[x] by {
                    let p = after.index_of(x);
                    assert(after[p] == x);
                    paired_at(after, self.values@, p);
                    let pp = if p < i { p } else { p + 1 };
                    assert(before[pp] == x);
                    paired_at(before, vals, pp);
                }
                assert(self@ =~= old(self)@.remove(k.model()));
            }
            Some(v)
        } else {
            assert(self@ =~= old(self)@.remove(k.model()));
            None
        }
    }
}

/// Puts some numbers into the order that `before` tells.
pub fn arrange<F: Fn(usize, usize) -> bool>(
    given: &Vec<usize>,
    before: F,
    Ghost(lt): Ghost<spec_fn(usize, usize) -> bool>,
) -> (r: Vec<usize>)
    requires
        strict_order(lt),
        given@.no_duplicates(),
        forall|a: usize, b: usize|
            given@.contains(a) && given@.contains(b) ==> #[trigger] before.requires((a, b)),
        forall|a: usize, b: usize, r: bool|
            given@.contains(a) && given@.contains(b) && #[trigger] before.ensures((a, b), r)
                ==> r == lt(a, b),
    ensures
        ascending(lt, r@),
        r@.to_set() == given@.to_set(),
        r@.len() == given@.len(),
{
    let mut order: Vec<usize> = Vec::new();
    let mut i: usize = 0;
    while i < given.len()
        invariant
            strict_order(lt),
            given@.no_duplicates(),
            forall|a: usize, b: usize|
                given@.contains(a) && given@.contains(b) ==> #[trigger] before.requires((a, b)),
            forall|a: usize, b: usize, r: bool|
                given@.contains(a) && given@.contains(b) && #[trigger] before.ensures((a, b), r)
                    ==> r == lt(a, b),
            i <= given@.len(),
            order@.len() == i,
            ascending(lt, order@),
            forall|x: usize| #[trigger]
                order@.contains(x) <==> given@.take(i as int).contains(x),
        decreases given@.len() - i,
    {
        let x: usize = given[i];
        assert(given@.contains(x));
        let mut p: usize = order.len();
        let mut placed: bool = false;
        while p > 0 && !placed
            invariant
                strict_order(lt),
                given@.contains(x),
                forall|a: usize, b: usize|
                    given@.contains(a) && given@.contains(b) ==> #[trigger] before.requires((a, b)),
                forall|a: usize, b: usize, r: bool|
                    given@.contains(a) && given@.contains(b) && #[trigger] before.ensures((a, b), r)
                        ==> r == lt(a, b),
                i < given@.len(),
                forall|y: usize| #[trigger]
                    order@.contains(y) <==> given@.take(i as int).contains(y),
                p <= order@.len(),
                forall|b: int| p <= b < order@.len() ==> lt(x, #[trigger] order@[b]),
                placed ==> p > 0 && !lt(x, order@[p - 1]),
            decreases p, (if placed { 0int } else { 1int }),
        {
            let y: usize = order[p - 1];
            proof {
                assert(order@.contains(y));
                let q = choose|q: int|
                    0 <= q < given@.take(i as int).len() && given@.take(i as int)[q] == y;
                assert(given@[q] == y);
            }
            if before(x, y) {
                p = p - 1;
            } else {
                placed = true;
            }
        }
        let ghost had = order@;
        order.insert(p, x);
        proof {
            let now = order@;
            assert(now =~= had.insert(p as int, x));
            assert forall|b: int| 0 <= b < p implies lt(#[trigger] had[b], x) by {
                let y = had[p - 1];
                assert(had.contains(y));
                let q = choose|q: int|
                    0 <= q < given@.take(i as int).len() && given@.take(i as int)[q] == y;
                assert(given@[q] != given@[i as int]);
                assert(lt(y, x) || lt(x, y));
                if b < p - 1 {
                    assert(lt(had[b], y));
                }
            }
            assert forall|a: int, b: int| 0 <= a < b < now.len() implies lt(
                #[trigger] now[a],
                #[trigger] now[b],
            ) by {
                let aa = if a < p { a } else { a - 1 };
                let bb = if b < p { b } else { b - 1 };
                if a != p {
                    assert(now[a] == had[aa]);
                }
                if b != p {
                    assert(now[b] == had[bb]);
                }
            }
            let upto = given@.take(i + 1);
            assert forall|y: usize| #[trigger] now.contains(y) <==> upto.contains(y) by {
                if now.contains(y) {
                    let q = choose|q: int| 0 <= q < now.len() && now[q] == y;
                    if q == p {
                        assert(upto[i as int] == y);
                    } else {
                        assert(had[if q < p { q } else { q - 1 }] == y);
                        assert(had.contains(y));
                        let k = choose|k: int|
                            0 <= k < given@.take(i as int).len() && given@.take(i as int)[k] == y;
                        assert(upto[k] == y);
                    }
                }
                if upto.contains(y) {
                    let k = choose|k: int| 0 <= k < upto.len() && upto[k] == y;
                    if k == i {
                        assert(now[p as int] == y);
                    } else {
                        assert(given@.take(i as int)[k] == y);
                        assert(had.contains(y));
                        let q = choose|q: int| 0 <= q < had.len() && had[q] == y;
                        assert(now[if q < p { q } else { q + 1 }] == y);
                    }
                }
            }
        }
        i = i + 1;
    }
    proof {
        assert(given@.take(i as int) =~= given@);
        assert(order@.to_set() =~= given@.to_set());
    }
    order
}

} // verus!
