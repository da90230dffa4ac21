//! Strict total orders, and the types that serve as keys of sorted
//! collections.
//!
//! A key is compared by its mathematical model: a `String` by its
//! characters, a list by its elements, a pair by its halves.

use vstd::prelude::*;

verus! {

/// How one key stands to another.
#[derive(Clone, Copy, Debug, PartialEq, Eq, Structural)]
pub enum Rel {
    Less,
    Same,
    Greater,
}

/// `lt` is irreflexive, transitive and relates any two different values.
pub open spec fn strict_order<T>(lt: spec_fn(T, T) -> bool) -> bool {
    &&& forall|a: T| !#[trigger] lt(a, a)
    &&& forall|a: T, b: T, c: T| #[trigger] lt(a, b) && #[trigger] lt(b, c) ==> lt(a, c)
    &&& forall|a: T, b: T| a == b || #[trigger] lt(a, b) || lt(b, a)
}

/// `a` and `b` agree on their first `i` elements, and then `a` ends or holds
/// the smaller element.
pub open spec fn precedes_at<T>(lt: spec_fn(T, T) -> bool, a: Seq<T>, b: Seq<T>, i: int) -> bool {
    &&& 0 <= i <= a.len()
    &&& i < b.len()
    &&& forall|j: int| 0 <= j < i ==> #[trigger] a[j] == b[j]
    &&& i == a.len() || lt(a[i], b[i])
}

/// The dictionary order on sequences.
pub open spec fn lex_less<T>(lt: spec_fn(T, T) -> bool, a: Seq<T>, b: Seq<T>) -> bool {
    exists|i: int| precedes_at(lt, a, b, i)
}

/// No sequence stands before itself in the dictionary order.
pub proof fn lex_irreflexive<T>(lt: spec_fn(T, T) -> bool, a: Seq<T>)
    requires
        strict_order(lt),
    ensures
        !lex_less(lt, a, a),
{
    if lex_less(lt, a, a) {
        let i = choose|i: int| precedes_at(lt, a, a, i);
        assert(lt(a[i], a[i]));
    }
}

/// The dictionary order is transitive.
pub proof fn lex_transitive<T>(lt: spec_fn(T, T) -> bool, a: Seq<T>, b: Seq<T>, c: Seq<T>)
    requires
        strict_order(lt),
        lex_less(lt, a, b),
        lex_less(lt, b, c),
    ensures
        lex_less(lt, a, c),
{
    let i = choose|i: int| precedes_at(lt, a, b, i);
    let j = choose|j: int| precedes_at(lt, b, c, j);
    let k = if i < j { i } else { j };
    assert(forall|x: int| 0 <= x < k ==> a[x] == b[x] && #[trigger] b[x] == c[x]);
    assert(precedes_at(lt, a, c, k));
}

proof fn lex_total_from<T>(lt: spec_fn(T, T) -> bool, a: Seq<T>, b: Seq<T>, i: int)
    requires
        strict_order(lt),
        0 <= i <= a.len(),
        i <= b.len(),
        forall|j: int| 0 <= j < i ==> #[trigger] a[j] == b[j],
    ensures
        a == b || lex_less(lt, a, b) || lex_less(lt, b, a),
    decreases a.len() - i,
{
    if i == a.len() {
        if i < b.len() {
            assert(precedes_at(lt, a, b, i));
        } else {
            assert(a =~= b);
        }
    } else if i == b.len() {
        assert(precedes_at(lt, b, a, i));
    } else if a[i] == b[i] {
        lex_total_from(lt, a, b, i + 1);
    } else if lt(a[i], b[i]) {
        assert(precedes_at(lt, a, b, i));
    } else {
        assert(lt(b[i], a[i]));
        assert(precedes_at(lt, b, a, i));
    }
}

/// Any two different sequences are related by the dictionary order.
pub proof fn lex_total<T>(lt: spec_fn(T, T) -> bool, a: Seq<T>, b: Seq<T>)
    requires
        strict_order(lt),
    ensures
        a == b || lex_less(lt, a, b) || lex_less(lt, b, a),
{
    lex_total_from(lt, a, b, 0);
}

/// The order of characters by code point.
pub open spec fn char_less() -> spec_fn(char, char) -> bool {
    |x: char, y: char| x < y
}

/// The order of strings: dictionary order by code point, which is also the
/// order of their UTF-8 bytes.
pub open spec fn text_less(a: Seq<char>, b: Seq<char>) -> bool {
    lex_less(char_less(), a, b)
}

/// A value with a mathematical model on which a strict total order is
/// defined.
pub trait Key: Sized {
    type Model;

    spec fn model(&self) -> Self::Model;

    spec fn less(a: Self::Model, b: Self::Model) -> bool;

    proof fn irreflexive(a: Self::Model)
        ensures
            !Self::less(a, a),
    ;

    proof fn transitive(a: Self::Model, b: Self::Model, c: Self::Model)
        requires
            Self::less(a, b),
            Self::less(b, c),
        ensures
            Self::less(a, c),
    ;

    proof fn total(a: Self::Model, b: Self::Model)
        ensures
            a == b || Self::less(a, b) || Self::less(b, a),
    ;

    fn compare(&self, other: &Self) -> (r: Rel)
        ensures
            r is Less ==> Self::less(self.model(), other.model()),
            r is Same ==> self.model() == other.model(),
            r is Greater ==> Self::less(other.model(), self.model()),
    ;

    fn duplicate(&self) -> (r: Self)
        ensures
            r.model() == self.model(),
    ;
}

/// The order of a key type as a function.
pub open spec fn key_order<K: Key>() -> spec_fn(K::Model, K::Model) -> bool {
    |a: K::Model, b: K::Model| K::less(a, b)
}

/// The order of every key type is strict and total.
pub proof fn key_order_is_strict<K: Key>()
    ensures
        strict_order(key_order::<K>()),
{
    let lt = key_order::<K>();
    assert forall|a: K::Model| !#[trigger] lt(a, a) by {
        K::irreflexive(a);
    }
    assert forall|a: K::Model, b: K::Model, c: K::Model| #[trigger]
        lt(a, b) && #[trigger] lt(b, c) implies lt(a, c) by {
        K::transitive(a, b, c);
    }
    assert forall|a: K::Model, b: K::Model| a == b || #[trigger] lt(a, b) || lt(b, a) by {
        K::total(a, b);
    }
}

/// Whether two keys have the same model.
pub fn same<K: Key>(a: &K, b: &K) -> (r: bool)
    ensures
        r == (a.model() == b.model()),
{
    let rel = a.compare(b);
    proof {
        K::irreflexive(a.model());
    }
    match rel {
        Rel::Same => true,
        _ => false,
    }
}

impl Key for u64 {
    type Model = u64;

    open spec fn model(&self) -> u64 {
        *self
    }

    open spec fn less(a: u64, b: u64) -> bool {
        a < b
    }

    proof fn irreflexive(a: u64) {
    }

    proof fn transitive(a: u64, b: u64, c: u64) {
    }

    proof fn total(a: u64, b: u64) {
    }

    fn compare(&self, other: &Self) -> (r: Rel) {
        if *self < *other {
            Rel::Less
        } else if *self == *other {
            Rel::Same
        } else {
            Rel::Greater
        }
    }

    fn duplicate(&self) -> (r: Self) {
        *self
    }
}

impl Key for String {
    type Model = Seq<char>;

    open spec fn model(&self) -> Seq<char> {
        self@
    }

    open spec fn less(a: Seq<char>, b: Seq<char>) -> bool {
        text_less(a, b)
    }

    proof fn irreflexive(a: Seq<char>) {
        lex_irreflexive(char_less(), a);
    }

    proof fn transitive(a: Seq<char>, b: Seq<char>, c: Seq<char>) {
        lex_transitive(char_less(), a, b, c);
    }

    proof fn total(a: Seq<char>, b: Seq<char>) {
        lex_total(char_less(), a, b);
    }

    fn compare(&self, other: &Self) -> (r: Rel) {
        let mut left = self.as_str().chars();
        let mut right = other.as_str().chars();
        let ghost a = self@;
        let ghost b = other@;
        let ghost mut i: int = 0;
        assert(a.skip(0) =~= a);
        assert(b.skip(0) =~= b);
        loop
            invariant
                a == self@,
                b == other@,
                0 <= i <= a.len(),
                i <= b.len(),
                forall|j: int| 0 <= j < i ==> #[trigger] a[j] == b[j],
                vstd::std_specs::iter::IteratorSpec::remaining(&left) == a.skip(i),
                vstd::std_specs::iter::IteratorSpec::remaining(&right) == b.skip(i),
            decreases a.len() - i,
        {
            let x = left.next();
            let y = right.next();
            match (x, y) {
                (None, None) => {
                    assert(a =~= b);
                    return Rel::Same;
                },
                (None, Some(_)) => {
                    assert(precedes_at(char_less(), a, b, i));
                    return Rel::Less;
                },
                (Some(_), None) => {
                    assert(precedes_at(char_less(), b, a, i));
                    return Rel::Greater;
                },
                (Some(c), Some(d)) => {
                    assert(c == a[i] && d == b[i]);
                    if c < d {
                        assert(precedes_at(char_less(), a, b, i));
                        return Rel::Less;
                    }
                    if d < c {
                        assert(precedes_at(char_less(), b, a, i));
                        return Rel::Greater;
                    }
                    assert(a.skip(i).drop_first() =~= a.skip(i + 1));
                    assert(b.skip(i).drop_first() =~= b.skip(i + 1));
                    proof {
                        i = i + 1;
                    }
                },
            }
        }
    }

    fn duplicate(&self) -> (r: Self) {
        self.clone()
    }
}

impl<T: Key> Key for Vec<T> {
    type Model = Seq<T::Model>;

    open spec fn model(&self) -> Seq<T::Model> {
        self@.map_values(|t: T| t.model())
    }

    open spec fn less(a: Seq<T::Model>, b: Seq<T::Model>) -> bool {
        lex_less(key_order::<T>(), a, b)
    }

    proof fn irreflexive(a: Seq<T::Model>) {
        key_order_is_strict::<T>();
        lex_irreflexive(key_order::<T>(), a);
    }

    proof fn transitive(a: Seq<T::Model>, b: Seq<T::Model>, c: Seq<T::Model>) {
        key_order_is_strict::<T>();
        lex_transitive(key_order::<T>(), a, b, c);
    }

    proof fn total(a: Seq<T::Model>, b: Seq<T::Model>) {
        key_order_is_strict::<T>();
        lex_total(key_order::<T>(), a, b);
    }

    fn compare(&self, other: &Self) -> (r: Rel) {
        let ghost a = self.model();
        let ghost b = other.model();
        let mut i: usize = 0;
        while i < self.len() && i < other.len()
            invariant
                a == self.model(),
                b == other.model(),
                i <= self.len(),
                i <= other.len(),
                forall|j: int| 0 <= j < i ==> #[trigger] a[j] == b[j],
            decreases self.len() - i,
        {
            match self[i].compare(&other[i]) {
                Rel::Less => {
                    assert(precedes_at(key_order::<T>(), a, b, i as int));
                    return Rel::Less;
                },
                Rel::Greater => {
                    assert(precedes_at(key_order::<T>(), b, a, i as int));
                    return Rel::Greater;
                },
                Rel::Same => {
                    i = i + 1;
                },
            }
        }
        if i < other.len() {
            assert(precedes_at(key_order::<T>(), a, b, i as int));
            Rel::Less
        } else if i < self.len() {
            assert(precedes_at(key_order::<T>(), b, a, i as int));
            Rel::Greater
        } else {
            assert(a =~= b);
            Rel::Same
        }
    }

    fn duplicate(&self) -> (r: Self) {
        let mut out: Vec<T> = Vec::new();
        let mut i: usize = 0;
        while i < self.len()
            invariant
                i <= self.len(),
                out.len() == i,
                forall|j: int| 0 <= j < i ==> (#[trigger] out[j]).model() == self[j].model(),
            decreases self.len() - i,
        {
            out.push(self[i].duplicate());
            i = i + 1;
        }
        assert(out.model() =~= self.model());
        out
    }
}

impl<A: Key, B: Key> Key for (A, B) {
    type Model = (A::Model, B::Model);

    open spec fn model(&self) -> (A::Model, B::Model) {
        (self.0.model(), self.1.model())
    }

    open spec fn less(a: (A::Model, B::Model), b: (A::Model, B::Model)) -> bool {
        A::less(a.0, b.0) || (a.0 == b.0 && B::less(a.1, b.1))
    }

    proof fn irreflexive(a: (A::Model, B::Model)) {
        A::irreflexive(a.0);
        B::irreflexive(a.1);
    }

    proof fn transitive(
        a: (A::Model, B::Model),
        b: (A::Model, B::Model),
        c: (A::Model, B::Model),
    ) {
        if A::less(a.0, b.0) {
            if A::less(b.0, c.0) {
                A::transitive(a.0, b.0, c.0);
            }
        } else if a.0 == b.0 && b.0 == c.0 {
            B::transitive(a.1, b.1, c.1);
        }
    }

    proof fn total(a: (A::Model, B::Model), b: (A::Model, B::Model)) {
        A::total(a.0, b.0);
        B::total(a.1, b.1);
    }

    fn compare(&self, other: &Self) -> (r: Rel) {
        match self.0.compare(&other.0) {
            Rel::Less => Rel::Less,
            Rel::Greater => Rel::Greater,
            Rel::Same => self.1.compare(&other.1),
        }
    }

    fn duplicate(&self) -> (r: Self) {
        (self.0.duplicate(), self.1.duplicate())
    }
}

/// Texts are in dictionary order: where two differ first, the one with the
/// smaller character stands first, and a text stands before whatever it
/// begins.
pub proof fn texts_are_in_dictionary_order(
    same: Seq<char>,
    c: char,
    d: char,
    x: Seq<char>,
    y: Seq<char>,
)
    requires
        c < d,
    ensures
        text_less(same + seq![c] + x, same + seq![d] + y),
        !text_less(same + seq![d] + y, same + seq![c] + x),
        text_less(same, same + seq![c] + x),
{
    let (a, b) = (same + seq![c] + x, same + seq![d] + y);
    let n = same.len() as int;
    assert(precedes_at(char_less(), a, b, n));
    assert(precedes_at(char_less(), same, a, n));
    if text_less(b, a) {
        let i = choose|i: int| precedes_at(char_less(), b, a, i);
        assert(precedes_at(char_less(), b, a, i));
        if i > n {
            assert(b[n] == a[n]);
        } else if i < n {
            assert(b[i] == a[i]);
        }
    }
}

} // verus!
