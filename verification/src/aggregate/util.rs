//! Helpers for showing rows: split-key candidates, tree labels and times.

use vstd::prelude::*;

use crate::aggregate::ring::EntryModel;
use crate::aggregate::state::Aggregator;
use crate::aggregate::types::BucketKey;
use crate::double::{
    nearest, nearest_is_close, nearest_of, quotient_double, quotient_of, quotients_are_close,
    whole_double, whole_double_of, whole_doubles_are_close, LEAST,
};
use crate::order::{key_order, same, Key};
use crate::protocol::Text;
use crate::sorted::{listing, SortedSet};
use crate::text::{decimal, u64_text};

verus! {

/// Some span with the given stack has a field with the given name.
pub open spec fn is_candidate(ring: Seq<EntryModel>, stack: Seq<Text>, name: Text) -> bool {
    exists|i: int, j: int|
        #![trigger ring[i].span.fields[j]]
        0 <= i < ring.len() && ring[i].bucket.stack == stack && 0 <= j < ring[i].span.fields.len()
            && ring[i].span.fields[j].0 == name
}

/// The names of the fields of the spans with the given stack, ascending.
pub open spec fn candidates(ring: Seq<EntryModel>, stack: Seq<Text>) -> Seq<Text> {
    listing(key_order::<String>(), Set::new(|name: Text| is_candidate(ring, stack, name)))
}

/// The names of the fields of the spans with the given stack, ascending.
pub fn candidate_split_keys_for(agg: &Aggregator, target_stack: &Vec<String>) -> (r: Vec<String>)
    requires
        agg.wf(),
    ensures
        r.model() == candidates(agg@.ring, target_stack.model()),
{
    let ghost ring = agg@.ring;
    let ghost stack = target_stack.model();
    let mut names: SortedSet<String> = SortedSet::new();
    let spans = agg.iter_with_stack();
    let mut i: usize = 0;
    while i < spans.len()
        invariant
            ring == agg@.ring,
            stack == target_stack.model(),
            names.wf(),
            i <= spans@.len(),
            spans@.len() == ring.len(),
            forall|k: int|
                0 <= k < spans@.len() ==> (#[trigger] spans@[k]).0@ == ring[k].span
                    && spans@[k].1.model() == ring[k].bucket.stack,
            forall|name: Text| #[trigger]
                names@.contains(name) <==> is_candidate(ring.take(i as int), stack, name),
        decreases spans@.len() - i,
    {
        let (span, at) = spans[i];
        let ghost before = names@;
        let ghost fields = ring[i as int].span.fields;
        if same(at, target_stack) {
            let mut j: usize = 0;
            while j < span.fields.len()
                invariant
                    names.wf(),
                    span@ == ring[i as int].span,
                    fields == ring[i as int].span.fields,
                    j <= span.fields@.len(),
                    forall|name: Text| #[trigger]
                        names@.contains(name) <==> before.contains(name) || exists|k: int|
                            0 <= k < j && (#[trigger] fields[k]).0 == name,
                decreases span.fields@.len() - j,
            {
                assert(fields[j as int].0 == span.fields@[j as int].0@);
                let _ = names.insert(span.fields[j].0.clone());
                j = j + 1;
            }
        }
        proof {
            let upto = ring.take(i + 1);
            assert forall|name: Text| #[trigger] names@.contains(name) <==> is_candidate(
                upto,
                stack,
                name,
            ) by {
                if is_candidate(upto, stack, name) {
                    let (p, q) = choose|p: int, q: int|
                        #![trigger upto[p].span.fields[q]]
                        0 <= p < upto.len() && upto[p].bucket.stack == stack && 0 <= q
                            < upto[p].span.fields.len() && upto[p].span.fields[q].0 == name;
                    if p < i {
                        assert(ring.take(i as int)[p].span.fields[q].0 == name);
                        assert(is_candidate(ring.take(i as int), stack, name));
                    } else {
                        assert(fields[q].0 == name);
                    }
                }
                if before.contains(name) {
                    let (p, q) = choose|p: int, q: int|
                        #![trigger ring.take(i as int)[p].span.fields[q]]
                        0 <= p < ring.take(i as int).len() && ring.take(
                            i as int,
                        )[p].bucket.stack == stack && 0 <= q < ring.take(
                            i as int,
                        )[p].span.fields.len() && ring.take(i as int)[p].span.fields[q].0 == name;
                    assert(upto[p].span.fields[q].0 == name);
                }
                if names@.contains(name) && !before.contains(name) {
                    let q = choose|q: int|
                        0 <= q < span.fields@.len() && (#[trigger] fields[q]).0 == name;
                    assert(upto[i as int].span.fields[q].0 == name);
                }
            }
        }
        i = i + 1;
    }
    let mut out: Vec<String> = Vec::new();
    let mut k: usize = 0;
    while k < names.len()
        invariant
            k <= names.listed().len(),
            out@.len() == k,
            forall|j: int| 0 <= j < k ==> (#[trigger] out@[j])@ == names.listed()[j],
        decreases names.listed().len() - k,
    {
        out.push(names.at(k).clone());
        k = k + 1;
    }
    proof {
        assert(ring.take(i as int) =~= ring);
        names.listed_is_listing();
        assert(names@ =~= Set::new(|name: Text| is_candidate(ring, stack, name)));
        assert(out.model() =~= names.listed());
    }
    out
}

/// The stacks of some rows.
pub open spec fn stacks_of<T>(rows: Seq<(BucketKey, T)>) -> Seq<Seq<Text>> {
    rows.map_values(|r: (BucketKey, T)| r.0.stack.model())
}

/// `stack` begins with the first `n` names of `of`.
pub open spec fn shares_prefix(stack: Seq<Text>, of: Seq<Text>, n: int) -> bool {
    stack.len() >= n && stack.take(n) == of.take(n)
}

/// After row `i`, and before any row outside the subtree of its ancestor at
/// depth `d - 1`, there is a row with another name at depth `d`.
pub open spec fn sibling_follows(stacks: Seq<Seq<Text>>, i: int, d: int) -> bool {
    let own = stacks[i];
    0 < d <= own.len() && exists|j: int|
        {
            &&& i < j < stacks.len()
            &&& forall|k: int| i < k <= j ==> shares_prefix(#[trigger] stacks[k], own, d - 1)
            &&& stacks[j].len() >= d
            &&& (#[trigger] stacks[j])[d - 1] != own[d - 1]
        }
}

fn has_sibling_after<T>(rows: &[(BucketKey, T)], i: usize, d: usize) -> (r: bool)
    requires
        i < rows@.len(),
    ensures
        r == sibling_follows(stacks_of(rows@), i as int, d as int),
{
    let ghost stacks = stacks_of(rows@);
    let ghost own = stacks[i as int];
    let s = &rows[i].0.stack;
    if d == 0 || d > s.len() {
        return false;
    }
    let mut j: usize = i + 1;
    while j < rows.len()
        invariant
            stacks == stacks_of(rows@),
            i < j <= rows@.len(),
            own == stacks[i as int],
            s.model() == own,
            0 < d <= own.len(),
            forall|k: int| i < k < j ==> shares_prefix(#[trigger] stacks[k], own, d - 1),
            forall|k: int|
                i < k < j && stacks[k].len() >= d ==> (#[trigger] stacks[k])[d - 1] == own[d - 1],
        decreases rows@.len() - j,
    {
        let sj = &rows[j].0.stack;
        assert(sj.model() == stacks[j as int]);
        let mut shared: bool = sj.len() >= d - 1;
        if shared {
            let mut k: usize = 0;
            while k < d - 1 && shared
                invariant
                    0 < d <= own.len(),
                    s.model() == own,
                    sj.model() == stacks[j as int],
                    sj@.len() >= d - 1,
                    k <= d - 1,
                    shared ==> forall|x: int| 0 <= x < k ==> stacks[j as int][x] == own[x],
                    !shared ==> !shares_prefix(stacks[j as int], own, d - 1),
                decreases d - k, (if shared { 1int } else { 0int }),
            {
                if same(&sj[k], &s[k]) {
                    k = k + 1;
                } else {
                    shared = false;
                    assert(stacks[j as int].take(d - 1)[k as int] != own.take(d - 1)[k as int]);
                }
            }
            if shared {
                assert(stacks[j as int].take(d - 1) =~= own.take(d - 1));
            }
        }
        if !shared {
            assert(!shares_prefix(stacks[j as int], own, d - 1));
            return false;
        }
        if sj.len() >= d {
            if !same(&sj[d - 1], &s[d - 1]) {
                assert(stacks[j as int][d - 1] != own[d - 1]);
                return true;
            }
        }
        j = j + 1;
    }
    false
}

/// The branches drawn before the name of row `i`, for depths 2 to `d`.
pub open spec fn branches(stacks: Seq<Seq<Text>>, i: int, d: int) -> Text
    decreases d,
{
    if d < 2 {
        Seq::empty()
    } else {
        let more = sibling_follows(stacks, i, d);
        branches(stacks, i, d - 1) + if d < stacks[i].len() {
            if more {
                "│  "@
            } else {
                "   "@
            }
        } else {
            if more {
                "├─ "@
            } else {
                "└─ "@
            }
        }
    }
}

/// The last name of row `i` behind the branches of the tree.
pub open spec fn label_of(stacks: Seq<Seq<Text>>, i: int) -> Text {
    let own = stacks[i];
    if own.len() == 0 {
        Seq::empty()
    } else {
        branches(stacks, i, own.len() as int) + own.last()
    }
}

/// The last name of row `i` behind the branches of the tree.
pub fn tree_label<T>(rows: &[(BucketKey, T)], i: usize) -> (r: String)
    requires
        i < rows@.len(),
    ensures
        r@ == label_of(stacks_of(rows@), i as int),
{
    let ghost stacks = stacks_of(rows@);
    let ghost own = stacks[i as int];
    let stack = &rows[i].0.stack;
    assert(stack.model() == own);
    let n: usize = stack.len();
    let mut prefix = String::new();
    if n == 0 {
        return prefix;
    }
    let mut d: usize = 1;
    while d < n
        invariant
            i < rows@.len(),
            stacks == stacks_of(rows@),
            own == stacks[i as int],
            n == own.len(),
            1 <= d <= n,
            prefix@ == branches(stacks, i as int, d as int),
        decreases n - d,
    {
        d = d + 1;
        let more: bool = has_sibling_after(rows, i, d);
        if d < n {
            prefix.append(if more { "│  " } else { "   " });
        } else {
            prefix.append(if more { "├─ " } else { "└─ " });
        }
    }
    prefix.append(stack[n - 1].as_str());
    prefix
}

/// `n / d` in double precision, in tenths, rounded to the nearest.
pub open spec fn tenths(n: nat, d: nat) -> nat {
    let (m, den) = quotient_double(whole_double(n, 1), d, 1);
    nearest(10 * m, den)
}

/// A number of tenths with one digit after the point.
pub open spec fn tenths_text(t: nat) -> Text {
    decimal(t / 10).push('.') + decimal(t % 10)
}

/// A time in the largest unit of which there is at least one.
pub open spec fn time_text(ns: u64) -> Text {
    if ns >= 1_000_000_000 {
        tenths_text(tenths(ns as nat, 1_000_000_000)) + "s"@
    } else if ns >= 1_000_000 {
        tenths_text(tenths(ns as nat, 1_000_000)) + "ms"@
    } else if ns >= 1_000 {
        tenths_text(tenths(ns as nat, 1_000)) + "µs"@
    } else {
        decimal(ns as nat) + "ns"@
    }
}

fn in_tenths(ns: u64, d: u64) -> (r: String)
    requires
        1_000 <= d <= 1_000_000_000,
        d <= ns,
    ensures
        r@ == tenths_text(tenths(ns as nat, d as nat)),
{
    let whole: u128 = whole_double_of(ns as u128);
    assert(whole >= d);
    assert(1 * (2 * d as int * LEAST) <= whole * crate::double::DEN_BOUND) by (nonlinear_arith)
        requires
            whole >= d,
            crate::double::DEN_BOUND == 0x10_0000_0000_0000_0000_0000_0000,
            LEAST == 0x10_0000_0000_0000,
    ;
    let (m, den): (u128, u128) = quotient_of(whole, d as u128, 1);
    proof {
        assert(whole / (d as u128) <= whole) by (nonlinear_arith)
            requires
                d >= 1,
        ;
    }
    let t: u128 = nearest_of(10 * m, den);
    proof {
        tenths_fit(ns, d, whole, m, den, t);
    }
    let t64: u64 = t as u64;
    let mut out = u64_text(t64 / 10);
    out.push('.');
    let digit = u64_text(t64 % 10);
    out.append(digit.as_str());
    out
}

/// The tenths of a time fit in 64 bits.
proof fn tenths_fit(ns: u64, d: u64, whole: u128, m: u128, den: u128, t: u128)
    requires
        1_000 <= d <= ns,
        whole <= 2 * ns,
        0 < den,
        m <= 2 * LEAST || m <= whole / (d as u128) + 1,
        t <= 10 * m / den as int + 1,
    ensures
        t <= u64::MAX,
{
    assert(10 * m / den as int <= 10 * m) by (nonlinear_arith)
        requires
            0 < den,
            0 <= m,
    ;
    assert(whole / (d as u128) <= whole / 1000) by (nonlinear_arith)
        requires
            d >= 1000,
            0 <= whole,
    ;
}

/// A time in the largest unit of which there is at least one.
pub fn fmt_ns(ns: u64) -> (r: String)
    ensures
        r@ == time_text(ns),
{
    let mut out;
    if ns >= 1_000_000_000 {
        out = in_tenths(ns, 1_000_000_000);
        out.append("s");
    } else if ns >= 1_000_000 {
        out = in_tenths(ns, 1_000_000);
        out.append("ms");
    } else if ns >= 1_000 {
        out = in_tenths(ns, 1_000);
        out.append("µs");
    } else {
        out = u64_text(ns);
        out.append("ns");
    }
    out
}

/// A quotient in tenths is within half a tenth of the true one, but for a few
/// parts in two to the fifty-second of it.
pub proof fn tenths_are_close(n: nat, d: nat)
    requires
        d > 0,
    ensures
        0x10_0000_0000_0000 * (2 * (tenths(n, d) * d)) <= 0x10_0000_0000_0000 * (20 * n + d) + 30 * n,
        0x10_0000_0000_0000 * (20 * n) <= 0x10_0000_0000_0000 * (2 * (tenths(n, d) * d) + d) + 30
            * n,
{
    let w = whole_double(n, 1);
    whole_doubles_are_close(n, 1);
    let f = quotients_are_close(w, d, 1);
    let (m, e) = quotient_double(w, d, 1);
    let t = nearest(10 * m, e);
    assert(e == f);
    nearest_is_close(10 * m, e);
    let least = 0x10_0000_0000_0000nat;
    let x = t * d;
    // Everything scaled up by the factor.
    assert(2 * ((t * f) * d) <= 2 * ((10 * m) * d) + f * d) by (nonlinear_arith)
        requires
            2 * (t * f) <= 2 * (10 * m) + f,
    ;
    assert(2 * ((10 * m) * d) <= 2 * ((t * f) * d) + f * d) by (nonlinear_arith)
        requires
            2 * (10 * m) <= 2 * (t * f) + f,
    ;
    assert((10 * m) * d == 10 * (m * d)) by (nonlinear_arith);
    assert((t * f) * d == x * f) by (nonlinear_arith)
        requires
            x == t * d,
    ;
    let z = w * f;
    assert(2 * (x * f) <= 20 * z + 10 * d + f * d);
    assert(20 * z <= 2 * (x * f) + 10 * d + f * d);
    if w == 0 {
        assert(n == 0);
        assert(z == 0) by (nonlinear_arith)
            requires
                z == w * f,
                w == 0,
        ;
        assert(m * d == 0) by (nonlinear_arith)
            requires
                2 * (m * d) <= d,
                m >= 0,
                d > 0,
        ;
        assert(m == 0) by (nonlinear_arith)
            requires
                m * d == 0,
                d > 0,
        ;
        assert(t == 0) by (nonlinear_arith)
            requires
                2 * (t * f) <= f,
                f >= 1,
                t >= 0,
        ;
        assert(x == 0) by (nonlinear_arith)
            requires
                x == t * d,
                t == 0,
        ;
    } else {
        assert(z >= d * least);
        assert(least * (2 * x) <= least * (20 * w + d) + 10 * w) by (nonlinear_arith)
            requires
                2 * (x * f) <= 20 * z + 10 * d + f * d,
                z == w * f,
                z >= d * least,
                f >= 1,
        ;
        assert(least * (20 * w) <= least * (2 * x + d) + 10 * w) by (nonlinear_arith)
            requires
                20 * z <= 2 * (x * f) + 10 * d + f * d,
                z == w * f,
                z >= d * least,
                f >= 1,
        ;
        assert(w <= 2 * n);
    }
}

/// A time is printed in seconds, milliseconds, microseconds or nanoseconds,
/// whichever is the largest unit of which there is at least one, and in
/// nanoseconds as it is. Returns the number of tenths that is printed and the
/// unit in nanoseconds.
pub proof fn times_are_printed_in_their_unit(ns: u64) -> (r: (nat, nat))
    ensures
        ({
            let (t, d) = r;
            &&& ns < 1_000 ==> time_text(ns) == decimal(ns as nat) + "ns"@
            &&& ns >= 1_000 ==> {
                &&& d == 1_000 || d == 1_000_000 || d == 1_000_000_000
                &&& d <= ns
                &&& d < 1_000_000_000 ==> ns < 1_000 * d
                &&& time_text(ns) == decimal(t / 10) + seq!['.'] + decimal(t % 10) + if d == 1_000 {
                    "µs"@
                } else if d == 1_000_000 {
                    "ms"@
                } else {
                    "s"@
                }
                &&& 0x10_0000_0000_0000 * (2 * (t * d)) <= 0x10_0000_0000_0000 * (20 * ns + d) + 30
                    * ns
                &&& 0x10_0000_0000_0000 * (20 * ns) <= 0x10_0000_0000_0000 * (2 * (t * d) + d) + 30
                    * ns
            }
        }),
{
    let d: nat = if ns >= 1_000_000_000 {
        1_000_000_000
    } else if ns >= 1_000_000 {
        1_000_000
    } else {
        1_000
    };
    let t = tenths(ns as nat, d);
    tenths_are_close(ns as nat, d);
    assert(decimal(t / 10).push('.') =~= decimal(t / 10) + seq!['.']);
    (t, d)
}

} // verus!
