//! Where arriving spans belong.

use vstd::prelude::*;

use crate::aggregate::ring::{
    absorbed, as_pairs, bucket_for, child_bucket, credited, credited_each, debited, debited_each,
    has_id, is_lowest_parent, joined, lookup, lowest_parent, own_splits, parked, pending_cap,
    root_bucket, settled, span_total, unique_ids, with_room, with_room_keeps, AggModel, EntryModel,
};
use crate::aggregate::types::{row_less, KeyModel};
use crate::aggregate::util::{
    branches, candidates, is_candidate, label_of, shares_prefix, sibling_follows,
};
use crate::order::{key_order, key_order_is_strict, precedes_at, text_less, Key};
use crate::protocol::{first_named, SpanModel, Text};
use crate::sorted::{finite_sets_are_listed, listing};

verus! {

/// The value is what the first field with the name says.
pub open spec fn first_says(fields: Seq<(Text, Text)>, name: Text, value: Text) -> bool {
    exists|i: int| #[trigger] first_named(fields, name, i) && fields[i].1 == value
}

/// No field has the name.
pub open spec fn says_nothing(fields: Seq<(Text, Text)>, name: Text) -> bool {
    forall|i: int| 0 <= i < fields.len() ==> (#[trigger] fields[i]).0 != name
}

proof fn lookup_is_first(fields: Seq<(Text, Text)>, name: Text, value: Text)
    ensures
        first_says(fields, name, value) <==> lookup(fields).dom().contains(name)
            && lookup(fields)[name] == value,
        says_nothing(fields, name) <==> !lookup(fields).dom().contains(name),
{
    if lookup(fields).dom().contains(name) {
        let k = choose|k: int| first_named(fields, name, k);
        assert(first_named(fields, name, k));
        assert(fields[k].0 == name);
        if first_says(fields, name, value) {
            let i = choose|i: int| #[trigger]
                first_named(fields, name, i) && fields[i].1 == value;
            if k < i {
                assert(fields[k].0 != name);
            } else if i < k {
                assert(fields[i].0 != name);
            }
        }
    } else {
        assert forall|i: int| 0 <= i < fields.len() implies (#[trigger] fields[i]).0 != name by {
            if fields[i].0 == name {
                first_stands(fields, name, i);
            }
        }
    }
}

/// A name that occurs has a first occurrence.
proof fn first_stands(fields: Seq<(Text, Text)>, name: Text, i: int)
    requires
        0 <= i < fields.len(),
        fields[i].0 == name,
    ensures
        exists|k: int| first_named(fields, name, k),
    decreases i,
{
    if exists|j: int| 0 <= j < i && (#[trigger] fields[j]).0 == name {
        let j = choose|j: int| 0 <= j < i && (#[trigger] fields[j]).0 == name;
        first_stands(fields, name, j);
    } else {
        assert(first_named(fields, name, i));
    }
}

/// The pairs of a map are read back, and stand in ascending order.
proof fn pairs_are_read_back(map: Map<Text, Text>)
    requires
        map.dom().finite(),
    ensures
        lookup(as_pairs(map)) == map,
        forall|i: int, j: int|
            0 <= i < j < as_pairs(map).len() ==> text_less(
                (#[trigger] as_pairs(map)[i]).0,
                (#[trigger] as_pairs(map)[j]).0,
            ),
{
    let lt = key_order::<String>();
    key_order_is_strict::<String>();
    finite_sets_are_listed(lt, map.dom());
    let names = listing(lt, map.dom());
    let pairs = as_pairs(map);
    assert forall|i: int, j: int| 0 <= i < j < pairs.len() implies text_less(
        (#[trigger] pairs[i]).0,
        (#[trigger] pairs[j]).0,
    ) by {
        assert(lt(names[i], names[j]));
    }
    assert forall|name: Text| lookup(pairs).dom().contains(name) == map.dom().contains(
        name,
    ) by {
        if map.dom().contains(name) {
            assert(names.to_set().contains(name));
            let i = choose|i: int| 0 <= i < names.len() && names[i] == name;
            first_stands(pairs, name, i);
        }
        if lookup(pairs).dom().contains(name) {
            let k = choose|k: int| first_named(pairs, name, k);
            assert(first_named(pairs, name, k));
            assert(names.to_set().contains(names[k]));
        }
    }
    assert forall|name: Text| #[trigger] lookup(pairs).dom().contains(name) implies lookup(
        pairs,
    )[name] == map[name] by {
        let k = choose|k: int| first_named(pairs, name, k);
        assert(first_named(pairs, name, k));
        assert(pairs[k] == (names[k], map[names[k]]));
    }
    assert(lookup(pairs) =~= map);
}

proof fn lookup_is_finite(fields: Seq<(Text, Text)>)
    ensures
        lookup(fields).dom().finite(),
{
    let names = fields.map_values(|f: (Text, Text)| f.0);
    vstd::seq_lib::seq_to_set_is_finite(names);
    assert(lookup(fields).dom().subset_of(names.to_set())) by {
        assert forall|name: Text| lookup(fields).dom().contains(
            name,
        ) implies names.to_set().contains(name) by {
            let k = choose|k: int| first_named(fields, name, k);
            assert(first_named(fields, name, k));
            assert(names[k] == name);
        }
    }
    vstd::set_lib::lemma_set_subset_finite(names.to_set(), lookup(fields).dom());
}

/// A root stands in a stack of its own name alone. For each split key it
/// gives what its first field of that name says, and nothing for other names.
pub proof fn roots_stand_alone(span: SpanModel, keys: Set<Text>, name: Text, value: Text)
    ensures
        ({
            let bucket = root_bucket(span, keys);
            &&& bucket.stack.len() == 1 && bucket.stack[0] == span.name
            &&& first_says(bucket.splits, name, value) <==> keys.contains(name) && first_says(
                span.fields,
                name,
                value,
            )
            &&& forall|i: int, j: int|
                0 <= i < j < bucket.splits.len() ==> text_less(
                    (#[trigger] bucket.splits[i]).0,
                    (#[trigger] bucket.splits[j]).0,
                )
        }),
{
    let map = own_splits(span, keys);
    lookup_is_finite(span.fields);
    assert(map.dom().subset_of(lookup(span.fields).dom()));
    vstd::set_lib::lemma_set_subset_finite(lookup(span.fields).dom(), map.dom());
    pairs_are_read_back(map);
    lookup_is_first(as_pairs(map), name, value);
    lookup_is_first(span.fields, name, value);
}

/// A child stands in the stack of its parent, one name deeper. For each split
/// key it gives what its own first field of that name says, or else what its
/// parent gives.
pub proof fn children_stand_below_their_parent(
    parent: KeyModel,
    span: SpanModel,
    keys: Set<Text>,
    name: Text,
    value: Text,
)
    ensures
        ({
            let bucket = child_bucket(parent, span, keys);
            let own = keys.contains(name) && !says_nothing(span.fields, name);
            &&& bucket.stack == parent.stack.push(span.name)
            &&& own ==> (first_says(bucket.splits, name, value) <==> first_says(
                span.fields,
                name,
                value,
            ))
            &&& !own ==> (first_says(bucket.splits, name, value) <==> first_says(
                parent.splits,
                name,
                value,
            ))
            &&& forall|i: int, j: int|
                0 <= i < j < bucket.splits.len() ==> text_less(
                    (#[trigger] bucket.splits[i]).0,
                    (#[trigger] bucket.splits[j]).0,
                )
        }),
{
    let own = own_splits(span, keys);
    let map = lookup(parent.splits).union_prefer_right(own);
    lookup_is_finite(span.fields);
    lookup_is_finite(parent.splits);
    let both = lookup(parent.splits).dom().union(lookup(span.fields).dom());
    assert(map.dom().subset_of(both));
    vstd::set_lib::lemma_set_subset_finite(both, map.dom());
    pairs_are_read_back(map);
    lookup_is_first(as_pairs(map), name, value);
    lookup_is_first(span.fields, name, value);
    lookup_is_first(parent.splits, name, value);
}

/// A closed span joins the window at once where it has no parent or where its
/// parent is there: it is then the first to have joined. Otherwise it waits,
/// and the window stays as it is. A span that is still open changes nothing.
pub proof fn spans_join_or_wait(m: AggModel, span: SpanModel)
    ensures
        ({
            let (after, ids) = absorbed(m, span);
            let there = span.parent_id is None || has_id(m.ring, span.parent_id->0);
            &&& span.closed_at_ns is None ==> after == m && ids.len() == 0
            &&& span.closed_at_ns is Some && there ==> ids.len() > 0 && ids[0] == span.id
            &&& span.closed_at_ns is Some && !there ==> {
                &&& after.ring == m.ring
                &&& ids.len() == 0
                &&& m.pending.len() < pending_cap(m.budget) ==> after.pending == m.pending.push(
                    span,
                )
            }
        }),
{
    let todo = seq![span];
    assert(todo.skip(1) =~= Seq::empty());
    if span.closed_at_ns is Some {
        if bucket_for(m, span) is None {
            assert(settled(parked(m, span), Seq::empty()) == (parked(m, span), Seq::<u64>::empty()));
        }
    }
}

/// The bucket of a child is that below the newest span with its parent's id.
pub proof fn parents_place_their_children(m: AggModel, span: SpanModel, i: int)
    requires
        span.parent_id is Some,
        0 <= i < m.ring.len(),
        m.ring[i].span.id == span.parent_id->0,
        forall|j: int| i < j < m.ring.len() ==> (#[trigger] m.ring[j]).span.id != span.parent_id->0,
    ensures
        bucket_for(m, span) == Some(child_bucket(m.ring[i].bucket, span, m.split_keys)),
{
    crate::aggregate::ring::newest_is_only(m.ring, span.parent_id->0, i);
}

/// Where too many spans wait, those go that wait for the smallest id, and no
/// others; the rest keep their order.
pub proof fn those_who_wait_for_the_oldest_go(m: AggModel, span: SpanModel, i: int)
    requires
        span.parent_id is Some,
        forall|k: int| 0 <= k < m.pending.len() ==> (#[trigger] m.pending[k]).parent_id is Some,
        0 <= i <= m.pending.len(),
    ensures
        ({
            let all = m.pending.push(span);
            let after = parked(m, span).pending;
            let full = m.pending.len() >= pending_cap(m.budget);
            let low = forall|k: int|
                0 <= k < all.len() ==> all[i].parent_id->0 <= (#[trigger] all[k]).parent_id->0;
            &&& !full ==> after == all
            &&& full && !low ==> after.contains(all[i])
            &&& full && low ==> forall|k: int|
                0 <= k < after.len() ==> (#[trigger] after[k]).parent_id != all[i].parent_id
            &&& after.len() <= all.len()
            &&& parked(m, span).ring == m.ring
        }),
{
    let all = m.pending.push(span);
    crate::aggregate::ring::parked_adds_at_most_one(m, span);
    if m.pending.len() >= pending_cap(m.budget) {
        let p = lowest_waited(all);
        assert(is_lowest_parent(all, p));
        let l = lowest_parent(all);
        assert(is_lowest_parent(all, l));
        let k = choose|k: int| 0 <= k < all.len() && (#[trigger] all[k]).parent_id == Some(l);
        let keeps = |s: SpanModel| s.parent_id != Some(l);
        let low = forall|k: int|
            0 <= k < all.len() ==> all[i].parent_id->0 <= (#[trigger] all[k]).parent_id->0;
        if low {
            assert(all[i].parent_id->0 <= all[k].parent_id->0);
            assert(all[i].parent_id == Some(l));
        } else {
            let k2 = choose|k2: int|
                0 <= k2 < all.len() && all[i].parent_id->0 > (#[trigger] all[k2]).parent_id->0;
            assert(l <= all[k2].parent_id->0);
            all.lemma_filter_contains(keeps, i);
        }
        let after = all.filter(keeps);
        assert forall|k: int| 0 <= k < after.len() implies (#[trigger] after[k]).parent_id != Some(
            l,
        ) by {
            all.lemma_filter_pred(keeps, k);
        }
    }
}

/// Among spans that wait, some wait for the smallest id.
proof fn lowest_waited(all: Seq<SpanModel>) -> (p: u64)
    requires
        all.len() > 0,
        forall|k: int| 0 <= k < all.len() ==> (#[trigger] all[k]).parent_id is Some,
    ensures
        is_lowest_parent(all, p),
    decreases all.len(),
{
    let last = all.last().parent_id->0;
    assert(all[all.len() - 1].parent_id == Some(last));
    if all.len() == 1 {
        last
    } else {
        let front = all.drop_last();
        assert forall|k: int| 0 <= k < front.len() implies (
        #[trigger] front[k]).parent_id is Some by {
            assert(all[k].parent_id is Some);
        }
        let q = lowest_waited(front);
        let i = choose|i: int| 0 <= i < front.len() && (#[trigger] front[i]).parent_id == Some(q);
        assert(all[i].parent_id == Some(q));
        let p = if last < q {
            last
        } else {
            q
        };
        assert forall|k: int| 0 <= k < all.len() implies match (#[trigger] all[k]).parent_id {
            Some(x) => p <= x,
            None => true,
        } by {
            if k < front.len() {
                assert(front[k] == all[k]);
            }
        }
        p
    }
}

/// The keys by which the spans of a stack may be split are the names of all
/// their fields, in ascending order and none of them twice.
pub proof fn fields_are_offered_for_splitting(ring: Seq<EntryModel>, stack: Seq<Text>, name: Text)
    ensures
        candidates(ring, stack).contains(name) <==> exists|i: int|
            0 <= i < ring.len() && (#[trigger] ring[i]).bucket.stack == stack && !says_nothing(
                ring[i].span.fields,
                name,
            ),
        forall|i: int, j: int|
            0 <= i < j < candidates(ring, stack).len() ==> text_less(
                #[trigger] candidates(ring, stack)[i],
                #[trigger] candidates(ring, stack)[j],
            ),
{
    let set = Set::new(|name: Text| is_candidate(ring, stack, name));
    let lt = key_order::<String>();
    names_are_finite(ring);
    assert(set.subset_of(names_in(ring))) by {
        assert forall|name: Text| set.contains(name) implies names_in(ring).contains(name) by {
        }
    }
    vstd::set_lib::lemma_set_subset_finite(names_in(ring), set);
    key_order_is_strict::<String>();
    finite_sets_are_listed(lt, set);
    let all = candidates(ring, stack);
    assert(all.contains(name) == all.to_set().contains(name));
    if set.contains(name) {
        let (i, j) = choose|i: int, j: int|
            #![trigger ring[i].span.fields[j]]
            0 <= i < ring.len() && ring[i].bucket.stack == stack && 0 <= j
                < ring[i].span.fields.len() && ring[i].span.fields[j].0 == name;
        assert(ring[i].span.fields[j].0 == name);
        assert(!says_nothing(ring[i].span.fields, name));
        assert(ring[i].bucket.stack == stack);
    }
    if exists|i: int|
        0 <= i < ring.len() && (#[trigger] ring[i]).bucket.stack == stack && !says_nothing(
            ring[i].span.fields,
            name,
        ) {
        let i = choose|i: int|
            0 <= i < ring.len() && (#[trigger] ring[i]).bucket.stack == stack && !says_nothing(
                ring[i].span.fields,
                name,
            );
        let j = choose|j: int|
            0 <= j < ring[i].span.fields.len() && (#[trigger] ring[i].span.fields[j]).0 == name;
        assert(ring[i].span.fields[j].0 == name);
        assert(is_candidate(ring, stack, name));
    }
    assert forall|i: int, j: int| 0 <= i < j < all.len() implies text_less(
        #[trigger] all[i],
        #[trigger] all[j],
    ) by {
        assert(lt(all[i], all[j]));
    }
}

/// The names of the fields of some spans.
spec fn names_in(ring: Seq<EntryModel>) -> Set<Text>
    decreases ring.len(),
{
    if ring.len() == 0 {
        Set::empty()
    } else {
        names_in(ring.drop_last()).union(
            ring.last().span.fields.map_values(|f: (Text, Text)| f.0).to_set(),
        )
    }
}

proof fn names_are_finite(ring: Seq<EntryModel>)
    ensures
        names_in(ring).finite(),
        forall|i: int, j: int|
            #![trigger ring[i].span.fields[j]]
            0 <= i < ring.len() && 0 <= j < ring[i].span.fields.len() ==> names_in(ring).contains(
                ring[i].span.fields[j].0,
            ),
    decreases ring.len(),
{
    if ring.len() > 0 {
        let front = ring.drop_last();
        names_are_finite(front);
        let names = ring.last().span.fields.map_values(|f: (Text, Text)| f.0);
        vstd::seq_lib::seq_to_set_is_finite(names);
        assert forall|i: int, j: int|
            #![trigger ring[i].span.fields[j]]
            0 <= i < ring.len() && 0 <= j < ring[i].span.fields.len() implies names_in(
            ring,
        ).contains(ring[i].span.fields[j].0) by {
            if i < front.len() {
                assert(front[i].span.fields[j] == ring[i].span.fields[j]);
            } else {
                assert(names[j] == ring[i].span.fields[j].0);
                assert(names.to_set().contains(names[j]));
            }
        }
    }
}

/// The label of a row is the last name of its stack, set in by three columns
/// for every name before it.
pub proof fn labels_end_with_the_name(stacks: Seq<Seq<Text>>, i: int)
    requires
        0 <= i < stacks.len(),
        stacks[i].len() > 0,
    ensures
        ({
            let label = label_of(stacks, i);
            let name = stacks[i].last();
            &&& label.len() == 3 * (stacks[i].len() - 1) + name.len()
            &&& label.skip(3 * (stacks[i].len() - 1)) == name
        }),
{
    branches_are_even(stacks, i, stacks[i].len() as int);
    assert(label_of(stacks, i).skip(3 * (stacks[i].len() - 1)) =~= stacks[i].last());
}

proof fn branches_are_even(stacks: Seq<Seq<Text>>, i: int, d: int)
    requires
        d >= 1,
    ensures
        branches(stacks, i, d).len() == 3 * (d - 1),
    decreases d,
{
    reveal_strlit("│  ");
    reveal_strlit("   ");
    reveal_strlit("├─ ");
    reveal_strlit("└─ ");
    if d >= 2 {
        branches_are_even(stacks, i, d - 1);
    }
}

/// The branches before a name show the tree: at each depth but the last a
/// line goes on where a row with another name follows below the same parent,
/// and at the last depth the branch goes on in that case and ends in a corner
/// otherwise.
pub proof fn branches_show_the_tree(stacks: Seq<Seq<Text>>, i: int, d: int)
    requires
        0 <= i < stacks.len(),
        2 <= d <= stacks[i].len(),
    ensures
        ({
            let own = stacks[i];
            let c = label_of(stacks, i)[3 * (d - 2)];
            let goes_on = exists|j: int|
                i < j < stacks.len() && (#[trigger] stacks[j]).len() >= d && stacks[j][d - 1]
                    != own[d - 1] && forall|k: int|
                    i < k <= j ==> (#[trigger] stacks[k]).len() >= d - 1 && stacks[k].take(d - 1)
                        == own.take(d - 1);
            &&& d < own.len() && goes_on ==> c == '│'
            &&& d < own.len() && !goes_on ==> c == ' '
            &&& d == own.len() && goes_on ==> c == '├'
            &&& d == own.len() && !goes_on ==> c == '└'
        }),
{
    let own = stacks[i];
    let n = own.len() as int;
    branches_are_even(stacks, i, n);
    branch_at(stacks, i, n, d);
    let goes_on = exists|j: int|
        i < j < stacks.len() && (#[trigger] stacks[j]).len() >= d && stacks[j][d - 1] != own[d - 1]
            && forall|k: int|
            i < k <= j ==> (#[trigger] stacks[k]).len() >= d - 1 && stacks[k].take(d - 1)
                == own.take(d - 1);
    assert(label_of(stacks, i)[3 * (d - 2)] == branches(stacks, i, n)[3 * (d - 2)]);
    if goes_on {
        let j = choose|j: int|
            i < j < stacks.len() && (#[trigger] stacks[j]).len() >= d && stacks[j][d - 1]
                != own[d - 1] && forall|k: int|
                i < k <= j ==> (#[trigger] stacks[k]).len() >= d - 1 && stacks[k].take(d - 1)
                    == own.take(d - 1);
        assert forall|k: int| i < k <= j implies shares_prefix(#[trigger] stacks[k], own, d - 1) by {
        }
        assert(stacks[j][d - 1] != own[d - 1]);
        assert(sibling_follows(stacks, i, d));
    }
    if sibling_follows(stacks, i, d) {
        let j = choose|j: int|
            {
                &&& i < j < stacks.len()
                &&& forall|k: int| i < k <= j ==> shares_prefix(#[trigger] stacks[k], own, d - 1)
                &&& stacks[j].len() >= d
                &&& (#[trigger] stacks[j])[d - 1] != own[d - 1]
            };
        assert forall|k: int| i < k <= j implies (#[trigger] stacks[k]).len() >= d - 1
            && stacks[k].take(d - 1) == own.take(d - 1) by {
            assert(shares_prefix(stacks[k], own, d - 1));
        }
        assert(stacks[j].len() >= d);
        assert(goes_on);
    }
}

/// What is drawn for one depth.
proof fn branch_at(stacks: Seq<Seq<Text>>, i: int, n: int, d: int)
    requires
        2 <= d <= n,
    ensures
        branches(stacks, i, n).len() == 3 * (n - 1),
        branches(stacks, i, n)[3 * (d - 2)] == if d < stacks[i].len() {
            if sibling_follows(stacks, i, d) {
                '│'
            } else {
                ' '
            }
        } else {
            if sibling_follows(stacks, i, d) {
                '├'
            } else {
                '└'
            }
        },
    decreases n,
{
    reveal_strlit("│  ");
    reveal_strlit("   ");
    reveal_strlit("├─ ");
    reveal_strlit("└─ ");
    branches_are_even(stacks, i, n);
    branches_are_even(stacks, i, n - 1);
    if d < n {
        branch_at(stacks, i, n - 1, d);
        assert(branches(stacks, i, n)[3 * (d - 2)] == branches(stacks, i, n - 1)[3 * (d - 2)]);
    }
}

/// Among rows with the same split values a row stands before the rows below
/// it, and rows with different split values do not mix.
pub proof fn rows_stand_before_those_below(a: KeyModel, b: KeyModel)
    ensures
        a.splits == b.splits && a.stack.len() < b.stack.len() && b.stack.take(a.stack.len() as int)
            == a.stack ==> row_less(a, b),
        <Vec<(String, String)> as Key>::less(a.splits, b.splits) ==> row_less(a, b),
{
    if a.splits == b.splits && a.stack.len() < b.stack.len() && b.stack.take(a.stack.len() as int)
        == a.stack {
        assert forall|j: int| 0 <= j < a.stack.len() implies #[trigger] a.stack[j]
            == b.stack[j] by {
            assert(b.stack.take(a.stack.len() as int)[j] == b.stack[j]);
        }
        assert(precedes_at(key_order::<String>(), a.stack, b.stack, a.stack.len() as int));
    }
}

/// A quarter of the window may wait for parents, rounded down, and always one
/// span.
pub proof fn a_quarter_may_wait(budget: nat)
    ensures
        pending_cap(budget) >= 1,
        4 * pending_cap(budget) <= budget || pending_cap(budget) == 1,
        4 * (pending_cap(budget) + 1) > budget,
{
}

/// A span that joins stands last in the window, as it is and in its bucket.
/// Those that were there stay before it in their order and in their buckets,
/// but for the oldest where the window was full.
pub proof fn joining_spans_stand_last(
    ring: Seq<EntryModel>,
    span: SpanModel,
    bucket: KeyModel,
    budget: nat,
    i: int,
)
    requires
        0 <= i < ring.len(),
        0 < budget,
        ring.len() <= budget,
    ensures
        ({
            let after = joined(ring, span, bucket, budget);
            let full = ring.len() == budget;
            &&& after.len() == if full {
                ring.len()
            } else {
                ring.len() + 1
            }
            &&& after.last().span == span
            &&& after.last().bucket == bucket
            &&& full && i > 0 ==> after[i - 1].span == ring[i].span && after[i - 1].bucket
                == ring[i].bucket
            &&& !full ==> after[i].span == ring[i].span && after[i].bucket == ring[i].bucket
        }),
{
    let room = with_room(ring, budget);
    with_room_keeps(ring, budget);
    credited_each(room, span.parent_id, span_total(span));
    if ring.len() == budget && i > 0 {
        assert(room[i - 1].span == ring[(i - 1) + 1].span);
    } else if ring.len() < budget {
        assert(room[i].span == ring[i + 0].span);
    }
}

/// The time of a child goes to its parent in the window and to no other span:
/// it is added when the child joins, and taken off when the child leaves.
pub proof fn child_times_go_to_the_parent(ring: Seq<EntryModel>, parent: u64, total: u64, i: int)
    requires
        unique_ids(ring),
        0 <= i < ring.len(),
    ensures
        ({
            let more = credited(ring, Some(parent), total)[i].child_sum;
            let less = debited(ring, Some(parent), total)[i].child_sum;
            let was = ring[i].child_sum;
            &&& ring[i].span.id == parent && was + total <= u64::MAX ==> more == was + total
            &&& ring[i].span.id == parent && total <= was ==> less == was - total
            &&& ring[i].span.id != parent ==> more == was && less == was
            &&& was + total <= u64::MAX ==> debited(
                credited(ring, Some(parent), total),
                Some(parent),
                total,
            )[i].child_sum == was
        }),
{
    let up = credited(ring, Some(parent), total);
    credited_each(ring, Some(parent), total);
    debited_each(ring, Some(parent), total);
    assert forall|a: int, b: int| 0 <= a < b < up.len() implies (#[trigger] up[a]).span.id != (
    #[trigger] up[b]).span.id by {
        assert(ring[a].span.id != ring[b].span.id);
    }
    debited_each(up, Some(parent), total);
}

} // verus!
