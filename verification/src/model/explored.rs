//! What the explore view and the trace view show, said of the spans
//! themselves.

use vstd::prelude::*;

use crate::aggregate::ring::{has_id, index_of_id, lookup, EntryModel};
use crate::aggregate::rows::time_open;
use crate::model::explore::{
    all_fields, column_place, cycled, distinguishing, effective, event_matches, field_text,
    fields_match, first_at, has_two_values, is_item, item_less, item_order_is_strict, item_rows,
    items_below, listed_positions, matching, position_less, position_order_is_strict, root_of,
    sort_columns, span_matches, stack_spans, tree_rows, ExploreColumn, ExploreModel, SortDirection,
    TraceItem, TraceRow,
};
use crate::model::steps::explore_after;
use crate::model::update::Update;
use crate::order::{key_order, key_order_is_strict, text_less};
use crate::protocol::{first_named, SpanModel, Text};
use crate::sorted::{finite_sets_are_listed, listing};
use crate::text::{folded, folded_char, has_part};

verus! {

/// The text is what the first field with the name prints as, or is empty
/// where no field has the name.
pub open spec fn prints(s: SpanModel, name: Text, text: Text) -> bool {
    ||| exists|i: int| #[trigger] first_named(s.fields, name, i) && s.fields[i].1 == text
    ||| (forall|i: int| 0 <= i < s.fields.len() ==> (#[trigger] s.fields[i]).0 != name)
        && text.len() == 0
}

/// One span may stand before another: by the column that the view is sorted
/// by, in its direction, it is not on the wrong side.
pub open spec fn may_stand_before(
    a: SpanModel,
    b: SpanModel,
    column: ExploreColumn,
    direction: SortDirection,
) -> bool {
    match (column, direction) {
        (ExploreColumn::Timestamp, SortDirection::Asc) => a.opened_at_ns <= b.opened_at_ns,
        (ExploreColumn::Timestamp, SortDirection::Desc) => a.opened_at_ns >= b.opened_at_ns,
        (ExploreColumn::Latency, SortDirection::Asc) => time_open(a) <= time_open(b),
        (ExploreColumn::Latency, SortDirection::Desc) => time_open(a) >= time_open(b),
        (ExploreColumn::Field(name), SortDirection::Asc) => forall|x: Text, y: Text| #[trigger]
            prints(a, name, x) && #[trigger] prints(b, name, y) ==> x == y || text_less(x, y),
        (ExploreColumn::Field(name), SortDirection::Desc) => forall|x: Text, y: Text| #[trigger]
            prints(a, name, x) && #[trigger] prints(b, name, y) ==> x == y || text_less(y, x),
    }
}

/// What a field prints as is the only such text.
proof fn printed_is_field_text(s: SpanModel, name: Text, text: Text)
    requires
        prints(s, name, text),
    ensures
        text == field_text(s, name),
{
    if exists|i: int| #[trigger] first_named(s.fields, name, i) && s.fields[i].1 == text {
        let i = choose|i: int| #[trigger] first_named(s.fields, name, i) && s.fields[i].1 == text;
        let k = choose|k: int| first_named(s.fields, name, k);
        assert(first_named(s.fields, name, k));
        if k < i {
            assert(s.fields[k].0 != name);
        } else if i < k {
            assert(s.fields[i].0 != name);
        }
        assert(lookup(s.fields).dom().contains(name));
    } else {
        if lookup(s.fields).dom().contains(name) {
            let k = choose|k: int| first_named(s.fields, name, k);
            assert(first_named(s.fields, name, k));
            assert(s.fields[k].0 != name);
        }
        assert(text =~= Seq::empty());
    }
}

proof fn positions_are_finite(ring: Seq<EntryModel>, es: ExploreModel)
    ensures
        listed_positions(ring, es).finite(),
{
    let all = Seq::new(ring.len(), |i: int| i);
    vstd::seq_lib::seq_to_set_is_finite(all);
    assert(listed_positions(ring, es).subset_of(all.to_set())) by {
        assert forall|i: int| listed_positions(ring, es).contains(i) implies all.to_set().contains(
            i,
        ) by {
            assert(all[i] == i);
        }
    }
    vstd::set_lib::lemma_set_subset_finite(all.to_set(), listed_positions(ring, es));
}

/// The listed spans are in order by the column of the view and in its
/// direction: by when they opened, by how long they were open, or by what a
/// field prints as. Among spans that the column does not tell apart the older
/// ones stand first going up and last going down.
pub proof fn spans_are_listed_in_order(ring: Seq<EntryModel>, es: ExploreModel, i: int, j: int)
    requires
        0 <= i < j < matching(ring, es).len(),
    ensures
        ({
            let at = matching(ring, es);
            let (a, b) = (ring[at[i]].span, ring[at[j]].span);
            &&& may_stand_before(a, b, es.sort, es.direction)
            &&& may_stand_before(b, a, es.sort, es.direction) ==> (es.direction is Asc <==> at[i]
                < at[j])
        }),
{
    let lt = position_less(ring, es.sort);
    let set = listed_positions(ring, es);
    position_order_is_strict(ring, es.sort);
    positions_are_finite(ring, es);
    finite_sets_are_listed(lt, set);
    let up = listing(lt, set);
    let at = matching(ring, es);
    let n = up.len();
    let (lo, hi) = match es.direction {
        SortDirection::Asc => (i, j),
        SortDirection::Desc => (n - 1 - j, n - 1 - i),
    };
    assert(lt(up[lo], up[hi]));
    let (a, b) = (ring[at[i]].span, ring[at[j]].span);
    if let ExploreColumn::Field(name) = es.sort {
        let tl = key_order::<String>();
        key_order_is_strict::<String>();
        let (fa, fb) = (field_text(a, name), field_text(b, name));
        assert(fa == fb || tl(fa, fb) || tl(fb, fa));
        assert(prints(a, name, fa)) by {
            field_text_is_printed(a, name);
        }
        assert(prints(b, name, fb)) by {
            field_text_is_printed(b, name);
        }
        assert forall|x: Text, y: Text| #[trigger]
            prints(a, name, x) && #[trigger] prints(b, name, y) implies x == fa && y == fb by {
            printed_is_field_text(a, name, x);
            printed_is_field_text(b, name, y);
        }
        assert(!tl(fa, fa));
        if tl(fa, fb) && tl(fb, fa) {
            assert(tl(fa, fa));
        }
    }
}

/// The text of a field is what it prints as.
proof fn field_text_is_printed(s: SpanModel, name: Text)
    ensures
        prints(s, name, field_text(s, name)),
{
    if lookup(s.fields).dom().contains(name) {
        let k = choose|k: int| first_named(s.fields, name, k);
        assert(first_named(s.fields, name, k));
    } else {
        assert forall|i: int| 0 <= i < s.fields.len() implies (#[trigger] s.fields[i]).0
            != name by {
            if s.fields[i].0 == name {
                first_exists(s.fields, name, i);
            }
        }
    }
}

/// Where a name occurs, it has a first occurrence.
proof fn first_exists(fields: Seq<(Text, Text)>, name: Text, i: int)
    requires
        0 <= i < fields.len(),
        fields[i].0 == name,
    ensures
        exists|k: int| first_named(fields, name, k),
    decreases i,
{
    if exists|j: int| 0 <= j < i && (#[trigger] fields[j]).0 == name {
        let j = choose|j: int| 0 <= j < i && (#[trigger] fields[j]).0 == name;
        first_exists(fields, name, j);
    } else {
        assert(first_named(fields, name, i));
    }
}

/// A span is listed if, and only if, it has the stack of the view and the
/// search finds it; without a search every span of the stack is. None is
/// listed twice.
pub proof fn every_match_is_listed(ring: Seq<EntryModel>, es: ExploreModel)
    ensures
        matching(ring, es).no_duplicates(),
        forall|p: int| #[trigger]
            matching(ring, es).contains(p) <==> 0 <= p < ring.len() && ring[p].bucket.stack
                == es.locked_stack && (effective(es).len() == 0 || span_matches(
                ring[p].span,
                folded(effective(es)),
            )),
{
    let lt = position_less(ring, es.sort);
    let set = listed_positions(ring, es);
    position_order_is_strict(ring, es.sort);
    positions_are_finite(ring, es);
    finite_sets_are_listed(lt, set);
    let up = listing(lt, set);
    let at = matching(ring, es);
    assert forall|p: int| #[trigger] at.contains(p) <==> set.contains(p) by {
        if at.contains(p) {
            let k = choose|k: int| 0 <= k < at.len() && at[k] == p;
            let l = match es.direction {
                SortDirection::Asc => k,
                SortDirection::Desc => up.len() - 1 - k,
            };
            assert(up[l] == p);
            assert(up.to_set().contains(p));
        }
        if set.contains(p) {
            assert(up.to_set().contains(p));
            let l = choose|l: int| 0 <= l < up.len() && up[l] == p;
            let k = match es.direction {
                SortDirection::Asc => l,
                SortDirection::Desc => up.len() - 1 - l,
            };
            assert(at[k] == p);
        }
    }
}

/// A search finds a span wherever its text stands in the span: in its name,
/// in the name or the value of a field, in the name of an event, or in the
/// name or the value of a field of an event; and nowhere else.
pub proof fn a_search_looks_everywhere(s: SpanModel, q: Text)
    ensures
        has_part(folded(s.name), q) ==> span_matches(s, q),
        forall|i: int|
            0 <= i < s.fields.len() && (has_part(folded((#[trigger] s.fields[i]).0), q) || has_part(
                folded(s.fields[i].1),
                q,
            )) ==> span_matches(s, q),
        forall|k: int|
            0 <= k < s.events.len() && has_part(folded((#[trigger] s.events[k]).name), q)
                ==> span_matches(s, q),
        forall|k: int, i: int|
            0 <= k < s.events.len() && 0 <= i < s.events[k].fields.len() && (has_part(
                folded((#[trigger] s.events[k].fields[i]).0),
                q,
            ) || has_part(folded(s.events[k].fields[i].1), q)) ==> span_matches(s, q),
        span_matches(s, q) ==> {
            ||| has_part(folded(s.name), q)
            ||| exists|i: int|
                0 <= i < s.fields.len() && (has_part(folded((#[trigger] s.fields[i]).0), q)
                    || has_part(folded(s.fields[i].1), q))
            ||| exists|k: int|
                0 <= k < s.events.len() && has_part(folded((#[trigger] s.events[k]).name), q)
            ||| exists|k: int, i: int|
                0 <= k < s.events.len() && 0 <= i < s.events[k].fields.len() && (has_part(
                    folded((#[trigger] s.events[k].fields[i]).0),
                    q,
                ) || has_part(folded(s.events[k].fields[i].1), q))
        },
{
    assert forall|k: int|
        0 <= k < s.events.len() && has_part(
            folded((#[trigger] s.events[k]).name),
            q,
        ) implies span_matches(s, q) by {
        assert(event_matches(s.events[k], q));
    }
    assert forall|k: int, i: int|
        0 <= k < s.events.len() && 0 <= i < s.events[k].fields.len() && (has_part(
            folded((#[trigger] s.events[k].fields[i]).0),
            q,
        ) || has_part(folded(s.events[k].fields[i].1), q)) implies span_matches(s, q) by {
        assert(fields_match(s.events[k].fields, q));
        assert(event_matches(s.events[k], q));
    }
    if span_matches(s, q) && !has_part(folded(s.name), q) && !fields_match(s.fields, q) {
        let k = choose|k: int| 0 <= k < s.events.len() && event_matches(#[trigger] s.events[k], q);
        if !has_part(folded(s.events[k].name), q) {
            assert(fields_match(s.events[k].fields, q));
            let fields = s.events[k].fields;
            let i = choose|i: int|
                0 <= i < fields.len() && (has_part(folded((#[trigger] fields[i]).0), q) || has_part(
                    folded(fields[i].1),
                    q,
                ));
            assert(has_part(folded(s.events[k].fields[i].0), q) || has_part(
                folded(s.events[k].fields[i].1),
                q,
            ));
        }
    }
}

/// A search does not tell capital letters from small ones: each capital is
/// turned into the letter thirty-two places further, and nothing else is
/// changed.
pub proof fn searching_ignores_case(c: char)
    ensures
        'A' <= c && c <= 'Z' ==> folded_char(c) as int == c as int + 32,
        !('A' <= c && c <= 'Z') ==> folded_char(c) == c,
{
}

/// The spans of a stack are those spans of the window, all of them and in the
/// order in which they came.
pub proof fn the_spans_of_a_stack(ring: Seq<EntryModel>, stack: Seq<Text>)
    ensures
        stack_spans(ring, stack) == ring.filter(
            |e: EntryModel| e.bucket.stack == stack,
        ).map_values(|e: EntryModel| e.span),
    decreases ring.len(),
{
    let wanted = |e: EntryModel| e.bucket.stack == stack;
    reveal(Seq::filter);
    if ring.len() > 0 {
        the_spans_of_a_stack(ring.drop_last(), stack);
        let rest = ring.drop_last().filter(wanted);
        if wanted(ring.last()) {
            assert(ring.filter(wanted) == rest.push(ring.last()));
            assert(rest.push(ring.last()).map_values(|e: EntryModel| e.span) =~= rest.map_values(
                |e: EntryModel| e.span,
            ).push(ring.last().span));
        }
    } else {
        assert(ring.filter(wanted).map_values(|e: EntryModel| e.span) =~= Seq::empty());
    }
}

/// A field name is a column of its own if, and only if, it occurs among the
/// spans with two different values. The names ascend.
pub proof fn fields_that_differ_are_columns(spans: Seq<SpanModel>, name: Text)
    ensures
        distinguishing(spans).contains(name) <==> exists|a: int, i: int, b: int, j: int|
            #![trigger spans[a].fields[i], spans[b].fields[j]]
            0 <= a < spans.len() && 0 <= i < spans[a].fields.len() && 0 <= b < spans.len() && 0 <= j
                < spans[b].fields.len() && spans[a].fields[i].0 == name && spans[b].fields[j].0
                == name && spans[a].fields[i].1 != spans[b].fields[j].1,
        forall|k: int, l: int|
            0 <= k < l < distinguishing(spans).len() ==> text_less(
                #[trigger] distinguishing(spans)[k],
                #[trigger] distinguishing(spans)[l],
            ),
{
    let all = all_fields(spans);
    let set = Set::new(|name: Text| has_two_values(all, name));
    let lt = key_order::<String>();
    let names = all.map_values(|f: (Text, Text)| f.0);
    vstd::seq_lib::seq_to_set_is_finite(names);
    assert(set.subset_of(names.to_set())) by {
        assert forall|name: Text| set.contains(name) implies names.to_set().contains(name) by {
            let (i, j) = choose|i: int, j: int|
                0 <= i < all.len() && 0 <= j < all.len() && (#[trigger] all[i]).0 == name && (
                #[trigger] all[j]).0 == name && all[i].1 != all[j].1;
            assert(names[i] == name);
        }
    }
    vstd::set_lib::lemma_set_subset_finite(names.to_set(), set);
    key_order_is_strict::<String>();
    finite_sets_are_listed(lt, set);
    let list = distinguishing(spans);
    assert(list.contains(name) == list.to_set().contains(name));
    all_fields_are_of_spans(spans);
    if set.contains(name) {
        let (x, y) = choose|x: int, y: int|
            0 <= x < all.len() && 0 <= y < all.len() && (#[trigger] all[x]).0 == name && (
            #[trigger] all[y]).0 == name && all[x].1 != all[y].1;
        assert(is_field_of(spans, all[x]) && is_field_of(spans, all[y]));
        let (a, i) = choose|a: int, i: int|
            0 <= a < spans.len() && 0 <= i < spans[a].fields.len() && #[trigger] spans[a].fields[i]
                == all[x];
        let (b, j) = choose|b: int, j: int|
            0 <= b < spans.len() && 0 <= j < spans[b].fields.len() && #[trigger] spans[b].fields[j]
                == all[y];
        assert(spans[a].fields[i].1 != spans[b].fields[j].1);
    }
    if exists|a: int, i: int, b: int, j: int|
        #![trigger spans[a].fields[i], spans[b].fields[j]]
        0 <= a < spans.len() && 0 <= i < spans[a].fields.len() && 0 <= b < spans.len() && 0 <= j
            < spans[b].fields.len() && spans[a].fields[i].0 == name && spans[b].fields[j].0 == name
            && spans[a].fields[i].1 != spans[b].fields[j].1 {
        let (a, i, b, j) = choose|a: int, i: int, b: int, j: int|
            #![trigger spans[a].fields[i], spans[b].fields[j]]
            0 <= a < spans.len() && 0 <= i < spans[a].fields.len() && 0 <= b < spans.len() && 0 <= j
                < spans[b].fields.len() && spans[a].fields[i].0 == name && spans[b].fields[j].0
                == name && spans[a].fields[i].1 != spans[b].fields[j].1;
        assert(all.contains(spans[a].fields[i]) && all.contains(spans[b].fields[j]));
        let x = choose|x: int| 0 <= x < all.len() && all[x] == spans[a].fields[i];
        let y = choose|y: int| 0 <= y < all.len() && all[y] == spans[b].fields[j];
        assert(all[x].0 == name && all[y].0 == name && all[x].1 != all[y].1);
        assert(has_two_values(all, name));
    }
    assert forall|k: int, l: int| 0 <= k < l < list.len() implies text_less(
        #[trigger] list[k],
        #[trigger] list[l],
    ) by {
        assert(lt(list[k], list[l]));
    }
}

/// Some span has the field.
spec fn is_field_of(spans: Seq<SpanModel>, field: (Text, Text)) -> bool {
    exists|a: int, i: int|
        0 <= a < spans.len() && 0 <= i < spans[a].fields.len() && #[trigger] spans[a].fields[i]
            == field
}

proof fn all_fields_are_of_spans(spans: Seq<SpanModel>)
    ensures
        forall|a: int, i: int|
            0 <= a < spans.len() && 0 <= i < spans[a].fields.len() ==> all_fields(spans).contains(
                #[trigger] spans[a].fields[i],
            ),
        forall|x: int|
            0 <= x < all_fields(spans).len() ==> is_field_of(
                spans,
                #[trigger] all_fields(spans)[x],
            ),
    decreases spans.len(),
{
    if spans.len() > 0 {
        let front = spans.drop_last();
        let before = all_fields(front);
        let all = all_fields(spans);
        let last = spans.len() - 1;
        all_fields_are_of_spans(front);
        assert forall|a: int, i: int|
            0 <= a < spans.len() && 0 <= i < spans[a].fields.len() implies all.contains(
            #[trigger] spans[a].fields[i],
        ) by {
            if a < last {
                assert(before.contains(front[a].fields[i]));
                let x = choose|x: int| 0 <= x < before.len() && before[x] == front[a].fields[i];
                assert(all[x] == spans[a].fields[i]);
            } else {
                assert(all[before.len() + i] == spans[a].fields[i]);
            }
        }
        assert forall|x: int| 0 <= x < all.len() implies is_field_of(
            spans,
            #[trigger] all[x],
        ) by {
            if x < before.len() {
                assert(is_field_of(front, before[x]));
                let (a, i) = choose|a: int, i: int|
                    0 <= a < front.len() && 0 <= i < front[a].fields.len()
                        && #[trigger] front[a].fields[i] == before[x];
                assert(spans[a].fields[i] == all[x]);
            } else {
                assert(spans[last].fields[x - before.len()] == all[x]);
            }
        }
    }
}

/// The root of a trace is a span of the window that has no parent. A span and
/// its parent belong to the same trace, and a span without a parent is its
/// own root.
pub proof fn traces_have_one_root(ring: Seq<EntryModel>, i: int, steps: nat)
    requires
        0 <= i < ring.len(),
        forall|j: int| i < j < ring.len() ==> (#[trigger] ring[j]).span.id != ring[i].span.id,
        steps > 0,
    ensures
        ({
            let span = ring[i].span;
            let root = root_of(ring, span.id, steps);
            &&& span.parent_id is None ==> root == Some(span.id)
            &&& span.parent_id is Some ==> root == root_of(
                ring,
                span.parent_id->0,
                (steps - 1) as nat,
            )
            &&& root is Some ==> has_id(ring, root->0) && ring[index_of_id(
                ring,
                root->0,
            )].span.parent_id is None
        }),
{
    crate::aggregate::ring::newest_is_only(ring, ring[i].span.id, i);
    roots_have_no_parent(ring, ring[i].span.id, steps);
}

proof fn roots_have_no_parent(ring: Seq<EntryModel>, id: u64, steps: nat)
    ensures
        root_of(ring, id, steps) matches Some(root) ==> has_id(ring, root) && ring[index_of_id(
            ring,
            root,
        )].span.parent_id is None,
    decreases steps,
{
    if steps > 0 && has_id(ring, id) {
        if let Some(p) = ring[index_of_id(ring, id)].span.parent_id {
            roots_have_no_parent(ring, p, (steps - 1) as nat);
        }
    }
}

proof fn items_are_finite(ring: Seq<EntryModel>, p: int)
    ensures
        Set::new(|item: TraceItem| is_item(ring, p, item)).finite(),
{
    let n = ring[p].span.events.len();
    let all = Seq::new(
        n + ring.len(),
        |i: int|
            if i < n {
                TraceItem::Event(i)
            } else {
                TraceItem::Child(i - n)
            },
    );
    let set = Set::new(|item: TraceItem| is_item(ring, p, item));
    vstd::seq_lib::seq_to_set_is_finite(all);
    assert(set.subset_of(all.to_set())) by {
        assert forall|item: TraceItem| set.contains(item) implies all.to_set().contains(item) by {
            match item {
                TraceItem::Event(i) => {
                    assert(all[i] == item);
                },
                TraceItem::Child(q) => {
                    assert(all[n + q] == item);
                },
            }
        }
    }
    vstd::set_lib::lemma_set_subset_finite(all.to_set(), set);
}

/// Below a span of a trace stand its events and its children, all of them and
/// each once, in the order of time: an event at the time when it was
/// recorded, a child at the time when it was opened, and an event before a
/// child of the same time.
pub proof fn items_stand_in_the_order_of_time(ring: Seq<EntryModel>, p: int, i: int, j: int)
    requires
        0 <= p < ring.len(),
        0 <= i < j < items_below(ring, p).len(),
    ensures
        ({
            let items = items_below(ring, p);
            let x = match items[i] {
                TraceItem::Event(e) => ring[p].span.events[e].recorded_at_ns,
                TraceItem::Child(q) => ring[q].span.opened_at_ns,
            };
            let y = match items[j] {
                TraceItem::Event(e) => ring[p].span.events[e].recorded_at_ns,
                TraceItem::Child(q) => ring[q].span.opened_at_ns,
            };
            &&& x <= y
            &&& x == y ==> !(items[i] is Child && items[j] is Event)
            &&& items.no_duplicates()
        }),
{
    let lt = item_less(ring, p);
    let set = Set::new(|item: TraceItem| is_item(ring, p, item));
    item_order_is_strict(ring, p);
    items_are_finite(ring, p);
    finite_sets_are_listed(lt, set);
    let items = items_below(ring, p);
    assert(lt(items[i], items[j]));
}

/// Every event of a span and every child of it stand below it, and nothing
/// else does.
pub proof fn all_items_stand_below_their_span(ring: Seq<EntryModel>, p: int)
    requires
        0 <= p < ring.len(),
    ensures
        forall|e: int| #[trigger]
            items_below(ring, p).contains(TraceItem::Event(e)) <==> 0 <= e
                < ring[p].span.events.len(),
        forall|q: int| #[trigger]
            items_below(ring, p).contains(TraceItem::Child(q)) <==> 0 <= q < ring.len()
                && ring[q].span.parent_id == Some(ring[p].span.id),
{
    let lt = item_less(ring, p);
    let set = Set::new(|item: TraceItem| is_item(ring, p, item));
    item_order_is_strict(ring, p);
    items_are_finite(ring, p);
    finite_sets_are_listed(lt, set);
    let items = items_below(ring, p);
    assert forall|item: TraceItem| #[trigger] items.contains(item) <==> is_item(ring, p, item) by {
        assert(items.contains(item) == items.to_set().contains(item));
        assert(set.contains(item) == is_item(ring, p, item));
    }
}

/// A span of a trace has a row of its own, and where it is not folded away a
/// row one column further for each of its events, and for each of its
/// children as long as the tree is followed that deep. A folded span has its
/// own row alone.
pub proof fn a_trace_shows_what_stands_below(
    ring: Seq<EntryModel>,
    p: int,
    depth: nat,
    left: nat,
    folded: Set<u64>,
    k: int,
)
    requires
        0 <= p < ring.len(),
    ensures
        ({
            let id = ring[p].span.id;
            let items = items_below(ring, p);
            let rows = tree_rows(ring, p, depth, left, folded);
            &&& rows.len() > 0
            &&& rows[0] == (TraceRow::Span {
                id,
                depth: depth as usize,
                has_children: items.len() > 0,
                expanded: !folded.contains(id),
            })
            &&& folded.contains(id) ==> rows.len() == 1
            &&& !folded.contains(id) && 0 <= k < items.len() ==> match items[k] {
                TraceItem::Event(e) => rows.contains(
                    TraceRow::Event { parent_id: id, idx: e as usize, depth: (depth + 1) as usize },
                ),
                TraceItem::Child(q) => left > 0 ==> exists|r: int|
                    0 < r < rows.len() && (#[trigger] rows[r] matches TraceRow::Span {
                        id: child,
                        depth: below,
                        has_children,
                        expanded,
                    } && child == ring[q].span.id && below == (depth + 1) as usize && expanded
                        == !folded.contains(child)),
            }
        }),
{
    let id = ring[p].span.id;
    let items = items_below(ring, p);
    let rows = tree_rows(ring, p, depth, left, folded);
    if !folded.contains(id) && 0 <= k < items.len() {
        let tail = item_rows(ring, p, items, items.len(), depth, left, folded);
        assert(rows =~= seq![rows[0]] + tail);
        item_has_a_row(ring, p, items, items.len(), depth, left, folded, k);
        match items[k] {
            TraceItem::Event(e) => {
                let row = TraceRow::Event {
                    parent_id: id,
                    idx: e as usize,
                    depth: (depth + 1) as usize,
                };
                let r = choose|r: int| 0 <= r < tail.len() && tail[r] == row;
                assert(rows[r + 1] == row);
            },
            TraceItem::Child(q) => {
                if left > 0 {
                    let r = choose|r: int|
                        0 <= r < tail.len() && is_row_of(
                            #[trigger] tail[r],
                            ring[q].span.id,
                            depth + 1,
                            folded,
                        );
                    assert(rows[r + 1] == tail[r]);
                }
            },
        }
    }
}

/// The row is that of a span at the given depth.
spec fn is_row_of(row: TraceRow, id: u64, depth: nat, folded: Set<u64>) -> bool {
    row matches TraceRow::Span { id: child, depth: below, has_children, expanded } && child == id
        && below == depth as usize && expanded == !folded.contains(child)
}

proof fn item_has_a_row(
    ring: Seq<EntryModel>,
    p: int,
    items: Seq<TraceItem>,
    n: nat,
    depth: nat,
    left: nat,
    folded: Set<u64>,
    k: int,
)
    requires
        0 <= k < n <= items.len(),
    ensures
        ({
            let rows = item_rows(ring, p, items, n, depth, left, folded);
            match items[k] {
                TraceItem::Event(e) => rows.contains(
                    TraceRow::Event {
                        parent_id: ring[p].span.id,
                        idx: e as usize,
                        depth: (depth + 1) as usize,
                    },
                ),
                TraceItem::Child(q) => left > 0 ==> exists|r: int|
                    0 <= r < rows.len() && is_row_of(
                        #[trigger] rows[r],
                        ring[q].span.id,
                        depth + 1,
                        folded,
                    ),
            }
        }),
    decreases n,
{
    let rows = item_rows(ring, p, items, n, depth, left, folded);
    let before = item_rows(ring, p, items, (n - 1) as nat, depth, left, folded);
    if k < n - 1 {
        item_has_a_row(ring, p, items, (n - 1) as nat, depth, left, folded, k);
        match items[k] {
            TraceItem::Event(e) => {
                let row = TraceRow::Event {
                    parent_id: ring[p].span.id,
                    idx: e as usize,
                    depth: (depth + 1) as usize,
                };
                let r = choose|r: int| 0 <= r < before.len() && before[r] == row;
                assert(rows[r] == row);
            },
            TraceItem::Child(q) => {
                if left > 0 {
                    let r = choose|r: int|
                        0 <= r < before.len() && is_row_of(
                            #[trigger] before[r],
                            ring[q].span.id,
                            depth + 1,
                            folded,
                        );
                    assert(rows[r] == before[r]);
                }
            },
        }
    } else {
        match items[k] {
            TraceItem::Event(e) => {
                assert(rows[before.len() as int] == rows.last());
            },
            TraceItem::Child(q) => {
                if left > 0 {
                    let sub = tree_rows(ring, q, depth + 1, (left - 1) as nat, folded);
                    assert(sub.len() > 0);
                    assert(rows[before.len() as int] == sub[0]);
                    assert(is_row_of(
                        rows[before.len() as int],
                        ring[q].span.id,
                        depth + 1,
                        folded,
                    ));
                }
            },
        }
    }
}

/// What is typed is searched for as it is typed. Committing keeps it and
/// closes the input, and leaving the input brings back the search that was
/// committed before. Either way the cursor starts from the first row.
pub proof fn searches_are_kept_when_committed(es: ExploreModel, ring: Seq<EntryModel>, u: Update)
    ensures
        ({
            let after = explore_after(es, ring, u);
            &&& after.query != es.query ==> u is ExploreSearchCommit
            &&& es.search_input is Some ==> effective(es) == es.search_input->0
            &&& es.search_input is None ==> effective(es) == es.query
            &&& u is BeginExploreSearch ==> after.search_input is Some
                && after.search_input->0.len() == 0 && after.selected == 0
            &&& u is ExploreSearchCommit && es.search_input is Some ==> {
                &&& after.search_input is None
                &&& effective(after) == effective(es)
                &&& after.query == es.search_input->0
                &&& after.selected == 0
            }
            &&& u is ExploreSearchCancel ==> after.search_input is None && effective(after)
                == es.query && after.selected == 0
            &&& after.sort != es.sort ==> u is ExploreSortLeft || u is ExploreSortRight
            &&& after.direction != es.direction ==> u is ExploreSortLeft || u is ExploreSortRight
                || u is ExploreInvertSort
            &&& u is ExploreInvertSort ==> after.direction != es.direction && after.sort == es.sort
        }),
{
}

/// The columns to sort by are the time, the latency and then the fields.
/// Going right sorts by the next of them and going left by the one before,
/// round the ends, each in the direction in which it reads most naturally:
/// times from the largest down, fields alphabetically.
pub proof fn sorting_goes_to_the_next_column(es: ExploreModel, fields: Seq<Text>, p: int)
    requires
        fields.no_duplicates(),
        0 <= p < fields.len() + 2,
        p == 0 ==> es.sort is Timestamp,
        p == 1 ==> es.sort is Latency,
        p >= 2 ==> es.sort == ExploreColumn::Field(fields[p - 2]),
    ensures
        ({
            let n = fields.len() + 2;
            let (right, left) = (cycled(es, fields, 1), cycled(es, fields, -1));
            let r = if p + 1 < n {
                p + 1
            } else {
                0
            };
            let l = if p > 0 {
                p - 1
            } else {
                n - 1
            };
            &&& is_column(right.sort, fields, r) && is_column(left.sort, fields, l)
            &&& right.direction is Desc <==> r < 2
            &&& left.direction is Desc <==> l < 2
        }),
{
    let columns = sort_columns(fields);
    let n = columns.len() as int;
    assert(n == fields.len() + 2);
    assert(columns[p] == es.sort);
    assert(first_at(columns, es.sort, p)) by {
        assert forall|j: int| 0 <= j < p implies #[trigger] columns[j] != es.sort by {
            if j >= 2 {
                assert(fields[j - 2] != fields[p - 2]);
            }
        }
    }
    let q = column_place(columns, es.sort);
    assert(first_at(columns, es.sort, q));
    assert(q == p) by {
        if q < p {
            assert(columns[q] != es.sort);
        } else if p < q {
            assert(columns[p] != es.sort);
        }
    }
    let (r, l) = ((p + 1) % n, (p - 1) % n);
    assert(r == if p + 1 < n { p + 1 } else { 0 }) by (nonlinear_arith)
        requires
            r == (p + 1) % n,
            0 <= p < n,
            n >= 2,
    ;
    assert(l == if p > 0 { p - 1 } else { n - 1 }) by (nonlinear_arith)
        requires
            l == (p - 1) % n,
            0 <= p < n,
            n >= 2,
    ;
}

/// The column is the one at a place among the time, the latency and some
/// fields.
pub open spec fn is_column(column: ExploreColumn, fields: Seq<Text>, p: int) -> bool {
    if p == 0 {
        column is Timestamp
    } else if p == 1 {
        column is Latency
    } else {
        column == ExploreColumn::Field(fields[p - 2])
    }
}

} // verus!
