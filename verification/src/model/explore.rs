//! The explore view: the individual spans of a stack, searched and sorted,
//! and the trace tree of one of them.

use vstd::prelude::*;

use crate::aggregate::ring::{has_id, index_of_id, lookup, newest_is_only, span_total, EntryModel};
use crate::aggregate::state::Aggregator;
use crate::model::console::Model;
use crate::model::explored::{may_stand_before, spans_are_listed_in_order};
use crate::model::graph::slot_model;
use crate::order::{key_order, key_order_is_strict, same, strict_order, text_less, Key, Rel};
use crate::protocol::{
    first_named, EventModel, SpanModel, Text, WireFieldValue, WireLevelFilter, WireSpan,
};
use crate::sorted::{arrange, ascending_is_listing, listing, SortedMap, SortedSet};
use crate::text::{contains_text, fold_text, folded, has_part};

verus! {

/// The column by which the spans are sorted.
#[derive(Debug, Clone, PartialEq, Eq)]
pub enum ExploreSortColumn {
    /// When the span was opened.
    Timestamp,
    /// How long the span was open.
    Latency,
    /// What a field prints as.
    Field(String),
}

pub ghost enum ExploreColumn {
    Timestamp,
    Latency,
    Field(Text),
}

impl View for ExploreSortColumn {
    type V = ExploreColumn;

    open spec fn view(&self) -> ExploreColumn {
        match *self {
            ExploreSortColumn::Timestamp => ExploreColumn::Timestamp,
            ExploreSortColumn::Latency => ExploreColumn::Latency,
            ExploreSortColumn::Field(k) => ExploreColumn::Field(k@),
        }
    }
}

#[derive(Debug, Clone, Copy, PartialEq, Eq, Structural)]
pub enum SortDirection {
    Asc,
    Desc,
}

/// The direction in which a column reads most naturally: times from the
/// largest down, fields alphabetically.
pub open spec fn natural_direction(column: ExploreColumn) -> SortDirection {
    match column {
        ExploreColumn::Field(_) => SortDirection::Asc,
        _ => SortDirection::Desc,
    }
}

impl ExploreSortColumn {
    /// The direction that a column starts with.
    pub fn default_direction(&self) -> (r: SortDirection)
        ensures
            r == natural_direction(self@),
    {
        match self {
            ExploreSortColumn::Timestamp => SortDirection::Desc,
            ExploreSortColumn::Latency => SortDirection::Desc,
            ExploreSortColumn::Field(_) => SortDirection::Asc,
        }
    }

    /// The same column.
    pub fn duplicate(&self) -> (r: Self)
        ensures
            r@ == self@,
    {
        match self {
            ExploreSortColumn::Timestamp => ExploreSortColumn::Timestamp,
            ExploreSortColumn::Latency => ExploreSortColumn::Latency,
            ExploreSortColumn::Field(k) => ExploreSortColumn::Field(k.clone()),
        }
    }
}

fn same_column(a: &ExploreSortColumn, b: &ExploreSortColumn) -> (r: bool)
    ensures
        r == (a@ == b@),
{
    match (a, b) {
        (ExploreSortColumn::Timestamp, ExploreSortColumn::Timestamp) => true,
        (ExploreSortColumn::Latency, ExploreSortColumn::Latency) => true,
        (ExploreSortColumn::Field(x), ExploreSortColumn::Field(y)) => same(x, y),
        _ => false,
    }
}

impl SortDirection {
    pub open spec fn spec_flip(self) -> SortDirection {
        match self {
            SortDirection::Asc => SortDirection::Desc,
            SortDirection::Desc => SortDirection::Asc,
        }
    }

    /// The opposite direction.
    pub fn flip(self) -> (r: Self)
        ensures
            r == self.spec_flip(),
    {
        match self {
            SortDirection::Asc => SortDirection::Desc,
            SortDirection::Desc => SortDirection::Asc,
        }
    }

    /// The arrow drawn beside the column's name.
    pub fn arrow(self) -> (r: &'static str)
        ensures
            r@ == match self {
                SortDirection::Asc => "▲"@,
                SortDirection::Desc => "▼"@,
            },
    {
        match self {
            SortDirection::Asc => "▲",
            SortDirection::Desc => "▼",
        }
    }
}

/// Flipping a direction twice gives it back.
pub proof fn flip_is_involution(d: SortDirection)
    ensures
        d.spec_flip().spec_flip() == d,
{
}

/// The state of the explore view.
pub struct ExploreState {
    /// The stack whose spans are listed.
    pub locked_stack: Vec<String>,
    /// The recording level to go back to, if it was known on entry.
    pub restore_level: Option<WireLevelFilter>,
    pub selected: usize,
    pub sort: ExploreSortColumn,
    pub direction: SortDirection,
    /// What is being typed as search, if anything is.
    pub search_input: Option<String>,
    /// The search that was committed; empty means none.
    pub query: String,
}

pub ghost struct ExploreModel {
    pub locked_stack: Seq<Text>,
    pub restore_level: Option<WireLevelFilter>,
    pub selected: usize,
    pub sort: ExploreColumn,
    pub direction: SortDirection,
    pub search_input: Option<Text>,
    pub query: Text,
}

impl View for ExploreState {
    type V = ExploreModel;

    open spec fn view(&self) -> ExploreModel {
        ExploreModel {
            locked_stack: self.locked_stack.model(),
            restore_level: self.restore_level,
            selected: self.selected,
            sort: self.sort@,
            direction: self.direction,
            search_input: slot_model(self.search_input),
            query: self.query@,
        }
    }
}

/// The explore view as it is entered.
pub open spec fn fresh_explore(
    stack: Seq<Text>,
    restore_level: Option<WireLevelFilter>,
) -> ExploreModel {
    ExploreModel {
        locked_stack: stack,
        restore_level,
        selected: 0,
        sort: ExploreColumn::Timestamp,
        direction: SortDirection::Desc,
        search_input: None,
        query: Seq::empty(),
    }
}

/// The search in force: what is being typed, or else what was committed.
pub open spec fn effective(es: ExploreModel) -> Text {
    match es.search_input {
        Some(s) => s,
        None => es.query,
    }
}

impl ExploreState {
    pub fn new(locked_stack: Vec<String>, restore_level: Option<WireLevelFilter>) -> (es: Self)
        ensures
            es@ == fresh_explore(locked_stack.model(), restore_level),
    {
        let sort = ExploreSortColumn::Timestamp;
        let direction = sort.default_direction();
        ExploreState {
            locked_stack,
            restore_level,
            selected: 0,
            sort,
            direction,
            search_input: None,
            query: String::new(),
        }
    }

    /// The search in force.
    pub fn effective_query(&self) -> (r: &str)
        ensures
            r@ == effective(self@),
    {
        match &self.search_input {
            Some(s) => s.as_str(),
            None => self.query.as_str(),
        }
    }

    /// The same state.
    pub fn duplicate(&self) -> (r: Self)
        ensures
            r@ == self@,
    {
        ExploreState {
            locked_stack: self.locked_stack.duplicate(),
            restore_level: self.restore_level,
            selected: self.selected,
            sort: self.sort.duplicate(),
            direction: self.direction,
            search_input: match &self.search_input {
                Some(s) => Some(s.clone()),
                None => None,
            },
            query: self.query.clone(),
        }
    }
}

/// A name or a printed value of some fields holds the text.
pub open spec fn fields_match(fields: Seq<(Text, Text)>, q: Text) -> bool {
    exists|i: int|
        0 <= i < fields.len() && (has_part(folded((#[trigger] fields[i]).0), q) || has_part(
            folded(fields[i].1),
            q,
        ))
}

/// The name or a field of an event holds the text.
pub open spec fn event_matches(e: EventModel, q: Text) -> bool {
    has_part(folded(e.name), q) || fields_match(e.fields, q)
}

/// The name or a field of a span, or one of its events, holds the text.
pub open spec fn span_matches(s: SpanModel, q: Text) -> bool {
    ||| has_part(folded(s.name), q)
    ||| fields_match(s.fields, q)
    ||| exists|i: int| 0 <= i < s.events.len() && event_matches(#[trigger] s.events[i], q)
}

fn any_field_matches(fields: &Vec<(String, WireFieldValue)>, q: &str) -> (r: bool)
    ensures
        r == fields_match(crate::protocol::fields_model(fields@), q@),
{
    let ghost model = crate::protocol::fields_model(fields@);
    let mut i: usize = 0;
    while i < fields.len()
        invariant
            model == crate::protocol::fields_model(fields@),
            i <= fields@.len(),
            forall|j: int|
                0 <= j < i ==> !has_part(folded((#[trigger] model[j]).0), q@) && !has_part(
                    folded(model[j].1),
                    q@,
                ),
        decreases fields@.len() - i,
    {
        assert(model[i as int] == (fields@[i as int].0@, fields@[i as int].1@));
        let name = fold_text(fields[i].0.as_str());
        let printed = fields[i].1.to_string_value();
        let value = fold_text(printed.as_str());
        if contains_text(name.as_str(), q) || contains_text(value.as_str(), q) {
            return true;
        }
        i = i + 1;
    }
    false
}

/// Whether a span, its fields or its events hold a text in small letters.
pub fn span_matches_query(s: &WireSpan, q: &str) -> (r: bool)
    ensures
        r == span_matches(s@, q@),
{
    let name = fold_text(s.name.as_str());
    if contains_text(name.as_str(), q) {
        return true;
    }
    if any_field_matches(&s.fields, q) {
        return true;
    }
    let mut i: usize = 0;
    while i < s.events.len()
        invariant
            i <= s.events@.len(),
            forall|j: int| 0 <= j < i ==> !event_matches(#[trigger] s@.events[j], q@),
        decreases s.events@.len() - i,
    {
        let e = &s.events[i];
        assert(s@.events[i as int] == e@);
        let title = fold_text(e.name.as_str());
        if contains_text(title.as_str(), q) || any_field_matches(&e.fields, q) {
            return true;
        }
        i = i + 1;
    }
    false
}

/// How long a span was open; zero while it is in flight.
pub fn latency_ns(s: &WireSpan) -> (r: u64)
    ensures
        r == span_total(s@),
{
    match s.closed_at_ns {
        Some(closed) => closed.saturating_sub(s.opened_at_ns),
        None => 0,
    }
}

/// What the first field with a name prints as; empty when there is none.
pub open spec fn field_text(s: SpanModel, name: Text) -> Text {
    if lookup(s.fields).dom().contains(name) {
        lookup(s.fields)[name]
    } else {
        Seq::empty()
    }
}

/// What the first field with a name prints as; empty when there is none.
pub fn field_string(s: &WireSpan, key: &str) -> (r: String)
    ensures
        r@ == field_text(s@, key@),
{
    match s.field(key) {
        Some(v) => {
            proof {
                let i = choose|i: int|
                    first_named(s@.fields, key@, i) && #[trigger] s.fields@[i].1 == *v && v@
                        == s@.fields[i].1;
                let k = choose|k: int| first_named(s@.fields, key@, k);
                assert(first_named(s@.fields, key@, k));
                if k < i {
                    assert(s@.fields[k].0 != key@);
                } else if i < k {
                    assert(s@.fields[i].0 != key@);
                }
            }
            v.to_string_value()
        },
        None => {
            proof {
                if lookup(s@.fields).dom().contains(key@) {
                    let k = choose|k: int| first_named(s@.fields, key@, k);
                    assert(first_named(s@.fields, key@, k));
                    assert(s@.fields[k].0 != key@);
                }
            }
            String::new()
        },
    }
}

/// One span sorts below another by a column.
pub open spec fn key_less(a: SpanModel, b: SpanModel, column: ExploreColumn) -> bool {
    match column {
        ExploreColumn::Timestamp => a.opened_at_ns < b.opened_at_ns,
        ExploreColumn::Latency => span_total(a) < span_total(b),
        ExploreColumn::Field(name) => text_less(field_text(a, name), field_text(b, name)),
    }
}

/// The order of positions in the window: by the column, and by age where the
/// column says nothing.
pub open spec fn position_less(
    ring: Seq<EntryModel>,
    column: ExploreColumn,
) -> spec_fn(int, int) -> bool {
    |a: int, b: int|
        key_less(ring[a].span, ring[b].span, column) || (!key_less(
            ring[b].span,
            ring[a].span,
            column,
        ) && a < b)
}

/// The positions of the spans that the view lists.
pub open spec fn listed_positions(ring: Seq<EntryModel>, es: ExploreModel) -> Set<int> {
    let q = folded(effective(es));
    Set::new(
        |i: int|
            0 <= i < ring.len() && ring[i].bucket.stack == es.locked_stack && (q.len() == 0
                || span_matches(ring[i].span, q)),
    )
}

/// The positions of the listed spans in the order of the view.
pub open spec fn matching(ring: Seq<EntryModel>, es: ExploreModel) -> Seq<int> {
    let up = listing(position_less(ring, es.sort), listed_positions(ring, es));
    match es.direction {
        SortDirection::Asc => up,
        SortDirection::Desc => up.reverse(),
    }
}

/// The order of positions is strict and total.
pub proof fn position_order_is_strict(ring: Seq<EntryModel>, column: ExploreColumn)
    ensures
        strict_order(position_less(ring, column)),
{
    let lt = position_less(ring, column);
    let tl = key_order::<String>();
    key_order_is_strict::<String>();
    if let ExploreColumn::Field(name) = column {
        assert forall|a: int| !#[trigger] lt(a, a) by {
            let x = field_text(ring[a].span, name);
            assert(!tl(x, x));
        }
        assert forall|a: int, b: int, c: int| #[trigger] lt(a, b) && #[trigger] lt(b, c) implies lt(
            a,
            c,
        ) by {
            let x = field_text(ring[a].span, name);
            let y = field_text(ring[b].span, name);
            let z = field_text(ring[c].span, name);
            assert(x == y || tl(x, y) || tl(y, x));
            assert(y == z || tl(y, z) || tl(z, y));
            assert(!tl(x, x));
            if tl(x, y) && tl(y, z) {
                assert(tl(x, z));
            }
            if tl(z, x) && tl(x, z) {
                assert(tl(x, x));
            }
        }
        assert forall|a: int, b: int| a == b || #[trigger] lt(a, b) || lt(b, a) by {
        }
    }
}

/// The spans of the window with the given stack, oldest first.
fn spans_of_stack<'a>(agg: &'a Aggregator, stack: &Vec<String>) -> (r: Vec<&'a WireSpan>)
    requires
        agg.wf(),
    ensures
        r@.map_values(|s: &WireSpan| s@) == stack_spans(agg@.ring, stack.model()),
{
    let ghost ring = agg@.ring;
    let all = agg.iter_with_stack();
    let mut out: Vec<&WireSpan> = Vec::new();
    let mut i: usize = 0;
    proof {
        assert(out@.map_values(|s: &WireSpan| s@) =~= stack_spans(ring.take(0), stack.model()));
    }
    while i < all.len()
        invariant
            ring == agg@.ring,
            i <= all@.len(),
            all@.len() == ring.len(),
            forall|k: int|
                0 <= k < all@.len() ==> (#[trigger] all@[k]).0@ == ring[k].span
                    && all@[k].1.model() == ring[k].bucket.stack,
            out@.map_values(|s: &WireSpan| s@) == stack_spans(ring.take(i as int), stack.model()),
        decreases all@.len() - i,
    {
        let (span, at) = all[i];
        let ghost had = out@;
        proof {
            assert(ring.take(i + 1).drop_last() =~= ring.take(i as int));
            assert(ring.take(i + 1).last() == ring[i as int]);
        }
        if same(at, stack) {
            out.push(span);
            assert(out@.map_values(|s: &WireSpan| s@) =~= had.map_values(|s: &WireSpan| s@).push(
                span@,
            ));
        }
        i = i + 1;
    }
    assert(ring.take(i as int) =~= ring);
    out
}

/// The spans with the given stack, oldest first.
pub open spec fn stack_spans(ring: Seq<EntryModel>, stack: Seq<Text>) -> Seq<SpanModel>
    decreases ring.len(),
{
    if ring.len() == 0 {
        Seq::empty()
    } else {
        let rest = stack_spans(ring.drop_last(), stack);
        if ring.last().bucket.stack == stack {
            rest.push(ring.last().span)
        } else {
            rest
        }
    }
}

/// Whether a span sorts below another by a column.
fn span_below(a: &WireSpan, b: &WireSpan, column: &ExploreSortColumn) -> (r: bool)
    ensures
        r == key_less(a@, b@, column@),
{
    match column {
        ExploreSortColumn::Timestamp => a.opened_at_ns < b.opened_at_ns,
        ExploreSortColumn::Latency => latency_ns(a) < latency_ns(b),
        ExploreSortColumn::Field(name) => {
            let x = field_string(a, name.as_str());
            let y = field_string(b, name.as_str());
            proof {
                <String as Key>::irreflexive(x@);
                if text_less(y@, x@) && text_less(x@, y@) {
                    <String as Key>::transitive(x@, y@, x@);
                }
            }
            match x.compare(&y) {
                Rel::Less => true,
                _ => false,
            }
        },
    }
}

/// The listed spans in the order of the view.
pub(crate) fn matching_in<'a>(agg: &'a Aggregator, es: &ExploreState) -> (r: Vec<&'a WireSpan>)
    requires
        agg.wf(),
    ensures
        ({
            let at = matching(agg@.ring, es@);
            &&& r@.len() == at.len()
            &&& forall|i: int| 0 <= i < at.len() ==> (#[trigger] r@[i])@ == agg@.ring[at[i]].span
        }),
{
    let ghost ring = agg@.ring;
    let q = fold_text(es.effective_query());
    let all = agg.iter_with_stack();
    let mut picked: Vec<usize> = Vec::new();
    let mut i: usize = 0;
    while i < all.len()
        invariant
            ring == agg@.ring,
            q@ == folded(effective(es@)),
            i <= all@.len(),
            all@.len() == ring.len(),
            forall|k: int|
                0 <= k < all@.len() ==> (#[trigger] all@[k]).0@ == ring[k].span
                    && all@[k].1.model() == ring[k].bucket.stack,
            forall|x: usize| #[trigger]
                picked@.contains(x) <==> x < i && listed_positions(ring, es@).contains(x as int),
            forall|a: int, b: int| 0 <= a < b < picked@.len() ==> picked@[a] < picked@[b],
        decreases all@.len() - i,
    {
        let (span, at) = all[i];
        let ghost had = picked@;
        if same(at, &es.locked_stack) && (q.as_str().is_empty() || span_matches_query(
            span,
            q.as_str(),
        )) {
            picked.push(i);
            proof {
                assert forall|a: int, b: int| 0 <= a < b < picked@.len() implies picked@[a]
                    < picked@[b] by {
                    if b == had.len() {
                        assert(had.contains(had[a]));
                    }
                }
                assert forall|x: usize| #[trigger] picked@.contains(x) <==> x < i + 1
                    && listed_positions(ring, es@).contains(x as int) by {
                    if picked@.contains(x) {
                        let k = choose|k: int| 0 <= k < picked@.len() && picked@[k] == x;
                        if k < had.len() {
                            assert(had[k] == x);
                            assert(had.contains(x));
                        }
                    }
                    if had.contains(x) {
                        let k = choose|k: int| 0 <= k < had.len() && had[k] == x;
                        assert(picked@[k] == x);
                    }
                    if x == i {
                        assert(picked@[had.len() as int] == x);
                    }
                }
            }
        }
        i = i + 1;
    }
    let ghost lt = |a: usize, b: usize| position_less(ring, es@.sort)(a as int, b as int);
    let ghost wide = position_less(ring, es@.sort);
    proof {
        position_order_is_strict(ring, es@.sort);
        assert forall|a: usize, b: usize, c: usize| #[trigger]
            lt(a, b) && #[trigger] lt(b, c) implies lt(a, c) by {
            assert(wide(a as int, b as int) && wide(b as int, c as int));
        }
        assert forall|a: usize, b: usize| a == b || #[trigger] lt(a, b) || lt(b, a) by {
            assert(a as int == b as int || wide(a as int, b as int) || wide(b as int, a as int));
        }
        assert(strict_order(lt));
    }
    let before = |a: usize, b: usize| -> (r: bool)
        requires
            a < all@.len(),
            b < all@.len(),
            all@.len() == agg@.ring.len(),
            forall|k: int| 0 <= k < all@.len() ==> (#[trigger] all@[k]).0@ == agg@.ring[k].span,
        ensures
            r == position_less(agg@.ring, es@.sort)(a as int, b as int),
        {
            if span_below(all[a].0, all[b].0, &es.sort) {
                true
            } else if span_below(all[b].0, all[a].0, &es.sort) {
                false
            } else {
                a < b
            }
        };
    let order = arrange(&picked, before, Ghost(lt));
    let ghost up = order@.map_values(|x: usize| x as int);
    proof {
        assert forall|a: int, b: int| 0 <= a < b < up.len() implies wide(
            #[trigger] up[a],
            #[trigger] up[b],
        ) by {
            assert(lt(order@[a], order@[b]));
        }
        assert(up.to_set() =~= listed_positions(ring, es@)) by {
            assert forall|x: int| up.contains(x) == listed_positions(ring, es@).contains(x) by {
                if up.contains(x) {
                    let k = choose|k: int| 0 <= k < up.len() && up[k] == x;
                    assert(order@.contains(order@[k]));
                    assert(order@.to_set().contains(order@[k]));
                    assert(picked@.contains(order@[k]));
                }
                if listed_positions(ring, es@).contains(x) {
                    assert(picked@.contains(x as usize));
                    assert(picked@.to_set().contains(x as usize));
                    assert(order@.to_set().contains(x as usize));
                    let k = choose|k: int| 0 <= k < order@.len() && order@[k] == x as usize;
                    assert(up[k] == x);
                }
            }
        }
        ascending_is_listing(wide, up);
        assert forall|k: int| 0 <= k < order@.len() implies (#[trigger] order@[k])
            < all@.len() by {
            assert(up[k] == order@[k] as int);
            assert(up.to_set().contains(up[k]));
        }
    }
    let n: usize = order.len();
    let mut out: Vec<&WireSpan> = Vec::new();
    let mut k: usize = 0;
    let down: bool = match es.direction {
        SortDirection::Asc => false,
        SortDirection::Desc => true,
    };
    while k < n
        invariant
            n == order@.len(),
            up == order@.map_values(|x: usize| x as int),
            all@.len() == ring.len(),
            forall|j: int| 0 <= j < all@.len() ==> (#[trigger] all@[j]).0@ == ring[j].span,
            forall|j: int| 0 <= j < order@.len() ==> (#[trigger] order@[j]) < all@.len(),
            k <= n,
            out@.len() == k,
            forall|j: int|
                0 <= j < k ==> (#[trigger] out@[j])@ == ring[if down {
                    up[n - 1 - j]
                } else {
                    up[j]
                }].span,
        decreases n - k,
    {
        let at: usize = if down { order[n - 1 - k] } else { order[k] };
        out.push(all[at].0);
        k = k + 1;
    }
    out
}

/// All fields of some spans, one after the other.
pub open spec fn all_fields(spans: Seq<SpanModel>) -> Seq<(Text, Text)>
    decreases spans.len(),
{
    if spans.len() == 0 {
        Seq::empty()
    } else {
        all_fields(spans.drop_last()) + spans.last().fields
    }
}

/// A name occurs with two different values.
pub open spec fn has_two_values(fields: Seq<(Text, Text)>, name: Text) -> bool {
    exists|i: int, j: int|
        0 <= i < fields.len() && 0 <= j < fields.len() && (#[trigger] fields[i]).0 == name && (
        #[trigger] fields[j]).0 == name && fields[i].1 != fields[j].1
}

/// The names that occur with different values, ascending.
pub open spec fn distinguishing(spans: Seq<SpanModel>) -> Seq<Text> {
    listing(
        key_order::<String>(),
        Set::new(|name: Text| has_two_values(all_fields(spans), name)),
    )
}

/// For every name that occurs, `first` holds one of its values, and
/// `several` holds the names with more than one.
spec fn noted(
    fields: Seq<(Text, Text)>,
    first: Map<Text, String>,
    several: Set<Text>,
) -> bool {
    &&& forall|i: int|
        0 <= i < fields.len() ==> first.dom().contains((#[trigger] fields[i]).0)
    &&& forall|name: Text| #[trigger]
        first.dom().contains(name) ==> exists|i: int|
            0 <= i < fields.len() && #[trigger] fields[i] == (name, first[name]@)
    &&& forall|name: Text| #[trigger] several.contains(name) <==> has_two_values(fields, name)
}

proof fn noted_push(
    fields: Seq<(Text, Text)>,
    first: Map<Text, String>,
    several: Set<Text>,
    f: (Text, Text),
)
    requires
        noted(fields, first, several),
    ensures
        !first.dom().contains(f.0) ==> forall|v: String| v@ == f.1 ==> #[trigger] noted(
            fields.push(f),
            first.insert(f.0, v),
            several,
        ),
        first.dom().contains(f.0) && first[f.0]@ == f.1 ==> noted(fields.push(f), first, several),
        first.dom().contains(f.0) && first[f.0]@ != f.1 ==> noted(
            fields.push(f),
            first,
            several.insert(f.0),
        ),
{
    let more = fields.push(f);
    let n = fields.len() as int;
    assert forall|name: Text| #[trigger] has_two_values(fields, name) implies has_two_values(
        more,
        name,
    ) by {
        let (i, j) = choose|i: int, j: int|
            0 <= i < fields.len() && 0 <= j < fields.len() && (#[trigger] fields[i]).0 == name && (
            #[trigger] fields[j]).0 == name && fields[i].1 != fields[j].1;
        assert(more[i] == fields[i] && more[j] == fields[j]);
    }
    assert forall|name: Text|
        name != f.0 && #[trigger] has_two_values(more, name) implies has_two_values(
        fields,
        name,
    ) by {
        let (i, j) = choose|i: int, j: int|
            0 <= i < more.len() && 0 <= j < more.len() && (#[trigger] more[i]).0 == name && (
            #[trigger] more[j]).0 == name && more[i].1 != more[j].1;
        assert(fields[i] == more[i] && fields[j] == more[j]);
    }
    assert forall|name: Text| first.dom().contains(name) implies exists|i: int|
        0 <= i < more.len() && #[trigger] more[i] == (name, first[name]@) by {
        let i = choose|i: int| 0 <= i < fields.len() && #[trigger] fields[i] == (
            name,
            first[name]@,
        );
        assert(more[i] == (name, first[name]@));
    }
    if !first.dom().contains(f.0) {
        assert(!has_two_values(more, f.0)) by {
            if has_two_values(more, f.0) {
                let (i, j) = choose|i: int, j: int|
                    0 <= i < more.len() && 0 <= j < more.len() && (#[trigger] more[i]).0 == f.0 && (
                    #[trigger] more[j]).0 == f.0 && more[i].1 != more[j].1;
                if i < n {
                    assert(fields[i].0 == f.0);
                }
                if j < n {
                    assert(fields[j].0 == f.0);
                }
            }
        }
        assert(!has_two_values(fields, f.0));
        assert forall|v: String| v@ == f.1 implies #[trigger] noted(
            more,
            first.insert(f.0, v),
            several,
        ) by {
            let next = first.insert(f.0, v);
            assert(more[n] == (f.0, next[f.0]@));
            assert forall|name: Text| #[trigger] next.dom().contains(name) implies exists|i: int|
                0 <= i < more.len() && #[trigger] more[i] == (name, next[name]@) by {
                if name != f.0 {
                    assert(first.dom().contains(name));
                }
            }
            assert forall|i: int| 0 <= i < more.len() implies next.dom().contains(
                (#[trigger] more[i]).0,
            ) by {
                if i < n {
                    assert(first.dom().contains(fields[i].0));
                }
            }
        }
    } else {
        let k = choose|k: int| 0 <= k < fields.len() && #[trigger] fields[k] == (
            f.0,
            first[f.0]@,
        );
        assert forall|i: int| 0 <= i < more.len() implies first.dom().contains(
            (#[trigger] more[i]).0,
        ) by {
            if i < n {
                assert(first.dom().contains(fields[i].0));
            }
        }
        if first[f.0]@ == f.1 {
            if has_two_values(more, f.0) {
                let (i, j) = choose|i: int, j: int|
                    0 <= i < more.len() && 0 <= j < more.len() && (#[trigger] more[i]).0 == f.0 && (
                    #[trigger] more[j]).0 == f.0 && more[i].1 != more[j].1;
                let ii = if i < n { i } else { k };
                let jj = if j < n { j } else { k };
                assert(fields[ii].0 == f.0 && fields[jj].0 == f.0 && fields[ii].1 != fields[jj].1);
            }
        } else {
            assert(more[k].0 == f.0 && more[n].0 == f.0 && more[k].1 != more[n].1);
            assert(has_two_values(more, f.0));
        }
    }
}

/// The names of the fields whose values differ between the spans, ascending.
pub fn distinguishing_fields(spans: &Vec<&WireSpan>) -> (r: Vec<String>)
    ensures
        r.model() == distinguishing(spans@.map_values(|s: &WireSpan| s@)),
{
    let ghost models = spans@.map_values(|s: &WireSpan| s@);
    let mut first: SortedMap<String, String> = SortedMap::new();
    let mut several: SortedSet<String> = SortedSet::new();
    let mut i: usize = 0;
    assert(noted(all_fields(models.take(0)), first@, several@));
    while i < spans.len()
        invariant
            models == spans@.map_values(|s: &WireSpan| s@),
            i <= spans@.len(),
            first.wf(),
            several.wf(),
            noted(all_fields(models.take(i as int)), first@, several@),
        decreases spans@.len() - i,
    {
        let span = spans[i];
        let ghost had = all_fields(models.take(i as int));
        let ghost fields = models[i as int].fields;
        proof {
            assert(models.take(i + 1).drop_last() =~= models.take(i as int));
            assert(models.take(i + 1).last() == models[i as int]);
            assert(had + fields.take(0) =~= had);
        }
        let mut j: usize = 0;
        while j < span.fields.len()
            invariant
                fields == span@.fields,
                j <= span.fields@.len(),
                first.wf(),
                several.wf(),
                noted(had + fields.take(j as int), first@, several@),
            decreases span.fields@.len() - j,
        {
            let name = &span.fields[j].0;
            let value = span.fields[j].1.to_string_value();
            let ghost f = fields[j as int];
            proof {
                assert(f == (name@, value@));
                noted_push(had + fields.take(j as int), first@, several@, f);
                assert((had + fields.take(j as int)).push(f) =~= had + fields.take(j + 1));
            }
            match first.get(name) {
                Some(known) => {
                    if !same(known, &value) {
                        let _ = several.insert(name.clone());
                    }
                },
                None => {
                    first.insert(name.clone(), value);
                },
            }
            j = j + 1;
        }
        assert(fields.take(j as int) =~= fields);
        i = i + 1;
    }
    let mut out: Vec<String> = Vec::new();
    let mut k: usize = 0;
    while k < several.len()
        invariant
            k <= several.listed().len(),
            out@.len() == k,
            forall|j: int| 0 <= j < k ==> (#[trigger] out@[j])@ == several.listed()[j],
        decreases several.listed().len() - k,
    {
        out.push(several.at(k).clone());
        k = k + 1;
    }
    proof {
        assert(models.take(i as int) =~= models);
        several.listed_is_listing();
        assert(several@ =~= Set::new(|name: Text| has_two_values(all_fields(models), name)));
        assert(out.model() =~= several.listed());
    }
    out
}

/// The columns through which sorting cycles.
pub open spec fn sort_columns(fields: Seq<Text>) -> Seq<ExploreColumn> {
    seq![ExploreColumn::Timestamp, ExploreColumn::Latency] + fields.map_values(
        |name: Text| ExploreColumn::Field(name),
    )
}

/// `i` is the first position of a column.
pub open spec fn first_at(columns: Seq<ExploreColumn>, column: ExploreColumn, i: int) -> bool {
    &&& 0 <= i < columns.len()
    &&& columns[i] == column
    &&& forall|j: int| 0 <= j < i ==> #[trigger] columns[j] != column
}

/// The first position of a column; zero when it does not occur.
pub open spec fn column_place(columns: Seq<ExploreColumn>, column: ExploreColumn) -> int {
    if exists|i: int| first_at(columns, column, i) {
        choose|i: int| first_at(columns, column, i)
    } else {
        0
    }
}

/// The explore view sorted by the column `delta` places further, round the
/// end, in that column's natural direction.
pub open spec fn cycled(es: ExploreModel, fields: Seq<Text>, delta: int) -> ExploreModel {
    let columns = sort_columns(fields);
    let next = columns[(column_place(columns, es.sort) + delta) % (columns.len() as int)];
    ExploreModel { sort: next, direction: natural_direction(next), ..es }
}

/// Sorts by the column `delta` places further, round the end.
pub fn cycle_sort(es: &mut ExploreState, fields: &Vec<String>, delta: isize)
    ensures
        final(es)@ == cycled(old(es)@, fields.model(), delta as int),
{
    let ghost columns = sort_columns(fields.model());
    let mut all: Vec<ExploreSortColumn> = Vec::new();
    all.push(ExploreSortColumn::Timestamp);
    all.push(ExploreSortColumn::Latency);
    let mut f: usize = 0;
    while f < fields.len()
        invariant
            columns == sort_columns(fields.model()),
            f <= fields@.len(),
            all@.len() == f + 2,
            forall|j: int| 0 <= j < all@.len() ==> (#[trigger] all@[j])@ == columns[j],
        decreases fields@.len() - f,
    {
        all.push(ExploreSortColumn::Field(fields[f].clone()));
        f = f + 1;
    }
    let n: usize = all.len();
    let mut at: usize = 0;
    let mut i: usize = 0;
    let mut found: bool = false;
    while i < n && !found
        invariant
            n == all@.len() == columns.len(),
            n >= 2,
            forall|j: int| 0 <= j < all@.len() ==> (#[trigger] all@[j])@ == columns[j],
            i <= n,
            !found ==> at == 0 && forall|j: int| 0 <= j < i ==> #[trigger] columns[j] != es@.sort,
            found ==> first_at(columns, es@.sort, at as int),
            *es == *old(es),
        decreases n - i, (if found { 0int } else { 1int }),
    {
        if same_column(&all[i], &es.sort) {
            at = i;
            found = true;
        } else {
            i = i + 1;
        }
    }
    proof {
        if found {
            let k = choose|k: int| first_at(columns, es@.sort, k);
            assert(first_at(columns, es@.sort, k));
            if k < at {
                assert(columns[k] != es@.sort);
            } else if at < k {
                assert(columns[at as int] != es@.sort);
            }
        } else {
            assert forall|k: int| !first_at(columns, es@.sort, k) by {
                if 0 <= k < n {
                    assert(columns[k] != es@.sort);
                }
            }
        }
        assert(at == column_place(columns, es@.sort));
    }
    let wide: i128 = delta as i128;
    let span: u128 = n as u128;
    // A step back is as many steps forward as complete the round.
    let steps: u128 = if wide >= 0 {
        wide as u128 % span
    } else {
        let back: u128 = (-wide) as u128 % span;
        if back == 0 {
            0
        } else {
            span - back
        }
    };
    let next: u128 = (at as u128 + steps) % span;
    proof {
        let d = delta as int;
        let m = n as int;
        if d >= 0 {
            vstd::arithmetic::div_mod::lemma_add_mod_noop(at as int, d, m);
            vstd::arithmetic::div_mod::lemma_small_mod(at as nat, m as nat);
        } else {
            let back = (-d) % m;
            vstd::arithmetic::div_mod::lemma_fundamental_div_mod(-d, m);
            let q = (-d) / m;
            assert(-d == m * q + back);
            assert(at + d == (at + steps) + m * (-q - (if back == 0 { 0int } else { 1int })))
                by (nonlinear_arith)
                requires
                    -d == m * q + back,
                    steps == if back == 0 {
                        0
                    } else {
                        m - back
                    },
            ;
            vstd::arithmetic::div_mod::lemma_mod_multiples_vanish(
                -q - (if back == 0 { 0int } else { 1int }),
                at + steps,
                m,
            );
        }
        assert(next as int == (at + d) % m);
    }
    es.sort = all[next as usize].duplicate();
    es.direction = es.sort.default_direction();
}

/// Sorts by the column to the left.
pub fn cycle_sort_left(es: &mut ExploreState, fields: &Vec<String>)
    ensures
        final(es)@ == cycled(old(es)@, fields.model(), -1),
{
    cycle_sort(es, fields, -1);
}

/// Sorts by the column to the right.
pub fn cycle_sort_right(es: &mut ExploreState, fields: &Vec<String>)
    ensures
        final(es)@ == cycled(old(es)@, fields.model(), 1),
{
    cycle_sort(es, fields, 1);
}

/// The root of the trace to which a span belongs, at most `steps - 1`
/// parents up.
pub open spec fn root_of(ring: Seq<EntryModel>, id: u64, steps: nat) -> Option<u64>
    decreases steps,
{
    if steps == 0 || !has_id(ring, id) {
        None
    } else {
        match ring[index_of_id(ring, id)].span.parent_id {
            None => Some(id),
            Some(p) => root_of(ring, p, (steps - 1) as nat),
        }
    }
}

/// How many spans a search for the root looks at.
pub const ROOT_STEPS: u64 = 256;

/// The root of the trace to which a span belongs.
pub(crate) fn find_root_in(agg: &Aggregator, span_id: u64) -> (r: Option<u64>)
    requires
        agg.wf(),
    ensures
        r == root_of(agg@.ring, span_id, ROOT_STEPS as nat),
{
    let mut cur: u64 = span_id;
    let mut left: u64 = ROOT_STEPS;
    while left > 0
        invariant
            agg.wf(),
            root_of(agg@.ring, cur, left as nat) == root_of(
                agg@.ring,
                span_id,
                ROOT_STEPS as nat,
            ),
        decreases left,
    {
        match agg.span_by_id(cur) {
            None => return None,
            Some(span) => match span.parent_id {
                None => return Some(cur),
                Some(p) => {
                    cur = p;
                },
            },
        }
        left = left - 1;
    }
    None
}

/// The state of the trace view.
pub struct TraceDetailState {
    pub root_id: u64,
    /// Cursor over the visible rows.
    pub selected_idx: usize,
    /// Spans whose rows below are folded away.
    pub collapsed: SortedSet<u64>,
    /// The explore view to go back to.
    pub explore: ExploreState,
}

pub ghost struct TraceModel {
    pub root_id: u64,
    pub selected_idx: usize,
    pub collapsed: Set<u64>,
    pub explore: ExploreModel,
}

impl View for TraceDetailState {
    type V = TraceModel;

    open spec fn view(&self) -> TraceModel {
        TraceModel {
            root_id: self.root_id,
            selected_idx: self.selected_idx,
            collapsed: self.collapsed@,
            explore: self.explore@,
        }
    }
}

/// A row of the trace tree.
#[derive(Debug, Clone, Copy, PartialEq, Eq, Structural)]
pub enum TraceRow {
    Span { id: u64, depth: usize, has_children: bool, expanded: bool },
    Event { parent_id: u64, idx: usize, depth: usize },
}

/// What stands below a span of the trace tree.
pub ghost enum TraceItem {
    /// An event, by its number.
    Event(int),
    /// A child, by its position in the window.
    Child(int),
}

/// When an item below the span at position `p` happened.
pub open spec fn item_time(ring: Seq<EntryModel>, p: int, item: TraceItem) -> u64 {
    match item {
        TraceItem::Event(i) => ring[p].span.events[i].recorded_at_ns,
        TraceItem::Child(q) => ring[q].span.opened_at_ns,
    }
}

/// The order of the items below a span: by time, then events before
/// children, then by number or age.
pub open spec fn item_less(ring: Seq<EntryModel>, p: int) -> spec_fn(TraceItem, TraceItem) -> bool {
    |a: TraceItem, b: TraceItem|
        {
            let x = item_time(ring, p, a);
            let y = item_time(ring, p, b);
            x < y || (x == y && match (a, b) {
                (TraceItem::Event(i), TraceItem::Event(j)) => i < j,
                (TraceItem::Event(_), TraceItem::Child(_)) => true,
                (TraceItem::Child(_), TraceItem::Event(_)) => false,
                (TraceItem::Child(i), TraceItem::Child(j)) => i < j,
            })
        }
}

/// The item stands below the span at position `p`.
pub open spec fn is_item(ring: Seq<EntryModel>, p: int, item: TraceItem) -> bool {
    match item {
        TraceItem::Event(i) => 0 <= i < ring[p].span.events.len(),
        TraceItem::Child(q) => 0 <= q < ring.len() && ring[q].span.parent_id == Some(
            ring[p].span.id,
        ),
    }
}

/// The items below the span at position `p`, in order.
pub open spec fn items_below(ring: Seq<EntryModel>, p: int) -> Seq<TraceItem> {
    listing(item_less(ring, p), Set::new(|item: TraceItem| is_item(ring, p, item)))
}

/// The rows of the tree below and with the span at position `p`. `left`
/// bounds how much deeper the tree may be.
pub open spec fn tree_rows(
    ring: Seq<EntryModel>,
    p: int,
    depth: nat,
    left: nat,
    collapsed: Set<u64>,
) -> Seq<TraceRow>
    decreases left, 1nat, 0nat,
{
    let id = ring[p].span.id;
    let items = items_below(ring, p);
    let head = TraceRow::Span {
        id,
        depth: depth as usize,
        has_children: items.len() > 0,
        expanded: !collapsed.contains(id),
    };
    if collapsed.contains(id) {
        seq![head]
    } else {
        seq![head] + item_rows(ring, p, items, items.len(), depth, left, collapsed)
    }
}

/// The rows of the first `n` items below the span at position `p`.
pub open spec fn item_rows(
    ring: Seq<EntryModel>,
    p: int,
    items: Seq<TraceItem>,
    n: nat,
    depth: nat,
    left: nat,
    collapsed: Set<u64>,
) -> Seq<TraceRow>
    decreases left, 0nat, n,
{
    if n == 0 {
        Seq::empty()
    } else {
        let before = item_rows(ring, p, items, (n - 1) as nat, depth, left, collapsed);
        match items[n - 1] {
            TraceItem::Event(i) => before.push(
                TraceRow::Event {
                    parent_id: ring[p].span.id,
                    idx: i as usize,
                    depth: (depth + 1) as usize,
                },
            ),
            TraceItem::Child(q) => if left > 0 {
                before + tree_rows(ring, q, depth + 1, (left - 1) as nat, collapsed)
            } else {
                before
            },
        }
    }
}

/// The visible rows of a trace: the tree below its root, or nothing when the
/// root has left the window. A window of `n` spans holds no chain of more
/// than `n`, so the tree is followed no deeper.
pub open spec fn trace_rows(ring: Seq<EntryModel>, td: TraceModel) -> Seq<TraceRow> {
    if has_id(ring, td.root_id) {
        tree_rows(
            ring,
            index_of_id(ring, td.root_id),
            0,
            (ring.len() - 1) as nat,
            td.collapsed,
        )
    } else {
        Seq::empty()
    }
}

/// The order of the items below a span is strict and total.
pub proof fn item_order_is_strict(ring: Seq<EntryModel>, p: int)
    ensures
        strict_order(item_less(ring, p)),
{
}

/// An item below a span, with its time.
#[derive(Clone, Copy)]
struct Item {
    is_child: bool,
    index: usize,
    time: u64,
}

spec fn item_model(item: Item) -> TraceItem {
    if item.is_child {
        TraceItem::Child(item.index as int)
    } else {
        TraceItem::Event(item.index as int)
    }
}

/// The spans of the window, where `spans` lists them.
spec fn lists_ring(spans: Seq<(&WireSpan, &Vec<String>)>, ring: Seq<EntryModel>) -> bool {
    &&& spans.len() == ring.len()
    &&& forall|k: int| 0 <= k < spans.len() ==> (#[trigger] spans[k]).0@ == ring[k].span
}

/// Under every parent, `by_parent` lists the positions of its children.
spec fn lists_children(by_parent: Map<u64, Vec<usize>>, ring: Seq<EntryModel>, n: int) -> bool {
    &&& forall|id: u64|
        by_parent.dom().contains(id) ==> (#[trigger] by_parent[id])@.no_duplicates()
    &&& forall|id: u64, q: usize|
        by_parent.dom().contains(id) ==> (#[trigger] by_parent[id]@.contains(q) <==> q < n
            && ring[q as int].span.parent_id == Some(id))
    &&& forall|q: int|
        0 <= q < n ==> match (#[trigger] ring[q]).span.parent_id {
            Some(id) => by_parent.dom().contains(id),
            None => true,
        }
}

/// The children of every parent.
fn children_by_parent(spans: &Vec<(&WireSpan, &Vec<String>)>, Ghost(ring): Ghost<
    Seq<EntryModel>,
>) -> (r: SortedMap<u64, Vec<usize>>)
    requires
        lists_ring(spans@, ring),
    ensures
        r.wf(),
        lists_children(r@, ring, ring.len() as int),
{
    let mut out: SortedMap<u64, Vec<usize>> = SortedMap::new();
    let mut i: usize = 0;
    while i < spans.len()
        invariant
            lists_ring(spans@, ring),
            i <= spans@.len(),
            out.wf(),
            lists_children(out@, ring, i as int),
        decreases spans@.len() - i,
    {
        let ghost before = out@;
        assert(ring[i as int].span == spans@[i as int].0@);
        if let Some(p) = spans[i].0.parent_id {
            let mut kids: Vec<usize> = match out.remove(&p) {
                Some(kids) => kids,
                None => Vec::new(),
            };
            let ghost had = kids@;
            proof {
                if !before.dom().contains(p) {
                    assert(had =~= Seq::empty());
                    assert forall|q: int| 0 <= q < i implies (#[trigger] ring[q]).span.parent_id
                        != Some(p) by {
                    }
                } else {
                    assert forall|q: usize| #[trigger] had.contains(q) <==> q < i
                        && ring[q as int].span.parent_id == Some(p) by {
                        assert(before[p]@.contains(q) <==> q < i
                            && ring[q as int].span.parent_id == Some(p));
                    }
                }
                assert(!had.contains(i));
            }
            kids.push(i);
            proof {
                assert(kids@ =~= had.push(i));
                assert forall|q: usize| #[trigger] kids@.contains(q) <==> q < i + 1
                    && ring[q as int].span.parent_id == Some(p) by {
                    if kids@.contains(q) {
                        let k = choose|k: int| 0 <= k < kids@.len() && kids@[k] == q;
                        if k < had.len() {
                            assert(had[k] == q);
                            assert(had.contains(q));
                        }
                    }
                    if q < i && ring[q as int].span.parent_id == Some(p) {
                        assert(had.contains(q));
                        let k = choose|k: int| 0 <= k < had.len() && had[k] == q;
                        assert(kids@[k] == q);
                    }
                    if q == i {
                        assert(kids@[had.len() as int] == q);
                    }
                }
                assert(kids@.no_duplicates()) by {
                    assert forall|a: int, b: int|
                        0 <= a < kids@.len() && 0 <= b < kids@.len() && a != b implies kids@[a]
                        != kids@[b] by {
                        if a < had.len() {
                            assert(had.contains(had[a]));
                        }
                        if b < had.len() {
                            assert(had.contains(had[b]));
                        }
                    }
                }
            }
            out.insert(p, kids);
        }
        i = i + 1;
        proof {
            assert forall|id: u64, q: usize|
                out@.dom().contains(id) implies (#[trigger] out@[id]@.contains(q) <==> q < i
                && ring[q as int].span.parent_id == Some(id)) by {
                if before.dom().contains(id) {
                    assert(before[id]@.contains(q) <==> q < i - 1
                        && ring[q as int].span.parent_id == Some(id));
                }
            }
            assert forall|q: int| 0 <= q < i implies match (#[trigger] ring[q]).span.parent_id {
                Some(id) => out@.dom().contains(id),
                None => true,
            } by {
                if q < i - 1 {
                    if let Some(id) = ring[q].span.parent_id {
                        assert(before.dom().contains(id));
                    }
                }
            }
        }
    }
    out
}

/// The items below a span, in order.
fn items_of(
    spans: &Vec<(&WireSpan, &Vec<String>)>,
    p: usize,
    by_parent: &SortedMap<u64, Vec<usize>>,
    Ghost(ring): Ghost<Seq<EntryModel>>,
) -> (r: Vec<Item>)
    requires
        lists_ring(spans@, ring),
        by_parent.wf(),
        lists_children(by_parent@, ring, ring.len() as int),
        p < ring.len(),
    ensures
        r@.map_values(|x: Item| item_model(x)) == items_below(ring, p as int),
        forall|i: int|
            0 <= i < r@.len() ==> is_item(ring, p as int, item_model(#[trigger] r@[i])),
{
    let span = spans[p].0;
    let n_spans: usize = spans.len();
    assert(span@ == ring[p as int].span);
    let mut items: Vec<Item> = Vec::new();
    let mut i: usize = 0;
    while i < span.events.len()
        invariant
            span@ == ring[p as int].span,
            i <= span.events@.len(),
            items@.len() == i,
            forall|j: int|
                0 <= j < i ==> (#[trigger] items@[j]) == (Item {
                    is_child: false,
                    index: j as usize,
                    time: span@.events[j].recorded_at_ns,
                }),
        decreases span.events@.len() - i,
    {
        assert(span@.events[i as int] == span.events@[i as int]@);
        items.push(Item { is_child: false, index: i, time: span.events[i].recorded_at_ns });
        i = i + 1;
    }
    let ghost n_events = items@.len() as int;
    let ghost mut children: Seq<usize> = Seq::empty();
    match by_parent.get(&span.id) {
        Some(list) => {
            proof {
                children = list@;
            }
            let mut c: usize = 0;
            while c < list.len()
                invariant
                    lists_ring(spans@, ring),
                    span@ == ring[p as int].span,
                    children == list@,
                    forall|q: usize| #[trigger]
                        children.contains(q) ==> q < ring.len(),
                    c <= list@.len(),
                    items@.len() == n_events + c,
                    n_events == span@.events.len(),
                    forall|j: int|
                        0 <= j < n_events ==> (#[trigger] items@[j]) == (Item {
                            is_child: false,
                            index: j as usize,
                            time: span@.events[j].recorded_at_ns,
                        }),
                    forall|j: int|
                        n_events <= j < n_events + c ==> (#[trigger] items@[j]) == (Item {
                            is_child: true,
                            index: children[j - n_events],
                            time: ring[children[j - n_events] as int].span.opened_at_ns,
                        }),
                decreases list@.len() - c,
            {
                let q: usize = list[c];
                assert(children.contains(q));
                assert(spans@[q as int].0@ == ring[q as int].span);
                items.push(Item { is_child: true, index: q, time: spans[q].0.opened_at_ns });
                c = c + 1;
            }
        },
        None => {
            assert forall|q: int| 0 <= q < ring.len() implies (#[trigger] ring[q]).span.parent_id
                != Some(span.id) by {
            }
        },
    }
    assert forall|q: usize| #[trigger] children.contains(q) <==> q < ring.len()
        && ring[q as int].span.parent_id == Some(ring[p as int].span.id) by {
        if by_parent@.dom().contains(span.id) {
            assert(by_parent@[span.id]@.contains(q) <==> q < ring.len()
                && ring[q as int].span.parent_id == Some(span.id));
        }
    }
    let ghost models = items@.map_values(|x: Item| item_model(x));
    let ghost wide = item_less(ring, p as int);
    let ghost below = Set::new(|item: TraceItem| is_item(ring, p as int, item));
    let mut numbers: Vec<usize> = Vec::new();
    let mut k: usize = 0;
    while k < items.len()
        invariant
            k <= items@.len(),
            numbers@.len() == k,
            forall|j: int| 0 <= j < k ==> (#[trigger] numbers@[j]) == j,
        decreases items@.len() - k,
    {
        numbers.push(k);
        k = k + 1;
    }
    // Positions beyond the list are told apart by their number alone.
    let ghost lt = |a: usize, b: usize|
        if a < models.len() && b < models.len() {
            wide(models[a as int], models[b as int])
        } else {
            a < b
        };
    proof {
        item_order_is_strict(ring, p as int);
        assert forall|j: int| 0 <= j < items@.len() implies (#[trigger] items@[j]).time
            == item_time(ring, p as int, models[j]) && is_item(ring, p as int, models[j]) by {
            if j >= n_events {
                assert(children.contains(children[j - n_events]));
            }
        }
        assert forall|a: int, b: int|
            0 <= a < b < models.len() implies (#[trigger] models[a]) != (#[trigger] models[b]) by {
            if a >= n_events {
                assert(children[a - n_events] != children[b - n_events]);
            }
        }
        assert forall|a: usize| !#[trigger] lt(a, a) by {
            if a < models.len() {
                assert(!wide(models[a as int], models[a as int]));
            }
        }
        assert forall|a: usize, b: usize, c: usize| #[trigger]
            lt(a, b) && #[trigger] lt(b, c) implies lt(a, c) by {
            if a < models.len() && b < models.len() && c < models.len() {
                assert(wide(models[a as int], models[b as int]) && wide(
                    models[b as int],
                    models[c as int],
                ));
            }
        }
        assert forall|a: usize, b: usize| a == b || #[trigger] lt(a, b) || lt(b, a) by {
            if a < models.len() && b < models.len() && a != b {
                let x = models[a as int];
                let y = models[b as int];
                if a < b {
                    assert(x != y);
                } else {
                    assert(y != x);
                }
                assert(wide(x, y) || wide(y, x));
            }
        }
        assert(strict_order(lt));
    }
    let before = |a: usize, b: usize| -> (r: bool)
        requires
            a < items@.len(),
            b < items@.len(),
        ensures
            r == (items@[a as int].time < items@[b as int].time || (items@[a as int].time
                == items@[b as int].time && match (
                item_model(items@[a as int]),
                item_model(items@[b as int]),
            ) {
                (TraceItem::Event(i), TraceItem::Event(j)) => i < j,
                (TraceItem::Event(_), TraceItem::Child(_)) => true,
                (TraceItem::Child(_), TraceItem::Event(_)) => false,
                (TraceItem::Child(i), TraceItem::Child(j)) => i < j,
            })),
        {
            let x = items[a];
            let y = items[b];
            if x.time != y.time {
                x.time < y.time
            } else if x.is_child == y.is_child {
                x.index < y.index
            } else {
                !x.is_child
            }
        };
    proof {
        assert forall|a: usize, b: usize, r: bool|
            numbers@.contains(a) && numbers@.contains(b) && #[trigger] before.ensures(
                (a, b),
                r,
            ) implies r == lt(a, b) by {
            assert(items@[a as int].time == item_time(ring, p as int, models[a as int]));
            assert(items@[b as int].time == item_time(ring, p as int, models[b as int]));
        }
    }
    let order = arrange(&numbers, before, Ghost(lt));
    let mut out: Vec<Item> = Vec::new();
    let mut o: usize = 0;
    proof {
        assert forall|j: int| 0 <= j < order@.len() implies (#[trigger] order@[j])
            < items@.len() by {
            assert(order@.to_set().contains(order@[j]));
            assert(numbers@.contains(order@[j]));
        }
    }
    while o < order.len()
        invariant
            o <= order@.len(),
            forall|j: int| 0 <= j < order@.len() ==> (#[trigger] order@[j]) < items@.len(),
            out@.len() == o,
            forall|j: int| 0 <= j < o ==> (#[trigger] out@[j]) == items@[order@[j] as int],
        decreases order@.len() - o,
    {
        out.push(items[order[o]]);
        o = o + 1;
    }
    proof {
        let got = out@.map_values(|x: Item| item_model(x));
        assert forall|a: int, b: int| 0 <= a < b < got.len() implies wide(
            #[trigger] got[a],
            #[trigger] got[b],
        ) by {
            assert(lt(order@[a], order@[b]));
            assert(got[a] == models[order@[a] as int]);
            assert(got[b] == models[order@[b] as int]);
        }
        assert(got.to_set() =~= below) by {
            assert forall|x: TraceItem| got.contains(x) == below.contains(x) by {
                if got.contains(x) {
                    let j = choose|j: int| 0 <= j < got.len() && got[j] == x;
                    assert(items@[order@[j] as int].time == item_time(
                        ring,
                        p as int,
                        models[order@[j] as int],
                    ));
                }
                if below.contains(x) {
                    let at: int = match x {
                        TraceItem::Event(i) => i,
                        TraceItem::Child(q) => {
                            assert(0 <= q < n_spans);
                            assert(children.contains(q as usize));
                            n_events + choose|c: int|
                                0 <= c < children.len() && children[c] == q as usize
                        },
                    };
                    assert(models[at] == x);
                    assert(numbers@[at] == at);
                    assert(numbers@.contains(at as usize));
                    assert(numbers@.to_set().contains(at as usize));
                    assert(order@.to_set().contains(at as usize));
                    let j = choose|j: int| 0 <= j < order@.len() && order@[j] == at as usize;
                    assert(got[j] == x);
                }
            }
        }
        ascending_is_listing(wide, got);
        assert forall|i: int| 0 <= i < out@.len() implies is_item(
            ring,
            p as int,
            item_model(#[trigger] out@[i]),
        ) by {
            assert(got.contains(got[i]));
            assert(got.to_set().contains(got[i]));
            assert(below.contains(got[i]));
        }
    }
    out
}

/// Adds the rows of the tree below and with a span.
fn walk_trace(
    out: &mut Vec<TraceRow>,
    spans: &Vec<(&WireSpan, &Vec<String>)>,
    p: usize,
    depth: usize,
    left: usize,
    by_parent: &SortedMap<u64, Vec<usize>>,
    collapsed: &SortedSet<u64>,
    Ghost(ring): Ghost<Seq<EntryModel>>,
)
    requires
        lists_ring(spans@, ring),
        by_parent.wf(),
        lists_children(by_parent@, ring, ring.len() as int),
        collapsed.wf(),
        p < ring.len(),
        depth + left < ring.len(),
    ensures
        final(out)@ == old(out)@ + tree_rows(
            ring,
            p as int,
            depth as nat,
            left as nat,
            collapsed@,
        ),
    decreases left,
{
    let ghost start = out@;
    let n_spans: usize = spans.len();
    let items = items_of(spans, p, by_parent, Ghost(ring));
    let ghost models = items_below(ring, p as int);
    let id: u64 = spans[p].0.id;
    assert(id == ring[p as int].span.id);
    let folded_away: bool = collapsed.contains(&id);
    let ghost head = TraceRow::Span {
        id,
        depth,
        has_children: models.len() > 0,
        expanded: !folded_away,
    };
    out.push(
        TraceRow::Span { id, depth, has_children: items.len() > 0, expanded: !folded_away },
    );
    assert(items@.len() == models.len());
    if folded_away {
        assert(out@ =~= start + seq![head]);
        return ;
    }
    let ghost base = out@;
    let mut i: usize = 0;
    proof {
        assert(base =~= start + seq![head]);
        assert(base =~= base + item_rows(
            ring,
            p as int,
            models,
            0,
            depth as nat,
            left as nat,
            collapsed@,
        ));
    }
    while i < items.len()
        invariant
            lists_ring(spans@, ring),
            by_parent.wf(),
            lists_children(by_parent@, ring, ring.len() as int),
            collapsed.wf(),
            p < ring.len(),
            id == ring[p as int].span.id,
            depth + left < ring.len(),
            n_spans == ring.len(),
            models == items_below(ring, p as int),
            items@.map_values(|x: Item| item_model(x)) == models,
            forall|k: int|
                0 <= k < items@.len() ==> is_item(ring, p as int, item_model(#[trigger] items@[k])),
            i <= items@.len(),
            out@ == base + item_rows(
                ring,
                p as int,
                models,
                i as nat,
                depth as nat,
                left as nat,
                collapsed@,
            ),
        decreases items@.len() - i,
    {
        let item = items[i];
        proof {
            assert(models[i as int] == item_model(items@[i as int]));
        }
        if item.is_child {
            if left > 0 {
                walk_trace(
                    out,
                    spans,
                    item.index,
                    depth + 1,
                    left - 1,
                    by_parent,
                    collapsed,
                    Ghost(ring),
                );
                proof {
                    let more = tree_rows(
                        ring,
                        item.index as int,
                        depth as nat + 1,
                        (left - 1) as nat,
                        collapsed@,
                    );
                    let rows = item_rows(
                        ring,
                        p as int,
                        models,
                        i as nat,
                        depth as nat,
                        left as nat,
                        collapsed@,
                    );
                    assert((base + rows) + more =~= base + (rows + more));
                }
            }
        } else {
            let row = TraceRow::Event { parent_id: id, idx: item.index, depth: depth + 1 };
            out.push(row);
            proof {
                let rows = item_rows(
                    ring,
                    p as int,
                    models,
                    i as nat,
                    depth as nat,
                    left as nat,
                    collapsed@,
                );
                assert((base + rows).push(row) =~= base + rows.push(row));
            }
        }
        i = i + 1;
    }
    proof {
        let rows = item_rows(
            ring,
            p as int,
            models,
            models.len(),
            depth as nat,
            left as nat,
            collapsed@,
        );
        assert((start + seq![head]) + rows =~= start + (seq![head] + rows));
    }
}

/// The visible rows of a trace.
pub(crate) fn trace_rows_in(agg: &Aggregator, td: &TraceDetailState) -> (r: Vec<TraceRow>)
    requires
        agg.wf(),
        td.collapsed.wf(),
    ensures
        r@ == trace_rows(agg@.ring, td@),
{
    let ghost ring = agg@.ring;
    let spans = agg.iter_with_stack();
    let mut out: Vec<TraceRow> = Vec::new();
    let mut left: usize = spans.len();
    while left > 0
        invariant
            ring == agg@.ring,
            lists_ring(spans@, ring),
            left <= spans@.len(),
            forall|k: int|
                left <= k < spans@.len() ==> (#[trigger] ring[k]).span.id != td.root_id,
            out@ == Seq::<TraceRow>::empty(),
            td.collapsed.wf(),
        decreases left,
    {
        let p: usize = left - 1;
        assert(spans@[p as int].0@ == ring[p as int].span);
        if spans[p].0.id == td.root_id {
            proof {
                newest_is_only(ring, td.root_id, p as int);
            }
            let by_parent = children_by_parent(&spans, Ghost(ring));
            walk_trace(
                &mut out,
                &spans,
                p,
                0,
                spans.len() - 1,
                &by_parent,
                &td.collapsed,
                Ghost(ring),
            );
            assert(out@ =~= trace_rows(ring, td@));
            return out;
        }
        left = p;
    }
    assert(!has_id(ring, td.root_id));
    out
}

/// The spans of the console's window with the given stack, oldest first.
pub fn locked_stack_spans<'a>(model: &'a Model, stack: &Vec<String>) -> (r: Vec<&'a WireSpan>)
    requires
        model.wf(),
    ensures
        r@.map_values(|s: &WireSpan| s@) == stack_spans(model@.agg.ring, stack.model()),
{
    spans_of_stack(&model.agg, stack)
}

/// The spans that an explore view lists, in its order.
pub fn matching_spans<'a>(model: &'a Model, es: &ExploreState) -> (r: Vec<&'a WireSpan>)
    requires
        model.wf(),
    ensures
        r@.map_values(|s: &WireSpan| s@) == matching(model@.agg.ring, es@).map_values(
            |i: int| model@.agg.ring[i].span,
        ),
        forall|i: int, j: int|
            0 <= i < j < r@.len() ==> may_stand_before(
                (#[trigger] r@[i])@,
                (#[trigger] r@[j])@,
                es.sort@,
                es.direction,
            ),
{
    let r = matching_in(&model.agg, es);
    assert forall|i: int, j: int| 0 <= i < j < r@.len() implies may_stand_before(
        (#[trigger] r@[i])@,
        (#[trigger] r@[j])@,
        es.sort@,
        es.direction,
    ) by {
        spans_are_listed_in_order(model@.agg.ring, es@, i, j);
    }
    assert(r@.map_values(|s: &WireSpan| s@) =~= matching(model@.agg.ring, es@).map_values(
        |i: int| model@.agg.ring[i].span,
    ));
    r
}

/// The rows that a trace view shows.
pub fn visible_trace_rows(model: &Model, td: &TraceDetailState) -> (r: Vec<TraceRow>)
    requires
        model.wf(),
        td.collapsed.wf(),
    ensures
        r@ == trace_rows(model@.agg.ring, td@),
{
    trace_rows_in(&model.agg, td)
}

/// The root of the trace to which a span belongs.
pub fn find_root_id(model: &Model, span_id: u64) -> (r: Option<u64>)
    requires
        model.wf(),
    ensures
        r == root_of(model@.agg.ring, span_id, ROOT_STEPS as nat),
{
    find_root_in(&model.agg, span_id)
}

} // verus!
