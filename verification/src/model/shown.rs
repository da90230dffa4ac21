//! What the table and the graph show, and what messages change.

use vstd::prelude::*;

use crate::aggregate::placing::{first_says, says_nothing};
use crate::aggregate::ring::{
    as_pairs, child_sum_of, has_id, index_of_id, lookup, nearest_splits, newest_is_only,
    rebucketed_keeps_spans, rows_of, EntryModel,
};
use crate::aggregate::rows::time_open;
use crate::aggregate::types::{KeyModel, StackStats};
use crate::model::console::{
    begins, collapsed, console_after, drawn_ids, effect_of, folded_below, opened_below, row_below,
    row_shown, shown_upto, ConnectionModel, ConsoleModel, Focus, RowModel, StatusModel, ViewModel,
};
use crate::model::graph::{
    column_left, column_right, drawn, drawn_upto, fresh_graph, ordered_series, rehydrated,
    series_less, series_order_is_strict, split_value, table_columns, ColumnModel, GraphModel,
};
use crate::model::input::{agg_typed, backspaced, decimal_typed, lookback_typed, search_typed};
use crate::model::series::{
    store_recorded, summary_of, window_ns_of, wiped, AggMode, SeriesKey, StoreModel,
};
use crate::model::steps::{
    cursor_down, cursor_up, graph_after, graph_series, split_toggled, toggled,
};
use crate::model::update::{EffectModel, Update};
use crate::order::{key_order, key_order_is_strict, text_less, Key};
use crate::protocol::{first_named, SpanModel, Text};
use crate::sorted::{finite_sets_are_listed, listing};

verus! {

/// All stacks that begin a stack are open.
pub open spec fn open_above(expanded: Set<Seq<Text>>, stack: Seq<Text>) -> bool {
    forall|d: int| 0 < d < stack.len() ==> expanded.contains(#[trigger] stack.take(d))
}

/// The table shows the rows of the window in their order, each as it is and
/// set in by its depth. A row is shown if, and only if, every row above it is
/// open; it can be opened if a later row lies below it. Returns which rows
/// are shown.
pub proof fn rows_are_shown_below_open_ones(
    rows: Seq<(KeyModel, StackStats)>,
    expanded: Set<Seq<Text>>,
    n: int,
) -> (at: Seq<int>)
    requires
        0 <= n <= rows.len(),
    ensures
        ({
            let shown = shown_upto(rows, expanded, n);
            &&& at.len() == shown.len()
            &&& forall|k: int, l: int|
                0 <= k < l < at.len() ==> #[trigger] at[k] < #[trigger] at[l]
            &&& forall|k: int|
                0 <= k < at.len() ==> {
                    let row = rows[#[trigger] at[k]];
                    let stack = row.0.stack;
                    &&& 0 <= at[k] < n
                    &&& shown[k].key == row.0
                    &&& shown[k].stats == row.1
                    &&& stack.len() > 0 ==> shown[k].depth == stack.len() - 1
                    &&& shown[k].is_expanded <==> expanded.contains(stack)
                    &&& shown[k].has_children <==> exists|j: int|
                        at[k] < j < rows.len() && (#[trigger] rows[j]).0.stack.len() > stack.len()
                            && rows[j].0.stack.take(stack.len() as int) == stack
                    &&& open_above(expanded, stack)
                }
            &&& forall|i: int|
                0 <= i < n && open_above(expanded, (#[trigger] rows[i]).0.stack) ==> at.contains(i)
        }),
    decreases n,
{
    if n == 0 {
        Seq::empty()
    } else {
        let before = rows_are_shown_below_open_ones(rows, expanded, n - 1);
        let old = shown_upto(rows, expanded, n - 1);
        assert(row_shown(expanded, rows[n - 1].0.stack) == open_above(
            expanded,
            rows[n - 1].0.stack,
        ));
        if row_shown(expanded, rows[n - 1].0.stack) {
            let at = before.push(n - 1);
            let stack = rows[n - 1].0.stack;
            assert(row_below(rows, n - 1) <==> exists|j: int|
                n - 1 < j < rows.len() && (#[trigger] rows[j]).0.stack.len() > stack.len()
                    && rows[j].0.stack.take(stack.len() as int) == stack);
            assert forall|k: int| 0 <= k < before.len() implies #[trigger] shown_upto(
                rows,
                expanded,
                n,
            )[k] == old[k] by {
            }
            assert forall|i: int|
                0 <= i < n && open_above(
                    expanded,
                    (#[trigger] rows[i]).0.stack,
                ) implies at.contains(i) by {
                if i < n - 1 {
                    let k = choose|k: int| 0 <= k < before.len() && before[k] == i;
                    assert(at[k] == i);
                } else {
                    assert(at[before.len() as int] == i);
                }
            }
            at
        } else {
            before
        }
    }
}

/// Every shown row has only open rows above it.
proof fn shown_is_open(m: ConsoleModel, k: int) -> (i: int)
    requires
        0 <= k < m.rows().len(),
    ensures
        0 <= i < rows_of(m.agg.ring).len(),
        m.rows()[k].key == rows_of(m.agg.ring)[i].0,
        row_shown(m.expanded, m.rows()[k].key.stack),
{
    let rows = rows_of(m.agg.ring);
    let at = rows_are_shown_below_open_ones(rows, m.expanded, rows.len() as int);
    let i = at[k];
    assert(0 <= i < rows.len());
    i
}

/// Opening the row under the cursor shows the rows directly below it, and
/// opening all of it shows every row below it. Nothing else is opened, and
/// nothing is folded.
pub proof fn opening_a_row_shows_what_is_below(m: ConsoleModel, now: u64, j: int)
    requires
        m.focus == Focus::Stacks,
        m.selected < m.rows().len(),
        0 <= j < rows_of(m.agg.ring).len(),
        rows_of(m.agg.ring)[j].0.stack.len() > m.rows()[m.selected as int].key.stack.len(),
        begins(m.rows()[m.selected as int].key.stack, rows_of(m.agg.ring)[j].0.stack),
        m.rows()[m.selected as int].key.stack.len() > 0,
    ensures
        ({
            let open = m.rows()[m.selected as int].key.stack;
            let below = rows_of(m.agg.ring)[j].0.stack;
            let one = console_after(m, Update::ExpandSelected, now);
            let all = console_after(m, Update::ExpandAllSelected, now);
            &&& m.rows()[m.selected as int].has_children && below.len() == open.len() + 1
                ==> row_shown(one.expanded, below)
            &&& row_shown(all.expanded, below)
            &&& forall|s: Seq<Text>|
                m.expanded.contains(s) ==> #[trigger] one.expanded.contains(s)
            &&& forall|s: Seq<Text>|
                m.expanded.contains(s) ==> #[trigger] all.expanded.contains(s)
            &&& forall|s: Seq<Text>| #[trigger]
                one.expanded.contains(s) ==> m.expanded.contains(s) || s == open
            &&& forall|s: Seq<Text>| #[trigger]
                all.expanded.contains(s) ==> m.expanded.contains(s) || begins(open, s)
        }),
{
    let i = shown_is_open(m, m.selected as int);
    let open = m.rows()[m.selected as int].key.stack;
    let below = rows_of(m.agg.ring)[j].0.stack;
    let one = console_after(m, Update::ExpandSelected, now);
    let all = console_after(m, Update::ExpandAllSelected, now);
    assert forall|d: int| 1 <= d < below.len() implies {
        &&& all.expanded.contains(#[trigger] below.take(d))
        &&& m.rows()[m.selected as int].has_children && below.len() == open.len() + 1
            ==> one.expanded.contains(below.take(d))
    } by {
        if d < open.len() {
            assert(below.take(d) =~= below.take(open.len() as int).take(d));
            assert(m.expanded.contains(open.take(d)));
        } else {
            let s = below.take(d);
            assert(s.take(open.len() as int) =~= below.take(open.len() as int));
            assert(begins(open, s));
            assert(below.take(s.len() as int) =~= s);
            assert(begins(s, below));
            assert(begins(open, rows_of(m.agg.ring)[j].0.stack));
            assert(opened_below(rows_of(m.agg.ring), open).contains(s));
            if below.len() == open.len() + 1 {
                assert(s =~= open);
            }
        }
    }
}

/// A message changes what it tells of, and nothing else: only an answer about
/// the connection changes how the connection is shown, only a status or a new
/// connection the status line, and only keys for the table its cursor, its
/// focus and its open rows.
pub proof fn messages_change_what_they_tell(m: ConsoleModel, u: Update, now: u64)
    ensures
        ({
            let after = console_after(m, u, now);
            &&& u is Connected ==> after.connection is Connected && after.status is None
            &&& u matches Update::Disconnected(why) ==> after.connection
                == ConnectionModel::Disconnected(why@)
            &&& u matches Update::Status(s) ==> after.status == Some(s@)
            &&& after.connection != m.connection ==> u is Connected || u is Disconnected
            &&& after.status != m.status ==> u is Connected || u is Status
            &&& after.history_budget == m.history_budget
            &&& after.selected != m.selected ==> u is SelectUp || u is SelectDown
                || u is CollapseSelected || u is ToggleSplitSelected
            &&& after.details_selected != m.details_selected ==> u is SelectUp || u is SelectDown
                || u is SwitchFocus
            &&& after.focus != m.focus ==> u is SwitchFocus
            &&& after.expanded != m.expanded ==> u is ExpandSelected || u is ExpandAllSelected
                || u is CollapseSelected || u is ToggleSplitSelected
            &&& u is SwitchFocus ==> after.focus != m.focus
            &&& u is SwitchFocus && m.focus is Stacks ==> after.details_selected == 0
            &&& u is SwitchFocus && m.focus is Details ==> after.details_selected
                == m.details_selected
        }),
{
}

/// Only a request, a committed chance, a change of view or an answered
/// question asks for anything. A chance that is typed in is asked for as it
/// is read, and an input that cannot be read asks for nothing.
pub proof fn little_asks_for_anything(m: ConsoleModel, u: Update)
    ensures
        !(effect_of(m, u) is Nothing) ==> u is RequestCacheLevel || u is ChanceInputCommit
            || u is EnterExplore || u is ExitExplore || u is EnterTable || u is EnterGraph
            || u is Quit || u is ConfirmVersionSwitchYes,
        u is Quit ==> effect_of(m, u) is Quit,
        effect_of(m, u) is Quit ==> u is Quit,
        effect_of(m, u) matches EffectModel::RequestSetChance(p) ==> {
            &&& u is ChanceInputCommit
            &&& m.chance_input is Some
            &&& crate::number::signed_number(m.chance_input->0) == Some(p)
        },
        m.view is Table || m.view is Graph ==> !(effect_of(m, Update::EnterTable) is RequestSetLevel)
            && !(effect_of(m, Update::ExitExplore) is RequestSetLevel),
{
}

/// The split key under the cursor of the details goes in or out. The spans
/// stay, and the table starts again from its first row, all folded.
pub proof fn a_split_key_goes_in_or_out(m: ConsoleModel, now: u64, i: int)
    requires
        m.focus == Focus::Details,
        m.details_selected < m.split_candidates().len(),
        0 <= i < m.agg.ring.len(),
    ensures
        ({
            let key = m.split_candidates()[m.details_selected as int];
            let after = console_after(m, Update::ToggleSplitSelected, now);
            &&& after.agg.split_keys.contains(key) <==> !m.agg.split_keys.contains(key)
            &&& forall|k: Text|
                k != key ==> (#[trigger] after.agg.split_keys.contains(k)
                    <==> m.agg.split_keys.contains(k))
            &&& after.agg.ring.len() == m.agg.ring.len()
            &&& after.agg.ring[i].span == m.agg.ring[i].span
            &&& after.agg.pending == m.agg.pending
            &&& after.selected == 0
            &&& forall|s: Seq<Text>| !#[trigger] after.expanded.contains(s)
            &&& after.view == m.view
        }),
{
    let key = m.split_candidates()[m.details_selected as int];
    rebucketed_keeps_spans(m.agg.ring, toggled(m.agg.split_keys, key));
}

/// The cursor moves by one row and stops at the first and the last.
pub proof fn the_cursor_moves_by_one(cur: usize, n: int)
    requires
        0 <= cur < n <= usize::MAX,
    ensures
        cur > 0 ==> cursor_up(cur) == cur - 1,
        cur == 0 ==> cursor_up(cur) == 0,
        cur + 1 < n ==> cursor_down(cur, n) == cur + 1,
        cur + 1 == n ==> cursor_down(cur, n) == cur,
        cur + 1 < n ==> cursor_up(cursor_down(cur, n)) == cur,
{
}

/// What is typed and taken back leaves an input as it was; a key that an
/// input does not take leaves it so too.
pub proof fn backspace_takes_back_a_key(s: Text, c: char)
    ensures
        decimal_typed(s, c).len() > s.len() ==> backspaced(Some(decimal_typed(s, c))) == Some(s),
        decimal_typed(s, c).len() <= s.len() ==> decimal_typed(s, c) == s,
        agg_typed(s, c).len() > s.len() ==> backspaced(Some(agg_typed(s, c))) == Some(s),
        agg_typed(s, c).len() <= s.len() ==> agg_typed(s, c) == s,
        lookback_typed(s, c).len() > s.len() ==> backspaced(Some(lookback_typed(s, c))) == Some(s),
        lookback_typed(s, c).len() <= s.len() ==> lookback_typed(s, c) == s,
        search_typed(s, c).len() > s.len() ==> backspaced(Some(search_typed(s, c))) == Some(s),
        search_typed(s, c).len() <= s.len() ==> search_typed(s, c) == s,
{
    assert forall|d: char| #[trigger] s.push(d).drop_last() == s by {
        assert(s.push(d).drop_last() =~= s);
    }
}

/// Typing into an input of the graph and leaving it changes none of its
/// settings; only what is committed does, and only the setting that the input
/// is for.
pub proof fn only_a_commit_changes_the_graph(g: GraphModel, ring: Seq<EntryModel>, u: Update)
    ensures
        ({
            let after = graph_after(g, ring, u);
            &&& after.aggregation != g.aggregation ==> u is SetGraphAgg || u is GraphAggInputCommit
            &&& after.metric != g.metric ==> u is ToggleGraphMetric
            &&& after.window_secs != g.window_secs ==> u is GraphWindowInputCommit
            &&& after.lookback_secs != g.lookback_secs ==> u is GraphLookbackInputCommit
            &&& after.split_keys != g.split_keys ==> u is GraphToggleSplit
            &&& after.hidden_series != g.hidden_series ==> u is GraphToggleSplit
            &&& after.focus != g.focus ==> u is GraphSwitchFocus
            &&& after.time_labels != g.time_labels ==> u is ToggleGraphTimeLabels
            &&& after.sort_column != g.sort_column ==> u is GraphSortColumnLeft
                || u is GraphSortColumnRight || u is GraphToggleSplit
            &&& after.store != g.store ==> u is ToggleGraphMetric || u is GraphWindowInputCommit
                || u is GraphToggleSplit
            &&& u is GraphAggInputCommit || u is GraphAggInputCancel ==> after.agg_input is None
            &&& u is GraphWindowInputCommit || u is GraphWindowInputCancel
                ==> after.window_input is None
            &&& u is GraphLookbackInputCommit || u is GraphLookbackInputCancel
                ==> after.lookback_input is None
            &&& u is BeginGraphAggInput ==> after.agg_input is Some && after.agg_input->0.len() == 0
            &&& u is BeginGraphWindowInput ==> after.window_input is Some
                && after.window_input->0.len() == 0
            &&& u is BeginGraphLookbackInput ==> after.lookback_input is Some
                && after.lookback_input->0.len() == 0
            &&& u matches Update::SetGraphAgg(mode) ==> after.aggregation == mode
            &&& u is GraphSwitchFocus ==> after.focus != g.focus
        }),
{
    let toggles = GraphModel { metric: g.metric.spec_next(), ..g };
    redrawing_keeps_settings(toggles, ring);
    if let Some(s) = g.window_input {
        if let Some(w) = crate::model::input::window_input(s) {
            redrawing_keeps_settings(GraphModel { window_input: None, window_secs: w, ..g }, ring);
        }
    }
    toggling_keeps_settings(g, ring);
}

proof fn redrawing_keeps_settings(g: GraphModel, ring: Seq<EntryModel>)
    ensures
        rehydrated(g, ring) == (GraphModel { store: rehydrated(g, ring).store, ..g }),
{
    crate::model::graph::drawn_keeps_settings(
        GraphModel {
            store: wiped(StoreModel { window_ns: window_ns_of(g.window_secs), ..g.store }),
            ..g
        },
        ring,
        ring.len() as int,
    );
}

proof fn toggling_keeps_settings(g: GraphModel, ring: Seq<EntryModel>)
    ensures
        ({
            let after = split_toggled(g, ring);
            after == (GraphModel {
                split_keys: after.split_keys,
                hidden_series: after.hidden_series,
                sort_column: after.sort_column,
                details_selected: after.details_selected,
                store: after.store,
                ..g
            })
        }),
{
    let series = graph_series(g);
    let keys = crate::model::steps::graph_keys(g, ring);
    let at = g.details_selected as int;
    if at >= series.len() && at - series.len() < keys.len() {
        let split_keys = toggled(g.split_keys, keys[at - series.len()]);
        redrawing_keeps_settings(
            GraphModel {
                split_keys,
                hidden_series: Set::empty(),
                sort_column: match g.sort_column {
                    ColumnModel::SplitKey(k) => if split_keys.contains(k) {
                        g.sort_column
                    } else {
                        ColumnModel::Count
                    },
                    _ => g.sort_column,
                },
                ..g
            },
            ring,
        );
    }
}

/// A series may stand before another in the table: by the column that the
/// table is sorted by, it is not on the wrong side. Counts, means, maxima and
/// last values go down the table, minima and split values up.
pub open spec fn series_may_precede(
    m: StoreModel,
    mode: AggMode,
    column: ColumnModel,
    a: SeriesKey,
    b: SeriesKey,
) -> bool {
    let x = summary_of(a, m.series[a], mode);
    let y = summary_of(b, m.series[b], mode);
    match column {
        ColumnModel::Count => x.count >= y.count,
        ColumnModel::Avg => x.avg_ns >= y.avg_ns,
        ColumnModel::Max => x.max_ns >= y.max_ns,
        ColumnModel::Last => x.last_ns >= y.last_ns,
        ColumnModel::Min => x.min_ns <= y.min_ns,
        ColumnModel::SplitKey(name) => forall|v: Text, w: Text| #[trigger]
            gives(a, name, v) && #[trigger] gives(b, name, w) ==> v == w || text_less(v, w),
    }
}

/// The value is what a series key gives for a name, or is empty where it
/// gives none.
pub open spec fn gives(key: SeriesKey, name: Text, value: Text) -> bool {
    first_says(key, name, value) || (says_nothing(key, name) && value.len() == 0)
}

proof fn given_is_split_value(key: SeriesKey, name: Text, value: Text)
    ensures
        gives(key, name, value) <==> value == split_value(key, name),
{
    if lookup(key).dom().contains(name) {
        let k = choose|k: int| first_named(key, name, k);
        assert(first_named(key, name, k));
        assert(key[k].0 == name);
        if first_says(key, name, value) {
            let i = choose|i: int| #[trigger] first_named(key, name, i) && key[i].1 == value;
            if k < i {
                assert(key[k].0 != name);
            } else if i < k {
                assert(key[i].0 != name);
            }
        }
    } else {
        if !says_nothing(key, name) {
            let i = choose|i: int| 0 <= i < key.len() && (#[trigger] key[i]).0 == name;
            first_of(key, name, i);
        }
        if first_says(key, name, value) {
            let i = choose|i: int| #[trigger] first_named(key, name, i) && key[i].1 == value;
            assert(lookup(key).dom().contains(name));
        }
        if value.len() == 0 {
            assert(value =~= Seq::empty());
        }
    }
}

proof fn first_of(fields: Seq<(Text, Text)>, name: Text, i: int)
    requires
        0 <= i < fields.len(),
        fields[i].0 == name,
    ensures
        exists|k: int| first_named(fields, name, k),
    decreases i,
{
    if exists|j: int| 0 <= j < i && (#[trigger] fields[j]).0 == name {
        let j = choose|j: int| 0 <= j < i && (#[trigger] fields[j]).0 == name;
        first_of(fields, name, j);
    } else {
        assert(first_named(fields, name, i));
    }
}

/// The table lists every series once, in order by its column, and by key
/// among series that the column does not tell apart.
pub proof fn series_are_listed_in_order(
    m: StoreModel,
    mode: AggMode,
    column: ColumnModel,
    i: int,
    j: int,
)
    requires
        m.series.dom().finite(),
        0 <= i < j < ordered_series(m, mode, column).len(),
    ensures
        ({
            let all = ordered_series(m, mode, column);
            &&& series_may_precede(m, mode, column, all[i], all[j])
            &&& series_may_precede(m, mode, column, all[j], all[i]) ==> <Vec<
                (String, String),
            > as Key>::less(all[i], all[j])
            &&& all.no_duplicates()
            &&& all.to_set() == m.series.dom()
        }),
{
    let lt = series_less(m, mode, column);
    series_order_is_strict(m, mode, column);
    finite_sets_are_listed(lt, m.series.dom());
    let all = ordered_series(m, mode, column);
    let (a, b) = (all[i], all[j]);
    assert(lt(a, b));
    if let ColumnModel::SplitKey(name) = column {
        let tl = key_order::<String>();
        key_order_is_strict::<String>();
        let (v, w) = (split_value(a, name), split_value(b, name));
        given_is_split_value(a, name, v);
        given_is_split_value(b, name, w);
        assert forall|x: Text, y: Text| #[trigger]
            gives(a, name, x) && #[trigger] gives(b, name, y) implies x == v && y == w by {
            given_is_split_value(a, name, x);
            given_is_split_value(b, name, y);
        }
        assert(v == w || tl(v, w) || tl(w, v));
        assert(!tl(v, v));
        if tl(v, w) && tl(w, v) {
            assert(tl(v, v));
        }
    }
}

/// The columns of the table are the split keys in ascending order and then
/// the five numbers, and walking through them to the right and to the left
/// again leads back.
pub proof fn columns_are_walked_both_ways(split_keys: Set<Text>, at: ColumnModel)
    requires
        split_keys.finite(),
        table_columns(split_keys).contains(at),
    ensures
        ({
            let all = table_columns(split_keys);
            let n = all.len() - 5;
            &&& all.no_duplicates()
            &&& all[n] is Count && all[n + 1] is Min && all[n + 2] is Avg && all[n + 3] is Max
                && all[n + 4] is Last
            &&& forall|name: Text| #[trigger]
                all.contains(ColumnModel::SplitKey(name)) <==> split_keys.contains(name)
            &&& column_left(all, column_right(all, at)) == at
            &&& column_right(all, column_left(all, at)) == at
            &&& all.contains(column_left(all, at)) && all.contains(column_right(all, at))
            &&& forall|p: int|
                0 <= p < all.len() && #[trigger] all[p] == at ==> column_right(all, at) == all[if p
                    < all.len() - 1 {
                    p + 1
                } else {
                    0
                }]
        }),
{
    let lt = key_order::<String>();
    key_order_is_strict::<String>();
    finite_sets_are_listed(lt, split_keys);
    let names = listing(lt, split_keys);
    let all = table_columns(split_keys);
    let n = names.len();
    assert(all.len() == n + 5);
    assert forall|k: int| 0 <= k < n implies #[trigger] all[k] == ColumnModel::SplitKey(
        names[k],
    ) by {
    }
    assert forall|k: int, l: int| 0 <= k < all.len() && 0 <= l < all.len() && k != l implies all[k]
        != all[l] by {
        if k < n && l < n {
            assert(names[k] != names[l]);
        }
    }
    assert(all.no_duplicates());
    assert forall|name: Text| #[trigger]
        all.contains(ColumnModel::SplitKey(name)) <==> split_keys.contains(name) by {
        if all.contains(ColumnModel::SplitKey(name)) {
            let k = choose|k: int| 0 <= k < all.len() && all[k] == ColumnModel::SplitKey(name);
            assert(k < n);
            assert(names.to_set().contains(names[k]));
        }
        if split_keys.contains(name) {
            assert(names.to_set().contains(name));
            let k = choose|k: int| 0 <= k < n && names[k] == name;
            assert(all[k] == ColumnModel::SplitKey(name));
        }
    }
    let p = all.index_of(at);
    assert(0 <= p < all.len() && all[p] == at);
    assert forall|q: int| 0 <= q < all.len() && #[trigger] all[q] == at implies q == p by {
    }
    let last = all.len() - 1;
    let (r, l) = (if p < last { p + 1 } else { 0 }, if p > 0 { p - 1 } else { last });
    places_are_only(all, r);
    places_are_only(all, l);
    assert(all.contains(all[r]) && all.contains(all[l]));
}

proof fn places_are_only(columns: Seq<ColumnModel>, p: int)
    requires
        columns.no_duplicates(),
        0 <= p < columns.len(),
    ensures
        columns.contains(columns[p]),
        columns.index_of(columns[p]) == p,
{
    assert(columns.contains(columns[p]));
    let q = columns.index_of(columns[p]);
    assert(0 <= q < columns.len() && columns[q] == columns[p]);
}

/// A span gives a split key what its own first field of that name says, or
/// else what the spans that it hangs on give, the nearest first. Nothing is
/// given for names that are no split keys.
pub proof fn the_nearest_value_splits(
    ring: Seq<EntryModel>,
    i: int,
    keys: Set<Text>,
    depth: nat,
    name: Text,
    value: Text,
)
    requires
        depth > 0,
        0 <= i < ring.len(),
        forall|j: int|
            i < j < ring.len() ==> (#[trigger] ring[j]).span.id != ring[i].span.id,
    ensures
        ({
            let span = ring[i].span;
            let all = nearest_splits(ring, Some(span.id), keys, depth);
            let above = nearest_splits(ring, span.parent_id, keys, (depth - 1) as nat);
            let own = !says_nothing(span.fields, name);
            &&& keys.contains(name) && first_says(span.fields, name, value)
                ==> all.dom().contains(name) && all[name] == value
            &&& keys.contains(name) && !own ==> (all.dom().contains(name)
                <==> above.dom().contains(name)) && (above.dom().contains(name) ==> all[name]
                == above[name])
            &&& !keys.contains(name) ==> !all.dom().contains(name)
        }),
    decreases depth,
{
    let span = ring[i].span;
    newest_is_only(ring, span.id, i);
    given_is_split_value(span.fields, name, value);
    only_keys_split(ring, span.parent_id, keys, (depth - 1) as nat, name);
    if first_says(span.fields, name, value) {
        let k = choose|k: int| #[trigger]
            first_named(span.fields, name, k) && span.fields[k].1 == value;
        assert(lookup(span.fields).dom().contains(name));
        assert(span.fields[k].0 == name);
    }
    if says_nothing(span.fields, name) {
        if lookup(span.fields).dom().contains(name) {
            let k = choose|k: int| first_named(span.fields, name, k);
            assert(first_named(span.fields, name, k));
            assert(span.fields[k].0 != name);
        }
    }
}

proof fn only_keys_split(
    ring: Seq<EntryModel>,
    at: Option<u64>,
    keys: Set<Text>,
    depth: nat,
    name: Text,
)
    ensures
        nearest_splits(ring, at, keys, depth).dom().contains(name) ==> keys.contains(name),
    decreases depth,
{
    if at is Some && depth > 0 && has_id(ring, at->0) {
        let span = ring[index_of_id(ring, at->0)].span;
        only_keys_split(ring, span.parent_id, keys, (depth - 1) as nat, name);
    }
}

/// A closed span is drawn at the time at which it closed, as high as it was
/// open, or as the time that it spent alone where that is asked for, in the
/// series of its split values. A span that is still open is not drawn.
pub proof fn spans_are_drawn_when_they_close(g: GraphModel, ring: Seq<EntryModel>, span: SpanModel)
    ensures
        ({
            let key = as_pairs(nearest_splits(ring, Some(span.id), g.split_keys, 65));
            let alone = time_open(span) - child_sum_of(ring, span.id);
            let after = drawn(g, ring, span);
            &&& span.closed_at_ns is None ==> after == g
            &&& span.closed_at_ns is Some && g.metric is Total ==> after.store == store_recorded(
                g.store,
                key,
                span.closed_at_ns->0,
                time_open(span) as u64,
            )
            &&& span.closed_at_ns is Some && g.metric is SelfTime ==> after.store == store_recorded(
                g.store,
                key,
                span.closed_at_ns->0,
                (if alone > 0 {
                    alone
                } else {
                    0
                }) as u64,
            )
            &&& after == (GraphModel { store: after.store, ..g })
        }),
{
}

/// The graph drawn from some spans, one after the other.
pub open spec fn drawn_each(g: GraphModel, ring: Seq<EntryModel>, spans: Seq<SpanModel>) -> GraphModel
    decreases spans.len(),
{
    if spans.len() == 0 {
        g
    } else {
        drawn(drawn_each(g, ring, spans.drop_last()), ring, spans.last())
    }
}

/// Drawn anew, the graph shows the spans of its stack that are in the window,
/// all of them and each once, in bins as wide as its window, and nothing that
/// it showed before.
pub proof fn the_graph_is_drawn_from_its_stack(g: GraphModel, ring: Seq<EntryModel>)
    ensures
        ({
            let blank = GraphModel {
                store: StoreModel {
                    origin_ns: None,
                    window_ns: window_ns_of(g.window_secs),
                    latest_bin_idx: 0,
                    series: Map::empty(),
                },
                ..g
            };
            rehydrated(g, ring) == drawn_each(
                blank,
                ring,
                ring.filter(|e: EntryModel| e.bucket.stack == g.locked_stack).map_values(
                    |e: EntryModel| e.span,
                ),
            )
        }),
{
    let blank = GraphModel {
        store: wiped(StoreModel { window_ns: window_ns_of(g.window_secs), ..g.store }),
        ..g
    };
    drawn_in_turn(blank, ring, ring.len() as int);
    assert(ring.take(ring.len() as int) =~= ring);
}

proof fn drawn_in_turn(g: GraphModel, ring: Seq<EntryModel>, n: int)
    requires
        0 <= n <= ring.len(),
    ensures
        drawn_upto(g, ring, n) == drawn_each(
            g,
            ring,
            ring.take(n).filter(|e: EntryModel| e.bucket.stack == g.locked_stack).map_values(
                |e: EntryModel| e.span,
            ),
        ),
    decreases n,
{
    let wanted = |e: EntryModel| e.bucket.stack == g.locked_stack;
    let part = ring.take(n);
    reveal(Seq::filter);
    if n == 0 {
        assert(part.filter(wanted).map_values(|e: EntryModel| e.span) =~= Seq::empty());
    } else {
        drawn_in_turn(g, ring, n - 1);
        assert(part.drop_last() =~= ring.take(n - 1));
        let rest = ring.take(n - 1).filter(wanted);
        if wanted(part.last()) {
            assert(part.filter(wanted) == rest.push(part.last()));
            let spans = part.filter(wanted).map_values(|e: EntryModel| e.span);
            assert(spans.drop_last() =~= rest.map_values(|e: EntryModel| e.span));
            assert(spans.last() == ring[n - 1].span);
        } else {
            assert(part.filter(wanted) == rest);
        }
    }
}

/// The row under the cursor is the one that counts; where the cursor is below
/// the last row, the last row counts.
pub proof fn the_row_under_the_cursor_counts(m: ConsoleModel)
    ensures
        m.rows().len() == 0 <==> m.selected_row() is None,
        m.selected < m.rows().len() ==> m.selected_row() == Some(m.rows()[m.selected as int]),
        m.rows().len() > 0 && m.selected >= m.rows().len() ==> m.selected_row() == Some(
            m.rows()[m.rows().len() - 1],
        ),
        m.view is Table && m.selected_row() is Some ==> m.stack_at_hand() == Some(
            m.selected_row()->0.key.stack,
        ),
{
}

/// Folding an open row folds its subtree and leaves the cursor. Folding one
/// that is not open folds the subtree of the row above it, and the cursor goes
/// to the first row with that stack. All other rows stay as they were.
pub proof fn folding_goes_up_from_a_folded_row(m: ConsoleModel, now: u64, s: Seq<Text>)
    requires
        m.focus == Focus::Stacks,
        m.selected < m.rows().len(),
        m.rows().len() <= usize::MAX,
    ensures
        ({
            let row = m.rows()[m.selected as int];
            let after = console_after(m, Update::CollapseSelected, now);
            let top = if row.is_expanded {
                row.key.stack
            } else {
                row.key.stack.drop_last()
            };
            &&& row.is_expanded || row.depth > 0 ==> (after.expanded.contains(s)
                <==> m.expanded.contains(s) && !begins(top, s))
            &&& !row.is_expanded && row.depth <= 0 ==> after == m
            &&& row.is_expanded ==> after.selected == m.selected
            &&& !row.is_expanded && row.depth > 0 ==> {
                ||| after.selected < after.rows().len() && after.rows()[after.selected as int].key.stack
                    == top && forall|j: int|
                    0 <= j < after.selected ==> (#[trigger] after.rows()[j]).key.stack != top
                ||| after.selected == m.selected && forall|j: int|
                    0 <= j < after.rows().len() ==> (#[trigger] after.rows()[j]).key.stack != top
            }
        }),
{
    let row = m.rows()[m.selected as int];
    if !row.is_expanded && row.depth > 0 {
        let top = row.key.stack.drop_last();
        let mid = ConsoleModel { expanded: folded_below(m.expanded, top), ..m };
        let rows = mid.rows();
        shown_fits(rows_of(m.agg.ring), m.expanded, mid.expanded, top, m.rows().len());
        if exists|i: int| crate::model::console::first_with_stack(rows, top, i) {
            let i = choose|i: int| crate::model::console::first_with_stack(rows, top, i);
            assert(crate::model::console::first_with_stack(rows, top, i));
            assert(rows.len() <= m.rows().len());
        } else {
            assert forall|j: int| 0 <= j < rows.len() implies (#[trigger] rows[j]).key.stack
                != top by {
                if rows[j].key.stack == top {
                    first_row_stands(rows, top, j);
                }
            }
        }
    }
}

/// Where rows have a stack, one of them is the first.
proof fn first_row_stands(rows: Seq<RowModel>, stack: Seq<Text>, j: int)
    requires
        0 <= j < rows.len(),
        rows[j].key.stack == stack,
    ensures
        exists|i: int| crate::model::console::first_with_stack(rows, stack, i),
    decreases j,
{
    if exists|k: int| 0 <= k < j && (#[trigger] rows[k]).key.stack == stack {
        let k = choose|k: int| 0 <= k < j && (#[trigger] rows[k]).key.stack == stack;
        first_row_stands(rows, stack, k);
    } else {
        assert(crate::model::console::first_with_stack(rows, stack, j));
    }
}

/// With fewer rows open, no more are shown.
proof fn shown_fits(
    rows: Seq<(KeyModel, StackStats)>,
    more: Set<Seq<Text>>,
    fewer: Set<Seq<Text>>,
    top: Seq<Text>,
    n: nat,
)
    requires
        fewer == folded_below(more, top),
        n == shown_upto(rows, more, rows.len() as int).len(),
    ensures
        shown_upto(rows, fewer, rows.len() as int).len() <= n,
{
    shown_fewer(rows, more, fewer, rows.len() as int);
}

proof fn shown_fewer(
    rows: Seq<(KeyModel, StackStats)>,
    more: Set<Seq<Text>>,
    fewer: Set<Seq<Text>>,
    n: int,
)
    requires
        forall|s: Seq<Text>| #[trigger] fewer.contains(s) ==> more.contains(s),
    ensures
        shown_upto(rows, fewer, n).len() <= shown_upto(rows, more, n).len(),
    decreases n,
{
    if n > 0 {
        shown_fewer(rows, more, fewer, n - 1);
        let stack = rows[n - 1].0.stack;
        if row_shown(fewer, stack) {
            assert forall|k: int| 1 <= k < stack.len() implies more.contains(
                #[trigger] stack.take(k),
            ) by {
                assert(fewer.contains(stack.take(k)));
            }
        }
    }
}

/// An arriving span joins the window as it would anywhere and is counted in
/// the rate. A graph that is shown draws what joined with it, and no other
/// part of the console changes.
pub proof fn arriving_spans_reach_window_rate_and_graph(m: ConsoleModel, u: Update, now: u64)
    requires
        u is SpanReceived,
    ensures
        ({
            let after = console_after(m, u, now);
            let (agg, ids) = crate::aggregate::ring::absorbed(m.agg, u->SpanReceived_0@);
            &&& after.agg == agg
            &&& after.rate == crate::model::rate::rate_recorded(m.rate, now)
            &&& after == (ConsoleModel {
                agg: after.agg,
                rate: after.rate,
                view: after.view,
                ..m
            })
            &&& !(m.view is Graph) ==> after.view == m.view
            &&& m.view matches ViewModel::Graph(g) ==> after.view == ViewModel::Graph(
                drawn_each(g, agg.ring, newest_of_stack(agg.ring, ids, g.locked_stack)),
            )
        }),
{
    if let ViewModel::Graph(g) = m.view {
        let (agg, ids) = crate::aggregate::ring::absorbed(m.agg, u->SpanReceived_0@);
        drawn_ids_in_turn(g, agg.ring, ids, ids.len() as int);
        assert(ids.take(ids.len() as int) =~= ids);
    }
}

/// The newest spans with some ids, as far as they are in the window with the
/// given stack.
pub open spec fn newest_of_stack(
    ring: Seq<EntryModel>,
    ids: Seq<u64>,
    stack: Seq<Text>,
) -> Seq<SpanModel>
    decreases ids.len(),
{
    if ids.len() == 0 {
        Seq::empty()
    } else {
        let before = newest_of_stack(ring, ids.drop_last(), stack);
        let id = ids.last();
        if has_id(ring, id) && ring[index_of_id(ring, id)].bucket.stack == stack {
            before.push(ring[index_of_id(ring, id)].span)
        } else {
            before
        }
    }
}

proof fn drawn_ids_in_turn(g: GraphModel, ring: Seq<EntryModel>, ids: Seq<u64>, n: int)
    requires
        0 <= n <= ids.len(),
    ensures
        drawn_ids(g, ring, ids, n) == drawn_each(
            g,
            ring,
            newest_of_stack(ring, ids.take(n), g.locked_stack),
        ),
    decreases n,
{
    if n > 0 {
        drawn_ids_in_turn(g, ring, ids, n - 1);
        let part = ids.take(n);
        assert(part.drop_last() =~= ids.take(n - 1));
        let before = newest_of_stack(ring, ids.take(n - 1), g.locked_stack);
        let id = ids[n - 1];
        if has_id(ring, id) && ring[index_of_id(ring, id)].bucket.stack == g.locked_stack {
            let span = ring[index_of_id(ring, id)].span;
            assert(before.push(span).drop_last() =~= before);
        }
    }
}

/// A view that is entered is that of the stack at hand: the graph draws it
/// anew, the explore view lists its spans from the newest down, and neither
/// takes over inputs or marks from before.
pub proof fn views_are_entered_with_the_stack_at_hand(m: ConsoleModel, now: u64)
    requires
        m.view is Table,
        m.stack_at_hand() is Some,
    ensures
        ({
            let stack = m.stack_at_hand()->0;
            let graph = console_after(m, Update::EnterGraph, now);
            let explore = console_after(m, Update::EnterExplore, now);
            &&& graph == console_after(m, Update::ToggleGraph, now)
            &&& graph.view is Graph
            &&& graph.view->Graph_0.locked_stack == stack
            &&& graph.view->Graph_0 == rehydrated(graph.view->Graph_0, m.agg.ring)
            &&& graph.view->Graph_0.agg_input is None
            &&& graph.view->Graph_0.window_input is None
            &&& graph.view->Graph_0.lookback_input is None
            &&& graph.view->Graph_0.hidden_series == Set::<SeriesKey>::empty()
            &&& graph.view->Graph_0.split_keys == Set::<Text>::empty()
            &&& explore.view is Explore
            &&& explore.view->Explore_0.locked_stack == stack
            &&& explore.view->Explore_0.restore_level == m.cache_level
            &&& explore.view->Explore_0.search_input is None
            &&& explore.view->Explore_0.query.len() == 0
            &&& explore.view->Explore_0.selected == 0
            &&& graph == (ConsoleModel { view: graph.view, ..m })
            &&& explore == (ConsoleModel { view: explore.view, ..m })
        }),
{
    let g = fresh_graph(m.stack_at_hand()->0);
    redrawing_keeps_settings(g, m.agg.ring);
    redrawing_starts_afresh(g, rehydrated(g, m.agg.ring), m.agg.ring);
}

/// How a graph is drawn anew does not depend on what it showed before.
proof fn redrawing_starts_afresh(a: GraphModel, b: GraphModel, ring: Seq<EntryModel>)
    requires
        b == (GraphModel { store: b.store, ..a }),
    ensures
        rehydrated(a, ring) == rehydrated(b, ring),
{
}

/// The trace that is opened is that of the span under the cursor: its root is
/// the root of that span. The view starts on the first row with nothing
/// folded, and keeps the explore view to go back to.
pub proof fn the_trace_of_the_span_under_the_cursor_is_opened(m: ConsoleModel, now: u64)
    requires
        m.view is Explore,
        crate::model::explore::matching(m.agg.ring, m.view->Explore_0).len() > 0,
    ensures
        ({
            let es = m.view->Explore_0;
            let at = crate::model::explore::matching(m.agg.ring, es);
            let i = if es.selected < at.len() {
                es.selected as int
            } else {
                at.len() - 1
            };
            let root = crate::model::explore::root_of(m.agg.ring, m.agg.ring[at[i]].span.id, 256);
            let after = console_after(m, Update::ExploreOpenTrace, now);
            &&& root is None ==> after == m
            &&& root is Some ==> {
                &&& after.view is TraceDetail
                &&& after.view->TraceDetail_0.root_id == root->0
                &&& after.view->TraceDetail_0.explore == es
                &&& after.view->TraceDetail_0.selected_idx == 0
                &&& after.view->TraceDetail_0.collapsed == Set::<u64>::empty()
                &&& after == (ConsoleModel { view: after.view, ..m })
            }
        }),
{
}

/// Space on a series of the graph hides it or shows it again, and changes
/// nothing else. Space on a split key takes it in or out; the graph is drawn
/// anew with all series shown, and a sort by a key that is no longer split by
/// gives way to the count.
pub proof fn space_toggles_what_is_under_the_cursor(g: GraphModel, ring: Seq<EntryModel>)
    ensures
        ({
            let series = graph_series(g);
            let keys = crate::model::steps::graph_keys(g, ring);
            let at = g.details_selected as int;
            let after = graph_after(g, ring, Update::GraphToggleSplit);
            &&& at < series.len() ==> {
                &&& after.hidden_series.contains(series[at]) <==> !g.hidden_series.contains(
                    series[at],
                )
                &&& forall|k: SeriesKey|
                    k != series[at] ==> (#[trigger] after.hidden_series.contains(k)
                        <==> g.hidden_series.contains(k))
                &&& after == (GraphModel { hidden_series: after.hidden_series, ..g })
            }
            &&& series.len() <= at < series.len() + keys.len() ==> {
                let key = keys[at - series.len()];
                &&& after.split_keys.contains(key) <==> !g.split_keys.contains(key)
                &&& forall|k: Text|
                    k != key ==> (#[trigger] after.split_keys.contains(k)
                        <==> g.split_keys.contains(k))
                &&& after.hidden_series == Set::<SeriesKey>::empty()
                &&& after.store == rehydrated(after, ring).store
                &&& g.sort_column matches ColumnModel::SplitKey(k) ==> {
                    &&& after.split_keys.contains(k) ==> after.sort_column == g.sort_column
                    &&& !after.split_keys.contains(k) ==> after.sort_column is Count
                }
                &&& !(g.sort_column is SplitKey) ==> after.sort_column == g.sort_column
                &&& graph_series(after).len() + (at - series.len()) <= usize::MAX
                    ==> after.details_selected == graph_series(after).len() + (at - series.len())
            }
            &&& at >= series.len() + keys.len() ==> after == g
        }),
{
    let series = graph_series(g);
    let keys = crate::model::steps::graph_keys(g, ring);
    let at = g.details_selected as int;
    if series.len() <= at < series.len() + keys.len() {
        let split_keys = toggled(g.split_keys, keys[at - series.len()]);
        let next = GraphModel {
            split_keys,
            hidden_series: Set::empty(),
            sort_column: match g.sort_column {
                ColumnModel::SplitKey(k) => if split_keys.contains(k) {
                    g.sort_column
                } else {
                    ColumnModel::Count
                },
                _ => g.sort_column,
            },
            ..g
        };
        redrawing_keeps_settings(next, ring);
        let after = graph_after(g, ring, Update::GraphToggleSplit);
        let bare = GraphModel { details_selected: g.details_selected, ..after };
        redrawing_starts_afresh(next, bare, ring);
        redrawing_ignores_the_cursor(bare, after, ring);
    }
}

/// Where the cursor stands makes no difference to what is drawn.
proof fn redrawing_ignores_the_cursor(a: GraphModel, b: GraphModel, ring: Seq<EntryModel>)
    requires
        b == (GraphModel { details_selected: b.details_selected, ..a }),
    ensures
        rehydrated(b, ring).store == rehydrated(a, ring).store,
{
    let x = GraphModel {
        store: wiped(StoreModel { window_ns: window_ns_of(a.window_secs), ..a.store }),
        ..a
    };
    let y = GraphModel {
        store: wiped(StoreModel { window_ns: window_ns_of(b.window_secs), ..b.store }),
        ..b
    };
    cursors_draw_alike(x, y, ring, ring.len() as int);
}

proof fn cursors_draw_alike(a: GraphModel, b: GraphModel, ring: Seq<EntryModel>, n: int)
    requires
        b == (GraphModel { details_selected: b.details_selected, ..a }),
    ensures
        drawn_upto(b, ring, n) == (GraphModel {
            details_selected: b.details_selected,
            ..drawn_upto(a, ring, n)
        }),
    decreases n,
{
    if n > 0 {
        cursors_draw_alike(a, b, ring, n - 1);
        crate::model::graph::drawn_keeps_settings(a, ring, n - 1);
    }
}

/// A committed window is the new width of the bins, and the graph is drawn
/// anew with it; a committed lookback or aggregation draws nothing anew.
pub proof fn committed_inputs_are_used(g: GraphModel, ring: Seq<EntryModel>)
    ensures
        ({
            let window = graph_after(g, ring, Update::GraphWindowInputCommit);
            let lookback = graph_after(g, ring, Update::GraphLookbackInputCommit);
            let agg = graph_after(g, ring, Update::GraphAggInputCommit);
            &&& g.window_input is Some && crate::model::input::window_input(
                g.window_input->0,
            ) is Some ==> {
                &&& Some(window.window_secs) == crate::model::input::window_input(g.window_input->0)
                &&& window.store.window_ns == window_ns_of(window.window_secs)
            }
            &&& g.window_input is Some && crate::model::input::window_input(
                g.window_input->0,
            ) is None ==> window == (GraphModel { window_input: None, ..g })
            &&& lookback.store == g.store && agg.store == g.store
            &&& g.lookback_input is Some && crate::model::graph::lookback_input(
                g.lookback_input->0,
            ) is Some ==> Some(lookback.lookback_secs) == crate::model::graph::lookback_input(
                g.lookback_input->0,
            )
            &&& g.agg_input is Some && crate::model::graph::agg_input(g.agg_input->0) is Some
                ==> Some(agg.aggregation) == crate::model::graph::agg_input(g.agg_input->0)
        }),
{
    if let Some(s) = g.window_input {
        if let Some(w) = crate::model::input::window_input(s) {
            let next = GraphModel { window_input: None, window_secs: w, ..g };
            redrawing_keeps_settings(next, ring);
            drawing_keeps_the_width(
                GraphModel {
                    store: wiped(StoreModel { window_ns: window_ns_of(w), ..next.store }),
                    ..next
                },
                ring,
                ring.len() as int,
            );
        }
    }
}

proof fn drawing_keeps_the_width(g: GraphModel, ring: Seq<EntryModel>, n: int)
    ensures
        drawn_upto(g, ring, n).store.window_ns == g.store.window_ns,
    decreases n,
{
    if n > 0 {
        drawing_keeps_the_width(g, ring, n - 1);
    }
}

/// The focus of the graph goes to the other pane. The cursor stays where it
/// is, but for the chart, where it stays among the series.
pub proof fn the_cursor_stays_with_the_focus(g: GraphModel, ring: Seq<EntryModel>)
    ensures
        ({
            let after = graph_after(g, ring, Update::GraphSwitchFocus);
            &&& g.focus is Chart ==> after == (GraphModel { focus: after.focus, ..g })
                && after.focus is Details
            &&& g.focus is Details ==> {
                &&& after.focus is Chart
                &&& graph_series(g).len() > g.details_selected ==> after.details_selected
                    == g.details_selected
                &&& 0 < graph_series(g).len() <= g.details_selected ==> after.details_selected
                    == graph_series(g).len() - 1
                &&& graph_series(g).len() == 0 ==> after.details_selected == 0
            }
        }),
{
}

/// Where the installer succeeded, agreeing restarts the program; where it
/// failed, what it printed is shown until the question is closed. Neither
/// happens unless a question stands.
pub proof fn the_outcome_of_the_installer_is_shown(m: ConsoleModel, u: Update, now: u64)
    requires
        m.confirm_version_switch is Some,
    ensures
        ({
            let after = console_after(m, u, now);
            let version = m.confirm_version_switch->0.server_version;
            &&& u is InstallerSucceeded ==> {
                &&& after.confirm_version_switch is Some
                &&& after.confirm_version_switch->0.server_version == version
                &&& effect_of(after, Update::ConfirmVersionSwitchYes) is Restart
            }
            &&& u matches Update::InstallerFailed(output) ==> {
                &&& after.confirm_version_switch is Some
                &&& after.confirm_version_switch->0.status == StatusModel::Failed(output@)
                &&& effect_of(after, Update::ConfirmVersionSwitchYes) is Nothing
                &&& console_after(
                    after,
                    Update::ConfirmVersionSwitchNo,
                    now,
                ).confirm_version_switch is None
            }
        }),
{
}

/// The inputs take the keys that fit: a number takes digits and its first
/// point, an aggregation letters besides, capitals as small ones, a lookback
/// one `s` or `m` behind a number, and a search whatever can be printed.
pub proof fn inputs_take_the_keys_that_fit(s: Text, c: char)
    ensures
        ({
            let digit = '0' <= c && c <= '9';
            let point = c == '.' && forall|i: int| 0 <= i < s.len() ==> #[trigger] s[i] != '.';
            let ended = s.len() > 0 && (s[s.len() - 1] == 's' || s[s.len() - 1] == 'm');
            &&& digit || point ==> decimal_typed(s, c) == s.push(c)
            &&& !digit && !point ==> decimal_typed(s, c) == s
            &&& digit || point || ('a' <= c && c <= 'z') ==> agg_typed(s, c) == s.push(c)
            &&& 'A' <= c && c <= 'Z' ==> agg_typed(s, c).len() == s.len() + 1 && agg_typed(
                s,
                c,
            ).last() as int == c as int + 32
            &&& !digit && !point && !('a' <= c && c <= 'z') && !('A' <= c && c <= 'Z')
                ==> agg_typed(s, c) == s
            &&& ended ==> lookback_typed(s, c) == s
            &&& !ended && (digit || point) ==> lookback_typed(s, c) == s.push(c)
            &&& !ended && (c == 's' || c == 'm') && s.len() > 0 ==> lookback_typed(s, c) == s.push(
                c,
            )
            &&& !ended && !digit && !point && c != 's' && c != 'm' ==> lookback_typed(s, c) == s
            &&& s.len() == 0 && (c == 's' || c == 'm') ==> lookback_typed(s, c) == s
            &&& ' ' <= c && c <= '~' ==> search_typed(s, c) == s.push(c)
            &&& c > '\u{9f}' ==> search_typed(s, c) == s.push(c)
            &&& c < ' ' || c == '\u{7f}' ==> search_typed(s, c) == s
        }),
{
    if forall|i: int| 0 <= i < s.len() ==> #[trigger] s[i] != '.' {
        assert(!s.contains('.'));
    }
}

/// The cursor of the graph walks through the series, and where the details
/// have the focus through the split keys behind them; it stops at the last of
/// these and at the first series.
pub proof fn the_graph_cursor_walks_through_its_lists(g: GraphModel, ring: Seq<EntryModel>)
    ensures
        ({
            let n = graph_series(g).len() + if g.focus is Details {
                crate::aggregate::util::candidates(ring, g.locked_stack).len()
            } else {
                0
            };
            let down = graph_after(g, ring, Update::GraphSelectDown);
            let up = graph_after(g, ring, Update::GraphSelectUp);
            let at = g.details_selected;
            &&& at + 1 < n <= usize::MAX ==> down.details_selected == at + 1
            &&& at + 1 == n ==> down.details_selected == at
            &&& n == 0 ==> down == g
            &&& at > 0 ==> up.details_selected == at - 1
            &&& at == 0 ==> up == g
            &&& down == (GraphModel { details_selected: down.details_selected, ..g })
            &&& up == (GraphModel { details_selected: up.details_selected, ..g })
        }),
{
}

} // verus!
