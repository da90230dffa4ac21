//! How the graph, explore and trace views answer the messages meant for
//! them.

use vstd::prelude::*;

use crate::aggregate::ring::EntryModel;
use crate::aggregate::state::Aggregator;
use crate::aggregate::util::{candidate_split_keys_for, candidates};
use crate::model::explore::{
    cycle_sort_left, cycle_sort_right, cycled, distinguishing, distinguishing_fields, matching,
    matching_in, trace_rows, trace_rows_in, ExploreModel, ExploreState, TraceDetailState,
    TraceModel, TraceRow,
};
use crate::model::graph::{
    agg_input, column_left, column_right, lookback_input, ordered_series, parse_agg_input,
    parse_lookback_input, rehydrated, table_columns, ColumnModel, GraphFocus, GraphModel,
    GraphState, SortColumn,
};
use crate::model::input::{
    agg_slot, backspace_modal, backspaced, close_modal, decimal_slot, lookback_slot, open_modal,
    parse_window_input, search_slot, type_agg, type_decimal, type_lookback, type_search,
    window_input,
};
use crate::model::series::SeriesKey;
use crate::model::update::Update;
use crate::order::Key;
use crate::protocol::{SpanModel, Text, WireSpan};
use crate::sorted::SortedSet;

verus! {

/// `n` as an index, held at the greatest index.
pub open spec fn index_at(n: int) -> usize {
    if n > usize::MAX {
        usize::MAX
    } else if n < 0 {
        0
    } else {
        n as usize
    }
}

/// The cursor one up.
pub open spec fn cursor_up(cur: usize) -> usize {
    index_at(cur - 1)
}

/// The cursor one down among `n` rows.
pub open spec fn cursor_down(cur: usize, n: int) -> usize {
    if cur + 1 <= n - 1 {
        index_at(cur + 1)
    } else {
        index_at(n - 1)
    }
}

/// The series of the graph, in the order of the table.
pub open spec fn graph_series(g: GraphModel) -> Seq<SeriesKey> {
    ordered_series(g.store, g.aggregation, g.sort_column)
}

/// The keys by which the graph may be split; only listed while its details
/// have the focus.
pub open spec fn graph_keys(g: GraphModel, ring: Seq<EntryModel>) -> Seq<Text> {
    match g.focus {
        GraphFocus::Chart => Seq::empty(),
        GraphFocus::Details => candidates(ring, g.locked_stack),
    }
}

/// With the other focus. The cursor stays among the series where only they
/// are listed.
pub open spec fn focus_swapped(g: GraphModel) -> GraphModel {
    match g.focus {
        GraphFocus::Chart => GraphModel { focus: GraphFocus::Details, ..g },
        GraphFocus::Details => {
            let last = index_at(graph_series(g).len() - 1);
            GraphModel {
                focus: GraphFocus::Chart,
                details_selected: if g.details_selected < last {
                    g.details_selected
                } else {
                    last
                },
                ..g
            }
        },
    }
}

/// In or out of a set.
pub open spec fn toggled<T>(set: Set<T>, x: T) -> Set<T> {
    if set.contains(x) {
        set.remove(x)
    } else {
        set.insert(x)
    }
}

/// The series or key under the cursor is toggled. A key changes what a
/// series is: the marks on series go, a sort by a key no longer split by
/// goes, and the cursor stays on the key.
pub open spec fn split_toggled(g: GraphModel, ring: Seq<EntryModel>) -> GraphModel {
    let series = graph_series(g);
    let keys = graph_keys(g, ring);
    let at = g.details_selected as int;
    if at < series.len() {
        GraphModel { hidden_series: toggled(g.hidden_series, series[at]), ..g }
    } else if at - series.len() < keys.len() {
        let key = keys[at - series.len()];
        let split_keys = toggled(g.split_keys, key);
        let next = rehydrated(
            GraphModel {
                split_keys,
                hidden_series: Set::empty(),
                sort_column: match g.sort_column {
                    ColumnModel::SplitKey(k) => if split_keys.contains(k) {
                        g.sort_column
                    } else {
                        ColumnModel::Count
                    },
                    _ => g.sort_column,
                },
                ..g
            },
            ring,
        );
        GraphModel {
            details_selected: index_at(graph_series(next).len() + (at - series.len())),
            ..next
        }
    } else {
        g
    }
}

/// The graph view after a message.
pub open spec fn graph_after(g: GraphModel, ring: Seq<EntryModel>, u: Update) -> GraphModel {
    match u {
        Update::SetGraphAgg(mode) => GraphModel { aggregation: mode, ..g },
        Update::ToggleGraphMetric => rehydrated(
            GraphModel { metric: g.metric.spec_next(), ..g },
            ring,
        ),
        Update::BeginGraphAggInput => GraphModel { agg_input: Some(Seq::empty()), ..g },
        Update::GraphAggInputChar(c) => GraphModel { agg_input: agg_slot(g.agg_input, c), ..g },
        Update::GraphAggInputBackspace => GraphModel { agg_input: backspaced(g.agg_input), ..g },
        Update::GraphAggInputCancel => GraphModel { agg_input: None, ..g },
        Update::GraphAggInputCommit => match g.agg_input {
            Some(s) => GraphModel {
                agg_input: None,
                aggregation: match agg_input(s) {
                    Some(mode) => mode,
                    None => g.aggregation,
                },
                ..g
            },
            None => g,
        },
        Update::BeginGraphWindowInput => GraphModel { window_input: Some(Seq::empty()), ..g },
        Update::GraphWindowInputChar(c) => GraphModel {
            window_input: decimal_slot(g.window_input, c),
            ..g
        },
        Update::GraphWindowInputBackspace => GraphModel {
            window_input: backspaced(g.window_input),
            ..g
        },
        Update::GraphWindowInputCancel => GraphModel { window_input: None, ..g },
        Update::GraphWindowInputCommit => match g.window_input {
            Some(s) => match window_input(s) {
                Some(w) => rehydrated(
                    GraphModel { window_input: None, window_secs: w, ..g },
                    ring,
                ),
                None => GraphModel { window_input: None, ..g },
            },
            None => g,
        },
        Update::BeginGraphLookbackInput => GraphModel { lookback_input: Some(Seq::empty()), ..g },
        Update::GraphLookbackInputChar(c) => GraphModel {
            lookback_input: lookback_slot(g.lookback_input, c),
            ..g
        },
        Update::GraphLookbackInputBackspace => GraphModel {
            lookback_input: backspaced(g.lookback_input),
            ..g
        },
        Update::GraphLookbackInputCancel => GraphModel { lookback_input: None, ..g },
        Update::GraphLookbackInputCommit => match g.lookback_input {
            Some(s) => GraphModel {
                lookback_input: None,
                lookback_secs: match lookback_input(s) {
                    Some(secs) => secs,
                    None => g.lookback_secs,
                },
                ..g
            },
            None => g,
        },
        Update::ToggleGraphTimeLabels => GraphModel { time_labels: g.time_labels.spec_next(), ..g },
        Update::GraphSwitchFocus => focus_swapped(g),
        Update::GraphSelectUp => GraphModel {
            details_selected: cursor_up(g.details_selected),
            ..g
        },
        Update::GraphSelectDown => {
            let total = graph_series(g).len() + graph_keys(g, ring).len();
            if total == 0 {
                g
            } else {
                GraphModel {
                    details_selected: cursor_down(g.details_selected, total as int),
                    ..g
                }
            }
        },
        Update::GraphToggleSplit => split_toggled(g, ring),
        Update::GraphSortColumnLeft => GraphModel {
            sort_column: column_left(table_columns(g.split_keys), g.sort_column),
            ..g
        },
        Update::GraphSortColumnRight => GraphModel {
            sort_column: column_right(table_columns(g.split_keys), g.sort_column),
            ..g
        },
        _ => g,
    }
}

/// The cursor one down among `n` rows.
pub(crate) fn move_down(cur: usize, n: u128) -> (r: usize)
    requires
        n > 0,
    ensures
        r == cursor_down(cur, n as int),
{
    let wide: u128 = cur as u128 + 1;
    let low: u128 = if wide <= n - 1 { wide } else { n - 1 };
    if low > usize::MAX as u128 {
        usize::MAX
    } else {
        low as usize
    }
}

/// In or out of a set.
pub(crate) fn toggle<K: Key>(set: &mut SortedSet<K>, k: K)
    requires
        old(set).wf(),
    ensures
        final(set).wf(),
        final(set)@ == toggled(old(set)@, k.model()),
{
    if set.contains(&k) {
        let _ = set.remove(&k);
    } else {
        let _ = set.insert(k);
    }
}

impl GraphState {
    /// Swaps the focus.
    fn swap_focus(&mut self)
        requires
            old(self).wf(),
        ensures
            final(self).wf(),
            final(self)@ == focus_swapped(old(self)@),
    {
        match self.focus {
            GraphFocus::Chart => {
                self.focus = GraphFocus::Details;
            },
            GraphFocus::Details => {
                let n: usize = self.series_keys().len();
                let last: usize = if n > 0 {
                    n - 1
                } else {
                    0
                };
                self.focus = GraphFocus::Chart;
                if self.details_selected >= last {
                    self.details_selected = last;
                }
            },
        }
    }

    /// The keys by which the graph may be split, while they are listed.
    fn listed_keys(&self, agg: &Aggregator) -> (r: Vec<String>)
        requires
            agg.wf(),
        ensures
            r.model() == graph_keys(self@, agg@.ring),
    {
        match self.focus {
            GraphFocus::Chart => {
                let r: Vec<String> = Vec::new();
                assert(r.model() =~= Seq::empty());
                r
            },
            GraphFocus::Details => candidate_split_keys_for(agg, &self.locked_stack),
        }
    }

    /// Moves the cursor down.
    fn select_down(&mut self, agg: &Aggregator)
        requires
            old(self).wf(),
            agg.wf(),
        ensures
            final(self).wf(),
            final(self)@ == graph_after(old(self)@, agg@.ring, Update::GraphSelectDown),
    {
        let keys = self.listed_keys(agg);
        let total: u128 = self.series_keys().len() as u128 + keys.len() as u128;
        if total > 0 {
            self.details_selected = move_down(self.details_selected, total);
        }
    }

    /// Splits by a key, or no longer.
    fn toggle_key(&mut self, agg: &Aggregator, key: String)
        requires
            old(self).wf(),
            agg.wf(),
        ensures
            final(self).wf(),
            ({
                let g = old(self)@;
                let split_keys = toggled(g.split_keys, key@);
                final(self)@ == rehydrated(
                    GraphModel {
                        split_keys,
                        hidden_series: Set::empty(),
                        sort_column: match g.sort_column {
                            ColumnModel::SplitKey(k) => if split_keys.contains(k) {
                                g.sort_column
                            } else {
                                ColumnModel::Count
                            },
                            _ => g.sort_column,
                        },
                        ..g
                    },
                    agg@.ring,
                )
            }),
    {
        toggle(&mut self.split_keys, key);
        self.hidden_series = SortedSet::new();
        let lost: bool = match &self.sort_column {
            SortColumn::SplitKey(k) => !self.split_keys.contains(k),
            _ => false,
        };
        if lost {
            self.sort_column = SortColumn::Count;
        }
        self.rehydrate(agg);
    }

    /// Toggles what is under the cursor.
    fn toggle_split(&mut self, agg: &Aggregator)
        requires
            old(self).wf(),
            agg.wf(),
        ensures
            final(self).wf(),
            final(self)@ == split_toggled(old(self)@, agg@.ring),
    {
        let keys = self.listed_keys(agg);
        let series = self.series_keys();
        let at: usize = self.details_selected;
        assert(series.model().len() == series@.len());
        assert(keys.model().len() == keys@.len());
        if at < series.len() {
            let picked = series[at].duplicate();
            assert(picked.model() == series.model()[at as int]);
            toggle(&mut self.hidden_series, picked);
        } else if at - series.len() < keys.len() {
            let place: usize = at - series.len();
            let key = keys[place].clone();
            assert(key@ == keys.model()[place as int]);
            self.toggle_key(agg, key);
            let n: usize = self.series_keys().len();
            let wide: u128 = n as u128 + place as u128;
            self.details_selected =
            if wide > usize::MAX as u128 {
                usize::MAX
            } else {
                wide as usize
            };
        }
    }

    /// Ends the aggregation input.
    fn commit_agg(&mut self)
        requires
            old(self).wf(),
        ensures
            final(self).wf(),
            forall|ring: Seq<EntryModel>|
                final(self)@ == #[trigger] graph_after(
                    old(self)@,
                    ring,
                    Update::GraphAggInputCommit,
                ),
    {
        let typed = self.agg_input.take();
        if let Some(buf) = typed {
            if let Some(mode) = parse_agg_input(buf.as_str()) {
                self.aggregation = mode;
            }
        }
    }

    /// Ends the window input.
    fn commit_window(&mut self, agg: &Aggregator)
        requires
            old(self).wf(),
            agg.wf(),
        ensures
            final(self).wf(),
            final(self)@ == graph_after(old(self)@, agg@.ring, Update::GraphWindowInputCommit),
    {
        let typed = self.window_input.take();
        if let Some(buf) = typed {
            if let Some(w) = parse_window_input(buf.as_str()) {
                self.window_secs = w;
                self.rehydrate(agg);
            }
        }
    }

    /// Ends the lookback input.
    fn commit_lookback(&mut self)
        requires
            old(self).wf(),
        ensures
            final(self).wf(),
            forall|ring: Seq<EntryModel>|
                final(self)@ == #[trigger] graph_after(
                    old(self)@,
                    ring,
                    Update::GraphLookbackInputCommit,
                ),
    {
        let typed = self.lookback_input.take();
        if let Some(buf) = typed {
            if let Some(secs) = parse_lookback_input(buf.as_str()) {
                self.lookback_secs = secs;
            }
        }
    }

    /// Answers a message.
    pub fn apply(&mut self, agg: &Aggregator, update: &Update)
        requires
            old(self).wf(),
            agg.wf(),
        ensures
            final(self).wf(),
            final(self)@ == graph_after(old(self)@, agg@.ring, *update),
    {
        match update {
            Update::SetGraphAgg(mode) => {
                self.aggregation = *mode;
            },
            Update::ToggleGraphMetric => {
                self.metric = self.metric.next();
                self.rehydrate(agg);
            },
            Update::BeginGraphAggInput => open_modal(&mut self.agg_input),
            Update::GraphAggInputChar(c) => type_agg(&mut self.agg_input, *c),
            Update::GraphAggInputBackspace => backspace_modal(&mut self.agg_input),
            Update::GraphAggInputCancel => close_modal(&mut self.agg_input),
            Update::GraphAggInputCommit => self.commit_agg(),
            Update::BeginGraphWindowInput => open_modal(&mut self.window_input),
            Update::GraphWindowInputChar(c) => type_decimal(&mut self.window_input, *c),
            Update::GraphWindowInputBackspace => backspace_modal(&mut self.window_input),
            Update::GraphWindowInputCancel => close_modal(&mut self.window_input),
            Update::GraphWindowInputCommit => self.commit_window(agg),
            Update::BeginGraphLookbackInput => open_modal(&mut self.lookback_input),
            Update::GraphLookbackInputChar(c) => type_lookback(&mut self.lookback_input, *c),
            Update::GraphLookbackInputBackspace => backspace_modal(&mut self.lookback_input),
            Update::GraphLookbackInputCancel => close_modal(&mut self.lookback_input),
            Update::GraphLookbackInputCommit => self.commit_lookback(),
            Update::ToggleGraphTimeLabels => {
                self.time_labels = self.time_labels.next();
            },
            Update::GraphSwitchFocus => self.swap_focus(),
            Update::GraphSelectUp => {
                self.details_selected = self.details_selected.saturating_sub(1);
            },
            Update::GraphSelectDown => self.select_down(agg),
            Update::GraphToggleSplit => self.toggle_split(agg),
            Update::GraphSortColumnLeft => self.sort_left(),
            Update::GraphSortColumnRight => self.sort_right(),
            _ => {},
        }
    }
}

/// The spans that the explore view lists, in its order.
pub open spec fn listed_spans(ring: Seq<EntryModel>, es: ExploreModel) -> Seq<SpanModel> {
    matching(ring, es).map_values(|i: int| ring[i].span)
}

/// The explore view after a message.
pub open spec fn explore_after(
    es: ExploreModel,
    ring: Seq<EntryModel>,
    u: Update,
) -> ExploreModel {
    match u {
        Update::ExploreSelectUp => ExploreModel { selected: cursor_up(es.selected), ..es },
        Update::ExploreSelectDown => if es.selected + 1 < matching(ring, es).len() {
            ExploreModel { selected: index_at(es.selected + 1), ..es }
        } else {
            es
        },
        Update::ExploreSortLeft => cycled(es, distinguishing(listed_spans(ring, es)), -1),
        Update::ExploreSortRight => cycled(es, distinguishing(listed_spans(ring, es)), 1),
        Update::ExploreInvertSort => ExploreModel { direction: es.direction.spec_flip(), ..es },
        Update::BeginExploreSearch => ExploreModel {
            search_input: Some(Seq::empty()),
            selected: 0,
            ..es
        },
        Update::ExploreSearchChar(c) => ExploreModel {
            search_input: search_slot(es.search_input, c),
            ..es
        },
        Update::ExploreSearchBackspace => ExploreModel {
            search_input: backspaced(es.search_input),
            ..es
        },
        Update::ExploreSearchCancel => ExploreModel { search_input: None, selected: 0, ..es },
        Update::ExploreSearchCommit => match es.search_input {
            Some(s) => ExploreModel { search_input: None, query: s, selected: 0, ..es },
            None => es,
        },
        _ => es,
    }
}

impl ExploreState {
    /// The names of the fields that tell the listed spans apart.
    fn listed_fields(&self, agg: &Aggregator) -> (r: Vec<String>)
        requires
            agg.wf(),
        ensures
            r.model() == distinguishing(listed_spans(agg@.ring, self@)),
    {
        let spans = matching_in(agg, self);
        let r = distinguishing_fields(&spans);
        assert(spans@.map_values(|s: &WireSpan| s@) =~= listed_spans(agg@.ring, self@));
        r
    }

    /// Answers a message.
    pub fn apply(&mut self, agg: &Aggregator, update: &Update)
        requires
            agg.wf(),
        ensures
            final(self)@ == explore_after(old(self)@, agg@.ring, *update),
    {
        match update {
            Update::ExploreSelectUp => {
                self.selected = self.selected.saturating_sub(1);
            },
            Update::ExploreSelectDown => {
                let n: usize = matching_in(agg, self).len();
                if n > 0 && self.selected < n - 1 {
                    self.selected = self.selected + 1;
                }
            },
            Update::ExploreSortLeft => {
                let fields = self.listed_fields(agg);
                cycle_sort_left(self, &fields);
            },
            Update::ExploreSortRight => {
                let fields = self.listed_fields(agg);
                cycle_sort_right(self, &fields);
            },
            Update::ExploreInvertSort => {
                self.direction = self.direction.flip();
            },
            Update::BeginExploreSearch => {
                open_modal(&mut self.search_input);
                self.selected = 0;
            },
            Update::ExploreSearchChar(c) => type_search(&mut self.search_input, *c),
            Update::ExploreSearchBackspace => backspace_modal(&mut self.search_input),
            Update::ExploreSearchCancel => {
                close_modal(&mut self.search_input);
                self.selected = 0;
            },
            Update::ExploreSearchCommit => {
                let typed = self.search_input.take();
                if let Some(buf) = typed {
                    self.query = buf;
                    self.selected = 0;
                }
            },
            _ => {},
        }
    }
}

/// The span under the cursor of the trace view, if it is not on an event.
pub open spec fn trace_cursor(ring: Seq<EntryModel>, td: TraceModel) -> Option<u64> {
    let rows = trace_rows(ring, td);
    if rows.len() == 0 {
        None
    } else {
        let at = if td.selected_idx < rows.len() {
            td.selected_idx as int
        } else {
            rows.len() - 1
        };
        match rows[at] {
            TraceRow::Span { id, depth, has_children, expanded } => Some(id),
            TraceRow::Event { parent_id, idx, depth } => None,
        }
    }
}

/// The trace view after a message.
pub open spec fn trace_after(td: TraceModel, ring: Seq<EntryModel>, u: Update) -> TraceModel {
    match u {
        Update::TraceDetailSelectUp => TraceModel {
            selected_idx: cursor_up(td.selected_idx),
            ..td
        },
        Update::TraceDetailSelectDown => if td.selected_idx + 1 < trace_rows(ring, td).len() {
            TraceModel { selected_idx: index_at(td.selected_idx + 1), ..td }
        } else {
            td
        },
        Update::TraceDetailExpand => match trace_cursor(ring, td) {
            Some(id) => TraceModel { collapsed: td.collapsed.remove(id), ..td },
            None => td,
        },
        Update::TraceDetailCollapse => match trace_cursor(ring, td) {
            Some(id) => TraceModel { collapsed: td.collapsed.insert(id), ..td },
            None => td,
        },
        _ => td,
    }
}

impl TraceDetailState {
    pub open spec fn wf(&self) -> bool {
        self.collapsed.wf()
    }

    /// The span under the cursor, if it is not on an event.
    fn selected_span_id(&self, agg: &Aggregator) -> (r: Option<u64>)
        requires
            self.wf(),
            agg.wf(),
        ensures
            r == trace_cursor(agg@.ring, self@),
    {
        let rows = trace_rows_in(agg, self);
        let n: usize = rows.len();
        if n == 0 {
            return None;
        }
        let at: usize = if self.selected_idx < n {
            self.selected_idx
        } else {
            n - 1
        };
        match rows[at] {
            TraceRow::Span { id, .. } => Some(id),
            TraceRow::Event { .. } => None,
        }
    }

    /// Answers a message.
    pub fn apply(&mut self, agg: &Aggregator, update: &Update)
        requires
            old(self).wf(),
            agg.wf(),
        ensures
            final(self).wf(),
            final(self)@ == trace_after(old(self)@, agg@.ring, *update),
    {
        match update {
            Update::TraceDetailSelectUp => {
                self.selected_idx = self.selected_idx.saturating_sub(1);
            },
            Update::TraceDetailSelectDown => {
                let n: usize = trace_rows_in(agg, self).len();
                if n > 0 && self.selected_idx < n - 1 {
                    self.selected_idx = self.selected_idx + 1;
                }
            },
            Update::TraceDetailExpand => {
                if let Some(id) = self.selected_span_id(agg) {
                    let _ = self.collapsed.remove(&id);
                }
            },
            Update::TraceDetailCollapse => {
                if let Some(id) = self.selected_span_id(agg) {
                    let _ = self.collapsed.insert(id);
                }
            },
            _ => {},
        }
    }
}

} // verus!
