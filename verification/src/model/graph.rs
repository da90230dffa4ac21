//! The graph view: one line per series of the spans of a stack.

use vstd::prelude::*;

use crate::aggregate::ring::{
    as_pairs, child_sum_of, lookup, nearest_splits, sat_sub, span_total, EntryModel,
    SPLIT_DEPTH,
};
use crate::aggregate::state::Aggregator;
use crate::number::{number, read_number, read_signed_number, signed_number};
use crate::pattern::{finite, positive, times, times_of, zero, Double, BILLION, HUNDRED, ONE, SIXTY};
use crate::model::series::{
    one_second_is_a_billion, store_recorded, summaries, summary_of, window_ns_of, wiped, AggMode, GraphSeriesStore,
    SeriesKey, SeriesSummary, StoreModel, SummaryModel,
};
use crate::order::{key_order, key_order_is_strict, same, strict_order, text_less, Key, Rel};
use crate::protocol::{first_named, SpanModel, Text, WireSpan};
use crate::sorted::{ascending_is_listing, listing, SortedSet};
use crate::text::{chars_of, fold_char, folded, folded_char, same_text, text_of, trim_chars};
use crate::text::{sub_chars, trimmed};

verus! {

/// Which time of a span is drawn.
#[derive(Debug, Clone, Copy, PartialEq, Eq, Structural)]
pub enum Metric {
    /// From opening to closing.
    Total,
    /// Without the time of the children in the window.
    SelfTime,
}

impl Metric {
    pub open spec fn spec_next(self) -> Metric {
        match self {
            Metric::Total => Metric::SelfTime,
            Metric::SelfTime => Metric::Total,
        }
    }

    /// The other metric.
    pub fn next(self) -> (r: Self)
        ensures
            r == self.spec_next(),
    {
        match self {
            Metric::Total => Metric::SelfTime,
            Metric::SelfTime => Metric::Total,
        }
    }
}

/// How the ticks of the time axis are labelled.
#[derive(Debug, Clone, Copy, PartialEq, Eq, Structural)]
pub enum TimeLabels {
    /// Seconds before now.
    Delta,
    /// Wall clock in UTC.
    Unix,
    /// Wall clock in the local zone.
    Local,
}

impl Default for TimeLabels {
    fn default() -> (r: Self)
        ensures
            r == TimeLabels::Delta,
    {
        TimeLabels::Delta
    }
}

impl TimeLabels {
    pub open spec fn spec_next(self) -> TimeLabels {
        match self {
            TimeLabels::Delta => TimeLabels::Unix,
            TimeLabels::Unix => TimeLabels::Local,
            TimeLabels::Local => TimeLabels::Delta,
        }
    }

    /// The next kind of label.
    pub fn next(self) -> (r: Self)
        ensures
            r == self.spec_next(),
    {
        match self {
            TimeLabels::Delta => TimeLabels::Unix,
            TimeLabels::Unix => TimeLabels::Local,
            TimeLabels::Local => TimeLabels::Delta,
        }
    }
}

/// Which pane of the graph view has the keyboard.
#[derive(Debug, Clone, Copy, PartialEq, Eq, Structural)]
pub enum GraphFocus {
    Chart,
    Details,
}

/// The column by which the series table is sorted.
#[derive(Debug, Clone, PartialEq, Eq)]
pub enum SortColumn {
    SplitKey(String),
    Count,
    Min,
    Avg,
    Max,
    Last,
}

pub ghost enum ColumnModel {
    SplitKey(Text),
    Count,
    Min,
    Avg,
    Max,
    Last,
}

impl View for SortColumn {
    type V = ColumnModel;

    open spec fn view(&self) -> ColumnModel {
        match *self {
            SortColumn::SplitKey(k) => ColumnModel::SplitKey(k@),
            SortColumn::Count => ColumnModel::Count,
            SortColumn::Min => ColumnModel::Min,
            SortColumn::Avg => ColumnModel::Avg,
            SortColumn::Max => ColumnModel::Max,
            SortColumn::Last => ColumnModel::Last,
        }
    }
}

fn same_column(a: &SortColumn, b: &SortColumn) -> (r: bool)
    ensures
        r == (a@ == b@),
{
    match (a, b) {
        (SortColumn::SplitKey(x), SortColumn::SplitKey(y)) => same(x, y),
        (SortColumn::Count, SortColumn::Count) => true,
        (SortColumn::Min, SortColumn::Min) => true,
        (SortColumn::Avg, SortColumn::Avg) => true,
        (SortColumn::Max, SortColumn::Max) => true,
        (SortColumn::Last, SortColumn::Last) => true,
        _ => false,
    }
}

fn copy_column(c: &SortColumn) -> (r: SortColumn)
    ensures
        r@ == c@,
{
    match c {
        SortColumn::SplitKey(k) => SortColumn::SplitKey(k.clone()),
        SortColumn::Count => SortColumn::Count,
        SortColumn::Min => SortColumn::Min,
        SortColumn::Avg => SortColumn::Avg,
        SortColumn::Max => SortColumn::Max,
        SortColumn::Last => SortColumn::Last,
    }
}

/// What an aggregation input asks for: `a` or `avg`, `min`, `max`, or `p` and
/// a percentile.
pub open spec fn agg_input(s: Text) -> Option<AggMode> {
    let t = folded(trimmed(s));
    if t == "a"@ || t == "avg"@ {
        Some(AggMode::Avg)
    } else if t == "min"@ {
        Some(AggMode::Min)
    } else if t == "max"@ {
        Some(AggMode::Max)
    } else if t.len() > 0 && t[0] == 'p' {
        match number(t.skip(1)) {
            None => None,
            Some(n) => if !n.is_finite() {
                None
            } else if n.is_zero() {
                Some(AggMode::Min)
            } else if n.reaches(HUNDRED) {
                Some(AggMode::Max)
            } else {
                Some(AggMode::Percentile(n))
            },
        }
    } else {
        None
    }
}

/// Reads an aggregation input.
pub fn parse_agg_input(s: &str) -> (r: Option<AggMode>)
    ensures
        r == agg_input(s@),
{
    let raw = chars_of(s);
    let inner = trim_chars(&raw);
    let mut t: Vec<char> = Vec::new();
    let mut i: usize = 0;
    while i < inner.len()
        invariant
            i <= inner@.len(),
            t@ == folded(inner@.take(i as int)),
        decreases inner@.len() - i,
    {
        t.push(fold_char(inner[i]));
        i = i + 1;
        assert(folded(inner@.take(i as int)) =~= folded(inner@.take(i - 1)).push(
            folded_char(inner@[i - 1]),
        ));
    }
    assert(inner@.take(i as int) =~= inner@);
    let text = text_of(&t);
    if same_text(text.as_str(), "a") || same_text(text.as_str(), "avg") {
        return Some(AggMode::Avg);
    }
    if same_text(text.as_str(), "min") {
        return Some(AggMode::Min);
    }
    if same_text(text.as_str(), "max") {
        return Some(AggMode::Max);
    }
    if t.len() == 0 || t[0] != 'p' {
        return None;
    }
    let rest = sub_chars(&t, 1, t.len());
    assert(rest@ =~= t@.skip(1));
    match read_number(&rest) {
        None => None,
        Some(n) => if !finite(n) {
            None
        } else if zero(n) {
            Some(AggMode::Min)
        } else if n.bits >= HUNDRED {
            Some(AggMode::Max)
        } else {
            Some(AggMode::Percentile(n))
        },
    }
}

/// What a lookback input asks for: a positive number of seconds, or of
/// minutes where it ends in `m`.
pub open spec fn lookback_input(s: Text) -> Option<Double> {
    let t = trimmed(s);
    if t.len() == 0 {
        None
    } else {
        let digits = if t.last() == 'm' || t.last() == 's' {
            t.drop_last()
        } else {
            t
        };
        match signed_number(digits) {
            None => None,
            Some(n) => if !n.is_finite() || !n.is_positive() {
                None
            } else if t.last() == 'm' {
                Some(Double { bits: times(n.bits, 60) })
            } else {
                Some(n)
            },
        }
    }
}

/// Reads a lookback input, in seconds.
pub fn parse_lookback_input(s: &str) -> (r: Option<Double>)
    ensures
        r == lookback_input(s@),
{
    let raw = chars_of(s);
    let t = trim_chars(&raw);
    let n: usize = t.len();
    if n == 0 {
        return None;
    }
    let suffix: char = t[n - 1];
    let has_unit: bool = suffix == 'm' || suffix == 's';
    let digits = sub_chars(
        &t,
        0,
        if has_unit {
            n - 1
        } else {
            n
        },
    );
    proof {
        assert(t@.drop_last() =~= t@.subrange(0, n - 1));
        assert(t@ =~= t@.subrange(0, n as int));
    }
    match read_signed_number(&digits) {
        None => None,
        Some(v) => if !finite(v) || !positive(v) {
            None
        } else if suffix == 'm' {
            Some(Double { bits: times_of(v.bits, 60) })
        } else {
            Some(v)
        },
    }
}

/// The number by which a numeric column sorts.
pub open spec fn column_number(s: SummaryModel, column: ColumnModel) -> u64 {
    match column {
        ColumnModel::Count => s.count,
        ColumnModel::Min => s.min_ns,
        ColumnModel::Avg => s.avg_ns,
        ColumnModel::Max => s.max_ns,
        ColumnModel::Last => s.last_ns,
        ColumnModel::SplitKey(_) => 0,
    }
}

/// The value of a split key in a series key; empty when it has none.
pub open spec fn split_value(key: SeriesKey, name: Text) -> Text {
    if lookup(key).dom().contains(name) {
        lookup(key)[name]
    } else {
        Seq::empty()
    }
}

/// One series stands before another in the table: split values and minima
/// ascend, the other numbers descend.
pub open spec fn column_less(a: SummaryModel, b: SummaryModel, column: ColumnModel) -> bool {
    match column {
        ColumnModel::SplitKey(name) => text_less(
            split_value(a.key, name),
            split_value(b.key, name),
        ),
        ColumnModel::Min => a.min_ns < b.min_ns,
        _ => column_number(a, column) > column_number(b, column),
    }
}

/// Two series stand level in a column.
pub open spec fn column_same(a: SummaryModel, b: SummaryModel, column: ColumnModel) -> bool {
    match column {
        ColumnModel::SplitKey(name) => split_value(a.key, name) == split_value(b.key, name),
        _ => column_number(a, column) == column_number(b, column),
    }
}

/// The order of the series table: by the column, and by key where the column
/// says nothing.
pub open spec fn series_less(
    m: StoreModel,
    mode: AggMode,
    column: ColumnModel,
) -> spec_fn(SeriesKey, SeriesKey) -> bool {
    |a: SeriesKey, b: SeriesKey|
        {
            let x = summary_of(a, m.series[a], mode);
            let y = summary_of(b, m.series[b], mode);
            column_less(x, y, column) || (column_same(x, y, column) && <Vec<
                (String, String),
            > as Key>::less(a, b))
        }
}

/// The series in the order of the table.
pub open spec fn ordered_series(
    m: StoreModel,
    mode: AggMode,
    column: ColumnModel,
) -> Seq<SeriesKey> {
    listing(series_less(m, mode, column), m.series.dom())
}

/// The order of the series table is strict and total.
pub proof fn series_order_is_strict(m: StoreModel, mode: AggMode, column: ColumnModel)
    ensures
        strict_order(series_less(m, mode, column)),
{
    let lt = series_less(m, mode, column);
    let kl = key_order::<Vec<(String, String)>>();
    let tl = key_order::<String>();
    key_order_is_strict::<Vec<(String, String)>>();
    key_order_is_strict::<String>();
    assert forall|a: SeriesKey| !#[trigger] lt(a, a) by {
        assert(!kl(a, a));
        if let ColumnModel::SplitKey(name) = column {
            assert(!tl(split_value(a, name), split_value(a, name)));
        }
    }
    assert forall|a: SeriesKey, b: SeriesKey, c: SeriesKey| #[trigger]
        lt(a, b) && #[trigger] lt(b, c) implies lt(a, c) by {
        if let ColumnModel::SplitKey(name) = column {
            let x = split_value(a, name);
            let y = split_value(b, name);
            let z = split_value(c, name);
            if tl(x, y) && tl(y, z) {
                assert(tl(x, z));
            }
        }
        if kl(a, b) && kl(b, c) {
            assert(kl(a, c));
        }
    }
    assert forall|a: SeriesKey, b: SeriesKey| a == b || #[trigger] lt(a, b) || lt(b, a) by {
        assert(a == b || kl(a, b) || kl(b, a));
        if let ColumnModel::SplitKey(name) = column {
            let x = split_value(a, name);
            let y = split_value(b, name);
            assert(x == y || tl(x, y) || tl(y, x));
        }
    }
}

/// What a series key gives for a split key.
fn value_in<'a>(key: &'a Vec<(String, String)>, name: &String) -> (r: Option<&'a String>)
    ensures
        match r {
            Some(v) => v@ == split_value(key.model(), name@),
            None => split_value(key.model(), name@) == Seq::<char>::empty(),
        },
{
    let ghost pairs = key.model();
    let mut i: usize = 0;
    while i < key.len()
        invariant
            pairs == key.model(),
            i <= key@.len(),
            forall|j: int| 0 <= j < i ==> (#[trigger] pairs[j]).0 != name@,
        decreases key@.len() - i,
    {
        if same(&key[i].0, name) {
            proof {
                assert(pairs[i as int] == (key@[i as int].0@, key@[i as int].1@));
                assert(first_named(pairs, name@, i as int));
                let k = choose|k: int| first_named(pairs, name@, k);
                assert(first_named(pairs, name@, k));
                if k < i {
                    assert(pairs[k].0 != name@);
                } else if i < k {
                    assert(pairs[i as int].0 != name@);
                }
            }
            return Some(&key[i].1);
        }
        i = i + 1;
    }
    proof {
        if lookup(pairs).dom().contains(name@) {
            let k = choose|k: int| first_named(pairs, name@, k);
            assert(first_named(pairs, name@, k));
            assert(pairs[k].0 != name@);
        }
    }
    None
}

/// How two texts stand to each other, where a missing one counts as empty.
fn compare_values(a: Option<&String>, b: Option<&String>) -> (r: Rel)
    ensures
        ({
            let x = match a {
                Some(s) => s@,
                None => Seq::<char>::empty(),
            };
            let y = match b {
                Some(s) => s@,
                None => Seq::<char>::empty(),
            };
            &&& r is Less ==> text_less(x, y)
            &&& r is Same ==> x == y
            &&& r is Greater ==> text_less(y, x)
        }),
{
    let empty = String::new();
    let x: &String = match a {
        Some(s) => s,
        None => &empty,
    };
    let y: &String = match b {
        Some(s) => s,
        None => &empty,
    };
    x.compare(y)
}

/// Whether one summary stands before another in the table.
fn summary_before(a: &SeriesSummary, b: &SeriesSummary, column: &SortColumn) -> (r: bool)
    ensures
        r == (column_less(a@, b@, column@) || (column_same(a@, b@, column@) && <Vec<
            (String, String),
        > as Key>::less(a@.key, b@.key))),
{
    proof {
        <Vec<(String, String)> as Key>::irreflexive(a@.key);
        if let ColumnModel::SplitKey(name) = column@ {
            <String as Key>::irreflexive(split_value(a@.key, name));
            if text_less(split_value(b@.key, name), split_value(a@.key, name)) && text_less(
                split_value(a@.key, name),
                split_value(b@.key, name),
            ) {
                <String as Key>::transitive(
                    split_value(a@.key, name),
                    split_value(b@.key, name),
                    split_value(a@.key, name),
                );
            }
        }
        if <Vec<(String, String)> as Key>::less(b@.key, a@.key) && <Vec<
            (String, String),
        > as Key>::less(a@.key, b@.key) {
            <Vec<(String, String)> as Key>::transitive(a@.key, b@.key, a@.key);
        }
    }
    let rel: Rel = match column {
        SortColumn::SplitKey(name) => compare_values(value_in(&a.key, name), value_in(&b.key, name)),
        SortColumn::Count => b.count.compare(&a.count),
        SortColumn::Min => a.min_ns.compare(&b.min_ns),
        SortColumn::Avg => b.avg_ns.compare(&a.avg_ns),
        SortColumn::Max => b.max_ns.compare(&a.max_ns),
        SortColumn::Last => b.last_ns.compare(&a.last_ns),
    };
    match rel {
        Rel::Less => true,
        Rel::Greater => false,
        Rel::Same => match a.key.compare(&b.key) {
            Rel::Less => true,
            _ => false,
        },
    }
}

/// The state of the graph view.
pub struct GraphState {
    /// The stack whose spans are drawn.
    pub locked_stack: Vec<String>,
    pub aggregation: AggMode,
    pub metric: Metric,
    /// The width of a bin, in seconds.
    pub window_secs: Double,
    /// How far back the chart reaches, in seconds.
    pub lookback_secs: Double,
    pub split_keys: SortedSet<String>,
    /// Series that are not drawn.
    pub hidden_series: SortedSet<Vec<(String, String)>>,
    /// Cursor over the series rows and the split-key rows below them.
    pub details_selected: usize,
    pub focus: GraphFocus,
    pub sort_column: SortColumn,
    /// What is being typed as aggregation, if anything is.
    pub agg_input: Option<String>,
    pub window_input: Option<String>,
    pub lookback_input: Option<String>,
    pub time_labels: TimeLabels,
    pub store: GraphSeriesStore,
}

pub ghost struct GraphModel {
    pub locked_stack: Seq<Text>,
    pub aggregation: AggMode,
    pub metric: Metric,
    pub window_secs: Double,
    pub lookback_secs: Double,
    pub split_keys: Set<Text>,
    pub hidden_series: Set<SeriesKey>,
    pub details_selected: usize,
    pub focus: GraphFocus,
    pub sort_column: ColumnModel,
    pub agg_input: Option<Text>,
    pub window_input: Option<Text>,
    pub lookback_input: Option<Text>,
    pub time_labels: TimeLabels,
    pub store: StoreModel,
}

/// The characters of an input, if it is open.
pub open spec fn slot_model(slot: Option<String>) -> Option<Text> {
    match slot {
        Some(s) => Some(s@),
        None => None,
    }
}

impl View for GraphState {
    type V = GraphModel;

    open spec fn view(&self) -> GraphModel {
        GraphModel {
            locked_stack: self.locked_stack.model(),
            aggregation: self.aggregation,
            metric: self.metric,
            window_secs: self.window_secs,
            lookback_secs: self.lookback_secs,
            split_keys: self.split_keys@,
            hidden_series: self.hidden_series@,
            details_selected: self.details_selected,
            focus: self.focus,
            sort_column: self.sort_column@,
            agg_input: slot_model(self.agg_input),
            window_input: slot_model(self.window_input),
            lookback_input: slot_model(self.lookback_input),
            time_labels: self.time_labels,
            store: self.store@,
        }
    }
}

/// The graph view as it is entered, before it is filled.
pub open spec fn fresh_graph(stack: Seq<Text>) -> GraphModel {
    let one = Double { bits: ONE };
    GraphModel {
        locked_stack: stack,
        aggregation: AggMode::Avg,
        metric: Metric::Total,
        window_secs: one,
        lookback_secs: Double { bits: SIXTY },
        split_keys: Set::empty(),
        hidden_series: Set::empty(),
        details_selected: 0,
        focus: GraphFocus::Chart,
        sort_column: ColumnModel::Count,
        agg_input: None,
        window_input: None,
        lookback_input: None,
        time_labels: TimeLabels::Delta,
        store: StoreModel {
            origin_ns: None,
            window_ns: BILLION,
            latest_bin_idx: 0,
            series: Map::empty(),
        },
    }
}

/// The columns of the series table, from left to right.
pub open spec fn table_columns(split_keys: Set<Text>) -> Seq<ColumnModel> {
    listing(key_order::<String>(), split_keys).map_values(
        |name: Text| ColumnModel::SplitKey(name),
    ) + seq![
        ColumnModel::Count,
        ColumnModel::Min,
        ColumnModel::Avg,
        ColumnModel::Max,
        ColumnModel::Last,
    ]
}

/// The column left of the given one; from the first, or an unknown one, the
/// last.
pub open spec fn column_left(columns: Seq<ColumnModel>, at: ColumnModel) -> ColumnModel {
    if columns.contains(at) && columns.index_of(at) > 0 {
        columns[columns.index_of(at) - 1]
    } else {
        columns.last()
    }
}

/// The column right of the given one; from the last, or an unknown one, the
/// first.
pub open spec fn column_right(columns: Seq<ColumnModel>, at: ColumnModel) -> ColumnModel {
    if columns.contains(at) && columns.index_of(at) + 1 < columns.len() {
        columns[columns.index_of(at) + 1]
    } else {
        columns[0]
    }
}

/// The time of a span that is drawn.
pub open spec fn drawn_value(g: GraphModel, ring: Seq<EntryModel>, span: SpanModel) -> u64 {
    match g.metric {
        Metric::Total => span_total(span),
        Metric::SelfTime => sat_sub(
            span_total(span),
            child_sum_of(ring, span.id),
        ),
    }
}

/// The graph after a span has been drawn.
pub open spec fn drawn(g: GraphModel, ring: Seq<EntryModel>, span: SpanModel) -> GraphModel {
    match span.closed_at_ns {
        None => g,
        Some(closed) => GraphModel {
            store: store_recorded(
                g.store,
                as_pairs(nearest_splits(ring, Some(span.id), g.split_keys, SPLIT_DEPTH as nat)),
                closed,
                drawn_value(g, ring, span),
            ),
            ..g
        },
    }
}

/// The graph after the first `n` spans of the window have been drawn, as far
/// as they have its stack.
pub open spec fn drawn_upto(g: GraphModel, ring: Seq<EntryModel>, n: int) -> GraphModel
    decreases n,
{
    if n <= 0 {
        g
    } else {
        let before = drawn_upto(g, ring, n - 1);
        if ring[n - 1].bucket.stack == g.locked_stack {
            drawn(before, ring, ring[n - 1].span)
        } else {
            before
        }
    }
}

/// The graph drawn anew from the window.
pub open spec fn rehydrated(g: GraphModel, ring: Seq<EntryModel>) -> GraphModel {
    drawn_upto(
        GraphModel {
            store: wiped(StoreModel { window_ns: window_ns_of(g.window_secs), ..g.store }),
            ..g
        },
        ring,
        ring.len() as int,
    )
}

/// Drawing changes nothing but the store.
pub proof fn drawn_keeps_settings(g: GraphModel, ring: Seq<EntryModel>, n: int)
    ensures
        drawn_upto(g, ring, n) == (GraphModel { store: drawn_upto(g, ring, n).store, ..g }),
    decreases n,
{
    if n > 0 {
        drawn_keeps_settings(g, ring, n - 1);
    }
}

impl GraphState {
    pub open spec fn wf(&self) -> bool {
        &&& self.split_keys.wf()
        &&& self.hidden_series.wf()
        &&& self.store.wf()
    }

    pub fn new(locked_stack: Vec<String>) -> (g: Self)
        ensures
            g.wf(),
            g@ == fresh_graph(locked_stack.model()),
    {
        let window_secs = Double { bits: ONE };
        proof {
            one_second_is_a_billion();
        }
        GraphState {
            locked_stack,
            aggregation: AggMode::Avg,
            metric: Metric::Total,
            window_secs,
            lookback_secs: Double { bits: SIXTY },
            split_keys: SortedSet::new(),
            hidden_series: SortedSet::new(),
            details_selected: 0,
            focus: GraphFocus::Chart,
            sort_column: SortColumn::Count,
            agg_input: None,
            window_input: None,
            lookback_input: None,
            time_labels: TimeLabels::Delta,
            store: GraphSeriesStore::new(window_secs),
        }
    }

    /// The columns of the series table, from left to right.
    pub fn series_table_columns(&self) -> (r: Vec<SortColumn>)
        requires
            self.wf(),
        ensures
            r@.map_values(|c: SortColumn| c@) == table_columns(self@.split_keys),
    {
        let mut cols: Vec<SortColumn> = Vec::new();
        let mut i: usize = 0;
        while i < self.split_keys.len()
            invariant
                i <= self.split_keys.listed().len(),
                cols@.len() == i,
                forall|j: int|
                    0 <= j < i ==> (#[trigger] cols@[j])@ == ColumnModel::SplitKey(
                        self.split_keys.listed()[j],
                    ),
            decreases self.split_keys.listed().len() - i,
        {
            cols.push(SortColumn::SplitKey(self.split_keys.at(i).clone()));
            i = i + 1;
        }
        cols.push(SortColumn::Count);
        cols.push(SortColumn::Min);
        cols.push(SortColumn::Avg);
        cols.push(SortColumn::Max);
        cols.push(SortColumn::Last);
        proof {
            self.split_keys.listed_is_listing();
            assert(cols@.map_values(|c: SortColumn| c@) =~= table_columns(self@.split_keys));
        }
        cols
    }

    /// The keys of all series, ascending.
    pub fn alpha_series_keys(&self) -> (r: Vec<Vec<(String, String)>>)
        requires
            self.wf(),
        ensures
            r.model() == listing(key_order::<Vec<(String, String)>>(), self@.store.series.dom()),
    {
        let rolled = self.store.series_summary(self.aggregation);
        let mut out: Vec<Vec<(String, String)>> = Vec::new();
        let mut i: usize = 0;
        while i < rolled.len()
            invariant
                i <= rolled@.len(),
                out@.len() == i,
                forall|j: int|
                    0 <= j < i ==> (#[trigger] out@[j]).model() == rolled@[j]@.key,
            decreases rolled@.len() - i,
        {
            out.push(rolled[i].key.duplicate());
            i = i + 1;
        }
        proof {
            let keys = listing(key_order::<Vec<(String, String)>>(), self@.store.series.dom());
            let all = rolled@.map_values(|s: SeriesSummary| s@);
            assert(all == summaries(self@.store, self.aggregation));
            assert(all.len() == keys.len() && all.len() == rolled@.len());
            assert forall|j: int| 0 <= j < keys.len() implies #[trigger] out.model()[j]
                == keys[j] by {
                assert(all[j] == summary_of(
                    keys[j],
                    self@.store.series[keys[j]],
                    self.aggregation,
                ));
                assert(rolled@[j]@ == all[j]);
                assert(out@[j].model() == keys[j]);
            }
            assert(out.model() =~= keys);
        }
        out
    }

    /// The keys of all series in the order of the table.
    pub fn series_keys(&self) -> (r: Vec<Vec<(String, String)>>)
        requires
            self.wf(),
        ensures
            r.model() == ordered_series(self@.store, self@.aggregation, self@.sort_column),
    {
        let ghost m = self@.store;
        let ghost lt = series_less(m, self.aggregation, self.sort_column@);
        let ghost keys = listing(key_order::<Vec<(String, String)>>(), m.series.dom());
        let rolled = self.store.series_summary(self.aggregation);
        let ghost all = rolled@.map_values(|s: SeriesSummary| s@);
        let mut out: Vec<Vec<(String, String)>> = Vec::new();
        // Positions in `rolled`, in the order of the table.
        let mut order: Vec<usize> = Vec::new();
        let mut i: usize = 0;
        proof {
            series_order_is_strict(m, self.aggregation, self.sort_column@);
            key_order_is_strict::<Vec<(String, String)>>();
            self.store_keys_listed();
            assert(all == summaries(m, self.aggregation));
            assert(all.len() == keys.len() && all.len() == rolled@.len());
            assert forall|j: int| 0 <= j < keys.len() implies (#[trigger] all[j]).key == keys[j]
                && all[j] == summary_of(keys[j], m.series[keys[j]], self.aggregation) by {
            }
        }
        while i < rolled.len()
            invariant
                strict_order(lt),
                lt == series_less(m, self.aggregation, self.sort_column@),
                all == rolled@.map_values(|s: SeriesSummary| s@),
                keys.len() == rolled@.len(),
                keys.no_duplicates(),
                forall|j: int|
                    0 <= j < keys.len() ==> (#[trigger] all[j]).key == keys[j] && all[j]
                        == summary_of(keys[j], m.series[keys[j]], self.aggregation),
                i <= rolled@.len(),
                order@.len() == i,
                forall|j: int| 0 <= j < i ==> (#[trigger] order@[j]) < i,
                forall|x: usize| x < i ==> #[trigger] order@.contains(x),
                forall|a: int, b: int|
                    0 <= a < b < i ==> lt(
                        keys[#[trigger] order@[a] as int],
                        keys[#[trigger] order@[b] as int],
                    ),
            decreases rolled@.len() - i,
        {
            let mut p: usize = order.len();
            let mut placed: bool = false;
            while p > 0 && !placed
                invariant
                    strict_order(lt),
                    lt == series_less(m, self.aggregation, self.sort_column@),
                    all == rolled@.map_values(|s: SeriesSummary| s@),
                    keys.len() == rolled@.len(),
                    forall|j: int|
                        0 <= j < keys.len() ==> (#[trigger] all[j]).key == keys[j] && all[j]
                            == summary_of(keys[j], m.series[keys[j]], self.aggregation),
                    i < rolled@.len(),
                    order@.len() == i,
                    p <= i,
                    forall|j: int| 0 <= j < i ==> (#[trigger] order@[j]) < i,
                    forall|b: int|
                        p <= b < i ==> lt(keys[i as int], keys[#[trigger] order@[b] as int]),
                    placed ==> p > 0 && !lt(keys[i as int], keys[order@[p - 1] as int]),
                decreases p, (if placed { 0int } else { 1int }),
            {
                let before: bool = summary_before(
                    &rolled[i],
                    &rolled[order[p - 1]],
                    &self.sort_column,
                );
                proof {
                    let q = order@[p - 1] as int;
                    assert(all[i as int] == rolled@[i as int]@);
                    assert(all[q] == rolled@[q]@);
                    assert(before == lt(keys[i as int], keys[q]));
                }
                if before {
                    p = p - 1;
                } else {
                    placed = true;
                }
            }
            let ghost had = order@;
            order.insert(p, i);
            proof {
                let now = order@;
                assert(now =~= had.insert(p as int, i));
                assert forall|b: int| 0 <= b < p implies lt(
                    keys[#[trigger] had[b] as int],
                    keys[i as int],
                ) by {
                    let q = had[p - 1] as int;
                    assert(keys[q] != keys[i as int]);
                    assert(lt(keys[q], keys[i as int]) || lt(keys[i as int], keys[q]));
                    if b < p - 1 {
                        assert(lt(keys[had[b] as int], keys[q]));
                    }
                }
                assert forall|a: int, b: int| 0 <= a < b < i + 1 implies lt(
                    keys[#[trigger] now[a] as int],
                    keys[#[trigger] now[b] as int],
                ) by {
                    let aa = if a < p { a } else { a - 1 };
                    let bb = if b < p { b } else { b - 1 };
                    if a != p {
                        assert(now[a] == had[aa]);
                    }
                    if b != p {
                        assert(now[b] == had[bb]);
                    }
                }
                assert forall|x: usize| x < i + 1 implies #[trigger] now.contains(x) by {
                    if x == i {
                        assert(now[p as int] == i);
                    } else {
                        assert(had.contains(x));
                        let q = choose|q: int| 0 <= q < had.len() && had[q] == x;
                        assert(now[if q < p { q } else { q + 1 }] == x);
                    }
                }
                assert forall|j: int| 0 <= j < i + 1 implies (#[trigger] now[j]) < i + 1 by {
                    if j != p {
                        assert(now[j] == had[if j < p { j } else { j - 1 }]);
                    }
                }
            }
            i = i + 1;
        }
        let mut k: usize = 0;
        while k < order.len()
            invariant
                k <= order@.len(),
                all == rolled@.map_values(|s: SeriesSummary| s@),
                keys.len() == rolled@.len(),
                forall|j: int| 0 <= j < keys.len() ==> (#[trigger] all[j]).key == keys[j],
                forall|j: int|
                    0 <= j < order@.len() ==> (#[trigger] order@[j]) < rolled@.len(),
                out@.len() == k,
                forall|j: int|
                    0 <= j < k ==> (#[trigger] out@[j]).model() == keys[order@[j] as int],
            decreases order@.len() - k,
        {
            assert(all[order@[k as int] as int] == rolled@[order@[k as int] as int]@);
            out.push(rolled[order[k]].key.duplicate());
            k = k + 1;
        }
        proof {
            let got = out.model();
            assert forall|a: int, b: int| 0 <= a < b < got.len() implies lt(
                #[trigger] got[a],
                #[trigger] got[b],
            ) by {
                assert(lt(keys[order@[a] as int], keys[order@[b] as int]));
            }
            assert(got.to_set() =~= m.series.dom()) by {
                assert forall|x: SeriesKey| got.contains(x) == m.series.dom().contains(x) by {
                    assert(keys.to_set().contains(x) == m.series.dom().contains(x));
                    if keys.contains(x) {
                        let q = choose|q: int| 0 <= q < keys.len() && keys[q] == x;
                        assert(order@.contains(q as usize));
                        let j = choose|j: int| 0 <= j < order@.len() && order@[j] == q as usize;
                        assert(got[j] == x);
                    }
                    if got.contains(x) {
                        let j = choose|j: int| 0 <= j < got.len() && got[j] == x;
                        assert(keys[order@[j] as int] == x);
                    }
                }
            }
            ascending_is_listing(lt, got);
        }
        out
    }

    /// The listing of the series keys lists them all, once.
    proof fn store_keys_listed(&self)
        requires
            self.wf(),
        ensures
            ({
                let keys = listing(key_order::<Vec<(String, String)>>(), self@.store.series.dom());
                keys.no_duplicates() && keys.to_set() == self@.store.series.dom()
            }),
    {
        self.store.keys_listed();
    }

    /// Draws a span that has the graph's stack.
    pub fn record_span(&mut self, agg: &Aggregator, span: &WireSpan)
        requires
            old(self).wf(),
            agg.wf(),
        ensures
            final(self).wf(),
            final(self)@ == drawn(old(self)@, agg@.ring, span@),
    {
        let closed: u64 = match span.closed_at_ns {
            Some(closed) => closed,
            None => return ,
        };
        let total: u64 = closed.saturating_sub(span.opened_at_ns);
        let value: u64 = match self.metric {
            Metric::Total => total,
            Metric::SelfTime => total.saturating_sub(agg.child_sum_for(span.id)),
        };
        let key = agg.collect_splits_for(span.id, &self.split_keys);
        self.store.record(key, closed, value);
    }

    /// Draws the spans of the window anew.
    pub fn rehydrate(&mut self, agg: &Aggregator)
        requires
            old(self).wf(),
            agg.wf(),
        ensures
            final(self).wf(),
            final(self)@ == rehydrated(old(self)@, agg@.ring),
    {
        let ghost ring = agg@.ring;
        self.store.reset_window(self.window_secs);
        let ghost start = self@;
        let spans = agg.iter_with_stack();
        let mut i: usize = 0;
        while i < spans.len()
            invariant
                self.wf(),
                agg.wf(),
                ring == agg@.ring,
                i <= spans@.len(),
                spans@.len() == ring.len(),
                forall|k: int|
                    0 <= k < spans@.len() ==> (#[trigger] spans@[k]).0@ == ring[k].span
                        && spans@[k].1.model() == ring[k].bucket.stack,
                self@ == drawn_upto(start, ring, i as int),
                self@.locked_stack == start.locked_stack,
            decreases spans@.len() - i,
        {
            let (span, stack) = spans[i];
            if same(stack, &self.locked_stack) {
                self.record_span(agg, span);
            }
            i = i + 1;
        }
    }

    /// Sorts by the column left of the current one.
    pub fn sort_left(&mut self)
        requires
            old(self).wf(),
        ensures
            final(self).wf(),
            final(self)@ == (GraphModel {
                sort_column: column_left(
                    table_columns(old(self)@.split_keys),
                    old(self)@.sort_column,
                ),
                ..old(self)@
            }),
    {
        let cols = self.series_table_columns();
        let at = self.column_position(&cols);
        let next = match at {
            Some(i) => if i > 0 {
                copy_column(&cols[i - 1])
            } else {
                copy_column(&cols[cols.len() - 1])
            },
            None => copy_column(&cols[cols.len() - 1]),
        };
        self.sort_column = next;
    }

    /// Sorts by the column right of the current one.
    pub fn sort_right(&mut self)
        requires
            old(self).wf(),
        ensures
            final(self).wf(),
            final(self)@ == (GraphModel {
                sort_column: column_right(
                    table_columns(old(self)@.split_keys),
                    old(self)@.sort_column,
                ),
                ..old(self)@
            }),
    {
        let cols = self.series_table_columns();
        let at = self.column_position(&cols);
        let n: usize = cols.len();
        let next = match at {
            Some(i) => if i < n - 1 {
                copy_column(&cols[i + 1])
            } else {
                copy_column(&cols[0])
            },
            None => copy_column(&cols[0]),
        };
        self.sort_column = next;
    }

    /// Where the current sort column stands.
    fn column_position(&self, cols: &Vec<SortColumn>) -> (r: Option<usize>)
        requires
            self.wf(),
            cols@.map_values(|c: SortColumn| c@) == table_columns(self@.split_keys),
        ensures
            ({
                let columns = table_columns(self@.split_keys);
                match r {
                    Some(i) => i < columns.len() && columns.contains(self@.sort_column)
                        && columns.index_of(self@.sort_column) == i,
                    None => !columns.contains(self@.sort_column),
                }
            }),
            cols@.len() == table_columns(self@.split_keys).len(),
            forall|j: int|
                0 <= j < cols@.len() ==> (#[trigger] cols@[j])@ == table_columns(
                    self@.split_keys,
                )[j],
            cols@.len() >= 5,
    {
        let ghost columns = table_columns(self@.split_keys);
        let mut i: usize = 0;
        proof {
            assert forall|j: int| 0 <= j < cols@.len() implies (#[trigger] cols@[j])@
                == columns[j] by {
                assert(cols@.map_values(|c: SortColumn| c@)[j] == cols@[j]@);
            }
        }
        while i < cols.len()
            invariant
                columns == table_columns(self@.split_keys),
                cols@.len() == columns.len(),
                forall|j: int| 0 <= j < cols@.len() ==> (#[trigger] cols@[j])@ == columns[j],
                i <= cols@.len(),
                forall|j: int| 0 <= j < i ==> columns[j] != self@.sort_column,
                self.wf(),
            decreases cols@.len() - i,
        {
            if same_column(&cols[i], &self.sort_column) {
                proof {
                    self.columns_distinct();
                    assert(columns[i as int] == self@.sort_column);
                    let k = columns.index_of(self@.sort_column);
                    assert(columns[k] == columns[i as int]);
                }
                return Some(i);
            }
            i = i + 1;
        }
        None
    }

    /// No column occurs twice.
    proof fn columns_distinct(&self)
        requires
            self.wf(),
        ensures
            table_columns(self@.split_keys).no_duplicates(),
    {
        self.split_keys.listed_is_listing();
    }
}

} // verus!
