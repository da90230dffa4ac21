//! The console: everything it shows, and how messages move it.

use vstd::prelude::*;

use crate::aggregate::ring::{
    absorbed, has_id, index_of_id, resplit, rows_model, rows_of, AggModel, EntryModel,
};
use crate::aggregate::state::Aggregator;
use crate::aggregate::types::{BucketKey, KeyModel, StackStats};
use crate::aggregate::util::{candidate_split_keys_for, candidates};
use crate::pattern::Double;
use crate::model::explore::{
    find_root_in, fresh_explore, matching_in, root_of, ExploreModel, ExploreState, TraceDetailState,
    TraceModel, ROOT_STEPS,
};
use crate::model::graph::{
    drawn, fresh_graph, rehydrated, slot_model, GraphModel, GraphState,
};
use crate::model::input::{
    backspace_modal, backspaced, chance_input, close_modal, decimal_slot, open_modal,
    parse_chance_input, type_decimal,
};
use crate::model::rate::{rate_recorded, RateModel, RateTracker, BUCKETS};
use crate::model::steps::{
    cursor_down, cursor_up, explore_after, graph_after, listed_spans, move_down, toggle, toggled,
    trace_after,
};
use crate::model::update::{Effect, EffectModel, Update};
use crate::order::{same, Key};
use crate::protocol::{Text, WireLevelFilter, WireSpan};
use crate::sorted::SortedSet;
use crate::text::same_text;

verus! {

/// The version of this program.
pub const CLIENT_VERSION: &'static str = "0.1.0";

/// The question whether to switch to the version of the host.
#[derive(Debug, Clone, PartialEq, Eq)]
pub struct ConfirmVersionSwitch {
    /// The host's version when the question came up.
    pub server_version: String,
    pub status: ConfirmStatus,
}

/// How far a version switch has come.
#[derive(Debug, Clone, PartialEq, Eq)]
pub enum ConfirmStatus {
    /// The user is asked.
    Confirming,
    /// The installer runs. It cannot be stopped.
    Running,
    /// The installer failed and printed this.
    Failed(String),
    /// The new program is installed; the user is asked whether to start it.
    Restart,
}

pub ghost enum StatusModel {
    Confirming,
    Running,
    Failed(Text),
    Restart,
}

pub ghost struct ConfirmModel {
    pub server_version: Text,
    pub status: StatusModel,
}

impl Default for ConfirmStatus {
    fn default() -> (r: Self)
        ensures
            r@ == StatusModel::Confirming,
    {
        ConfirmStatus::Confirming
    }
}

impl View for ConfirmStatus {
    type V = StatusModel;

    open spec fn view(&self) -> StatusModel {
        match self {
            ConfirmStatus::Confirming => StatusModel::Confirming,
            ConfirmStatus::Running => StatusModel::Running,
            ConfirmStatus::Failed(s) => StatusModel::Failed(s@),
            ConfirmStatus::Restart => StatusModel::Restart,
        }
    }
}

impl View for ConfirmVersionSwitch {
    type V = ConfirmModel;

    open spec fn view(&self) -> ConfirmModel {
        ConfirmModel { server_version: self.server_version@, status: self.status@ }
    }
}

/// The pane that the keys move.
#[derive(Debug, Clone, Copy, PartialEq, Eq, Structural)]
pub enum Focus {
    Stacks,
    Details,
}

#[derive(Debug, Clone)]
pub enum ConnectionStatus {
    Connecting,
    Connected,
    /// Not connected, for this reason.
    Disconnected(String),
}

pub ghost enum ConnectionModel {
    Connecting,
    Connected,
    Disconnected(Text),
}

impl View for ConnectionStatus {
    type V = ConnectionModel;

    open spec fn view(&self) -> ConnectionModel {
        match self {
            ConnectionStatus::Connecting => ConnectionModel::Connecting,
            ConnectionStatus::Connected => ConnectionModel::Connected,
            ConnectionStatus::Disconnected(s) => ConnectionModel::Disconnected(s@),
        }
    }
}

/// What fills the screen.
pub enum ViewMode {
    Table,
    Graph(GraphState),
    Explore(ExploreState),
    TraceDetail(TraceDetailState),
}

pub ghost enum ViewModel {
    Table,
    Graph(GraphModel),
    Explore(ExploreModel),
    TraceDetail(TraceModel),
}

impl View for ViewMode {
    type V = ViewModel;

    open spec fn view(&self) -> ViewModel {
        match self {
            ViewMode::Table => ViewModel::Table,
            ViewMode::Graph(g) => ViewModel::Graph(g@),
            ViewMode::Explore(e) => ViewModel::Explore(e@),
            ViewMode::TraceDetail(t) => ViewModel::TraceDetail(t@),
        }
    }
}

impl ViewMode {
    pub open spec fn wf(&self) -> bool {
        match self {
            ViewMode::Graph(g) => g.wf(),
            ViewMode::TraceDetail(t) => t.wf(),
            _ => true,
        }
    }
}

/// The recording levels that can be asked for, in the order shown.
pub fn level_options() -> (r: Vec<WireLevelFilter>)
    ensures
        r@ == seq![
            WireLevelFilter::Off,
            WireLevelFilter::Info,
            WireLevelFilter::Debug,
            WireLevelFilter::Trace,
        ],
{
    vec![
        WireLevelFilter::Off,
        WireLevelFilter::Info,
        WireLevelFilter::Debug,
        WireLevelFilter::Trace,
    ]
}

/// A row of the stack tree that is shown.
#[derive(Debug, Clone)]
pub struct VisibleRow {
    pub key: BucketKey,
    pub stats: StackStats,
    pub depth: usize,
    pub has_children: bool,
    pub is_expanded: bool,
}

pub ghost struct RowModel {
    pub key: KeyModel,
    pub stats: StackStats,
    pub depth: int,
    pub has_children: bool,
    pub is_expanded: bool,
}

impl View for VisibleRow {
    type V = RowModel;

    open spec fn view(&self) -> RowModel {
        RowModel {
            key: self.key.model(),
            stats: self.stats,
            depth: self.depth as int,
            has_children: self.has_children,
            is_expanded: self.is_expanded,
        }
    }
}

/// `base` begins the stack.
pub open spec fn begins(base: Seq<Text>, stack: Seq<Text>) -> bool {
    base.len() <= stack.len() && stack.take(base.len() as int) == base
}

/// Every ancestor of a row is expanded.
pub open spec fn row_shown(expanded: Set<Seq<Text>>, stack: Seq<Text>) -> bool {
    forall|k: int| 1 <= k < stack.len() ==> expanded.contains(#[trigger] stack.take(k))
}

/// A later row lies below row `i`.
pub open spec fn row_below(rows: Seq<(KeyModel, StackStats)>, i: int) -> bool {
    exists|j: int|
        i < j < rows.len() && (#[trigger] rows[j]).0.stack.len() > rows[i].0.stack.len() && begins(
            rows[i].0.stack,
            rows[j].0.stack,
        )
}

/// Row `i` as it is shown.
pub open spec fn shown_row(
    rows: Seq<(KeyModel, StackStats)>,
    expanded: Set<Seq<Text>>,
    i: int,
) -> RowModel {
    let stack = rows[i].0.stack;
    RowModel {
        key: rows[i].0,
        stats: rows[i].1,
        depth: if stack.len() > 0 {
            stack.len() - 1
        } else {
            0
        },
        has_children: row_below(rows, i),
        is_expanded: expanded.contains(stack),
    }
}

/// What is shown of the first `n` rows.
pub open spec fn shown_upto(
    rows: Seq<(KeyModel, StackStats)>,
    expanded: Set<Seq<Text>>,
    n: int,
) -> Seq<RowModel>
    decreases n,
{
    if n <= 0 {
        Seq::empty()
    } else {
        let before = shown_upto(rows, expanded, n - 1);
        if row_shown(expanded, rows[n - 1].0.stack) {
            before.push(shown_row(rows, expanded, n - 1))
        } else {
            before
        }
    }
}

/// The rows of the stack tree that are shown.
pub open spec fn shown_rows(ring: Seq<EntryModel>, expanded: Set<Seq<Text>>) -> Seq<RowModel> {
    let rows = rows_of(ring);
    shown_upto(rows, expanded, rows.len() as int)
}

/// Everything the console holds.
pub struct Model {
    /// The window of recent spans and its statistics.
    pub agg: Aggregator,
    /// The stacks below which rows are shown.
    pub expanded: SortedSet<Vec<String>>,
    /// The cursor over the stacks.
    pub selected: usize,
    /// The cursor over the details.
    pub details_selected: usize,
    pub focus: Focus,
    pub connection: ConnectionStatus,
    pub status: Option<String>,
    pub history_budget: usize,
    /// The recording level that the host last told.
    pub cache_level: Option<WireLevelFilter>,
    /// The recording chance that the host last told, in percent.
    pub cache_chance: Option<Double>,
    /// The version that the host last told.
    pub server_version: Option<String>,
    /// The question whether to switch to the host's version, while it
    /// stands.
    pub confirm_version_switch: Option<ConfirmVersionSwitch>,
    /// When the question whether to quit goes away, while it stands.
    pub quit_confirm_deadline: Option<u64>,
    /// What is being typed as recording chance, if anything is.
    pub chance_input: Option<String>,
    pub view: ViewMode,
    /// How often spans arrive.
    pub rate: RateTracker,
}

pub ghost struct ConsoleModel {
    pub agg: AggModel,
    pub expanded: Set<Seq<Text>>,
    pub selected: usize,
    pub details_selected: usize,
    pub focus: Focus,
    pub connection: ConnectionModel,
    pub status: Option<Text>,
    pub history_budget: usize,
    pub cache_level: Option<WireLevelFilter>,
    pub cache_chance: Option<Double>,
    pub server_version: Option<Text>,
    pub confirm_version_switch: Option<ConfirmModel>,
    pub quit_confirm_deadline: Option<u64>,
    pub chance_input: Option<Text>,
    pub view: ViewModel,
    pub rate: RateModel,
}

pub open spec fn confirm_model(c: Option<ConfirmVersionSwitch>) -> Option<ConfirmModel> {
    match c {
        Some(c) => Some(c@),
        None => None,
    }
}

impl View for Model {
    type V = ConsoleModel;

    open spec fn view(&self) -> ConsoleModel {
        ConsoleModel {
            agg: self.agg@,
            expanded: self.expanded@,
            selected: self.selected,
            details_selected: self.details_selected,
            focus: self.focus,
            connection: self.connection@,
            status: slot_model(self.status),
            history_budget: self.history_budget,
            cache_level: self.cache_level,
            cache_chance: self.cache_chance,
            server_version: slot_model(self.server_version),
            confirm_version_switch: confirm_model(self.confirm_version_switch),
            quit_confirm_deadline: self.quit_confirm_deadline,
            chance_input: slot_model(self.chance_input),
            view: self.view@,
            rate: self.rate@,
        }
    }
}

/// The console as it starts.
pub open spec fn fresh_console(history_budget: usize) -> ConsoleModel {
    ConsoleModel {
        agg: AggModel {
            ring: Seq::empty(),
            pending: Seq::empty(),
            split_keys: Set::empty(),
            budget: history_budget as nat,
        },
        expanded: Set::empty(),
        selected: 0,
        details_selected: 0,
        focus: Focus::Stacks,
        connection: ConnectionModel::Connecting,
        status: None,
        history_budget,
        cache_level: None,
        cache_chance: None,
        server_version: None,
        confirm_version_switch: None,
        quit_confirm_deadline: None,
        chance_input: None,
        view: ViewModel::Table,
        rate: RateModel { recent: Seq::new(BUCKETS as nat, |i: int| 0u32), started: None },
    }
}

impl ConsoleModel {
    pub open spec fn rows(self) -> Seq<RowModel> {
        shown_rows(self.agg.ring, self.expanded)
    }

    /// The row under the cursor, or the last where the cursor is below it.
    pub open spec fn selected_row(self) -> Option<RowModel> {
        let rows = self.rows();
        if rows.len() == 0 {
            None
        } else if self.selected < rows.len() {
            Some(rows[self.selected as int])
        } else {
            Some(rows.last())
        }
    }

    /// The keys by which the table may be split.
    pub open spec fn split_candidates(self) -> Seq<Text> {
        match self.selected_row() {
            Some(row) => candidates(self.agg.ring, row.key.stack),
            None => Seq::empty(),
        }
    }

    /// How many rows the pane in focus has.
    pub open spec fn pane_len(self) -> nat {
        match self.focus {
            Focus::Stacks => self.rows().len(),
            Focus::Details => self.split_candidates().len(),
        }
    }

    pub open spec fn cursor(self) -> usize {
        match self.focus {
            Focus::Stacks => self.selected,
            Focus::Details => self.details_selected,
        }
    }

    pub open spec fn with_cursor(self, at: usize) -> ConsoleModel {
        match self.focus {
            Focus::Stacks => ConsoleModel { selected: at, ..self },
            Focus::Details => ConsoleModel { details_selected: at, ..self },
        }
    }

    /// The stack at hand: that of the row under the cursor, or that of the
    /// view.
    pub open spec fn stack_at_hand(self) -> Option<Seq<Text>> {
        match self.view {
            ViewModel::Table => match self.selected_row() {
                Some(row) => Some(row.key.stack),
                None => None,
            },
            ViewModel::Graph(g) => Some(g.locked_stack),
            ViewModel::Explore(es) => Some(es.locked_stack),
            ViewModel::TraceDetail(td) => Some(td.explore.locked_stack),
        }
    }

    /// The recording level to ask for when the paused views are left.
    pub open spec fn resumed_level(self) -> Option<WireLevelFilter> {
        let explore = match self.view {
            ViewModel::Explore(es) => Some(es),
            ViewModel::TraceDetail(td) => Some(td.explore),
            _ => None,
        };
        match explore {
            Some(es) => Some(
                match es.restore_level {
                    Some(level) => level,
                    None => WireLevelFilter::Trace,
                },
            ),
            None => None,
        }
    }
}

/// A graph after the spans with the first `n` of some ids have been drawn,
/// as far as they have its stack.
pub open spec fn drawn_ids(
    g: GraphModel,
    ring: Seq<EntryModel>,
    ids: Seq<u64>,
    n: int,
) -> GraphModel
    decreases n,
{
    if n <= 0 {
        g
    } else {
        let before = drawn_ids(g, ring, ids, n - 1);
        let id = ids[n - 1];
        if has_id(ring, id) && ring[index_of_id(ring, id)].bucket.stack == g.locked_stack {
            drawn(before, ring, ring[index_of_id(ring, id)].span)
        } else {
            before
        }
    }
}

/// A span arrived. A graph draws every span that joined the window with it.
pub open spec fn span_taken(m: ConsoleModel, span: crate::protocol::SpanModel, now: u64) -> ConsoleModel {
    let (agg, ids) = absorbed(m.agg, span);
    ConsoleModel {
        agg,
        rate: rate_recorded(m.rate, now),
        view: match m.view {
            ViewModel::Graph(g) => ViewModel::Graph(
                drawn_ids(g, agg.ring, ids, ids.len() as int),
            ),
            _ => m.view,
        },
        ..m
    }
}

/// The stacks from `root` on down to what lies directly above a row.
pub open spec fn opened_below(
    rows: Seq<(KeyModel, StackStats)>,
    root: Seq<Text>,
) -> Set<Seq<Text>> {
    Set::new(
        |s: Seq<Text>|
            exists|i: int|
                0 <= i < rows.len() && begins(root, #[trigger] rows[i].0.stack) && begins(root, s)
                    && begins(s, rows[i].0.stack) && s.len() < rows[i].0.stack.len(),
    )
}

/// The stacks outside the subtree of `root`.
pub open spec fn folded_below(expanded: Set<Seq<Text>>, root: Seq<Text>) -> Set<Seq<Text>> {
    expanded.filter(|s: Seq<Text>| !begins(root, s))
}

/// `i` is the first row with the given stack.
pub open spec fn first_with_stack(rows: Seq<RowModel>, stack: Seq<Text>, i: int) -> bool {
    &&& 0 <= i < rows.len()
    &&& rows[i].key.stack == stack
    &&& forall|j: int| 0 <= j < i ==> (#[trigger] rows[j]).key.stack != stack
}

/// The cursor on the first row with the given stack, if there is one.
pub open spec fn cursor_to_stack(m: ConsoleModel, stack: Seq<Text>) -> ConsoleModel {
    if exists|i: int| first_with_stack(m.rows(), stack, i) {
        ConsoleModel {
            selected: (choose|i: int| first_with_stack(m.rows(), stack, i)) as usize,
            ..m
        }
    } else {
        m
    }
}

/// The row under the cursor is folded; where it was not open, its parent
/// is, and gets the cursor.
pub open spec fn collapsed(m: ConsoleModel) -> ConsoleModel {
    let rows = m.rows();
    if m.focus != Focus::Stacks || m.selected >= rows.len() {
        m
    } else {
        let row = rows[m.selected as int];
        if row.is_expanded {
            ConsoleModel { expanded: folded_below(m.expanded, row.key.stack), ..m }
        } else if row.depth > 0 {
            let parent = row.key.stack.drop_last();
            cursor_to_stack(
                ConsoleModel { expanded: folded_below(m.expanded, parent), ..m },
                parent,
            )
        } else {
            m
        }
    }
}

/// The view after a message for it.
#[verifier::opaque]
pub open spec fn view_after(v: ViewModel, ring: Seq<EntryModel>, u: Update) -> ViewModel {
    match v {
        ViewModel::Table => v,
        ViewModel::Graph(g) => ViewModel::Graph(graph_after(g, ring, u)),
        ViewModel::Explore(es) => ViewModel::Explore(explore_after(es, ring, u)),
        ViewModel::TraceDetail(td) => ViewModel::TraceDetail(trace_after(td, ring, u)),
    }
}

/// The trace of the span under the cursor is opened.
pub open spec fn trace_opened(m: ConsoleModel) -> ConsoleModel {
    match m.view {
        ViewModel::Explore(es) => {
            let spans = listed_spans(m.agg.ring, es);
            if spans.len() == 0 {
                m
            } else {
                let at = if es.selected < spans.len() {
                    es.selected as int
                } else {
                    spans.len() - 1
                };
                match root_of(m.agg.ring, spans[at].id, ROOT_STEPS as nat) {
                    Some(root_id) => ConsoleModel {
                        view: ViewModel::TraceDetail(
                            TraceModel {
                                root_id,
                                selected_idx: 0,
                                collapsed: Set::empty(),
                                explore: es,
                            },
                        ),
                        ..m
                    },
                    None => m,
                }
            }
        },
        _ => m,
    }
}

/// The graph of a stack is entered.
pub open spec fn graph_entered(m: ConsoleModel, stack: Seq<Text>) -> ConsoleModel {
    ConsoleModel {
        view: ViewModel::Graph(rehydrated(fresh_graph(stack), m.agg.ring)),
        ..m
    }
}

/// The versions differ and no question stands.
pub open spec fn may_switch(m: ConsoleModel) -> bool {
    m.confirm_version_switch is None && m.server_version is Some && m.server_version->0
        != CLIENT_VERSION@
}

pub open spec fn with_confirm(m: ConsoleModel, status: StatusModel) -> ConsoleModel {
    match m.confirm_version_switch {
        Some(c) => ConsoleModel {
            confirm_version_switch: Some(ConfirmModel { status, ..c }),
            ..m
        },
        None => m,
    }
}

/// The console after a message that reached it at the time `now`, in
/// nanoseconds.
pub open spec fn console_after(m: ConsoleModel, u: Update, now: u64) -> ConsoleModel {
    match u {
        Update::SpanReceived(span) => span_taken(m, span@, now),
        Update::SelectUp => if m.pane_len() == 0 {
            m
        } else {
            m.with_cursor(cursor_up(m.cursor()))
        },
        Update::SelectDown => if m.pane_len() == 0 {
            m
        } else {
            m.with_cursor(cursor_down(m.cursor(), m.pane_len() as int))
        },
        Update::ExpandSelected => if m.focus == Focus::Stacks && m.selected < m.rows().len()
            && m.rows()[m.selected as int].has_children {
            ConsoleModel {
                expanded: m.expanded.insert(m.rows()[m.selected as int].key.stack),
                ..m
            }
        } else {
            m
        },
        Update::ExpandAllSelected => if m.focus == Focus::Stacks && m.selected < m.rows().len() {
            ConsoleModel {
                expanded: m.expanded.union(
                    opened_below(rows_of(m.agg.ring), m.rows()[m.selected as int].key.stack),
                ),
                ..m
            }
        } else {
            m
        },
        Update::CollapseSelected => collapsed(m),
        Update::SwitchFocus => match m.focus {
            Focus::Stacks => ConsoleModel { focus: Focus::Details, details_selected: 0, ..m },
            Focus::Details => ConsoleModel { focus: Focus::Stacks, ..m },
        },
        Update::ToggleSplitSelected => {
            let keys = m.split_candidates();
            if m.focus == Focus::Details && m.details_selected < keys.len() {
                ConsoleModel {
                    agg: resplit(
                        m.agg,
                        toggled(m.agg.split_keys, keys[m.details_selected as int]),
                    ),
                    expanded: Set::empty(),
                    selected: 0,
                    ..m
                }
            } else {
                m
            }
        },
        Update::Connected => ConsoleModel {
            connection: ConnectionModel::Connected,
            status: None,
            ..m
        },
        Update::Disconnected(reason) => ConsoleModel {
            connection: ConnectionModel::Disconnected(reason@),
            ..m
        },
        Update::Status(msg) => ConsoleModel { status: Some(msg@), ..m },
        Update::CacheLevelReceived(f) => ConsoleModel { cache_level: Some(f), ..m },
        Update::ServerInfoReceived(info) => ConsoleModel {
            server_version: Some(info.version@),
            ..m
        },
        Update::CacheChanceReceived(p) => ConsoleModel { cache_chance: Some(p), ..m },
        Update::BeginChanceInput => ConsoleModel { chance_input: Some(Seq::empty()), ..m },
        Update::ChanceInputChar(c) => ConsoleModel {
            chance_input: decimal_slot(m.chance_input, c),
            ..m
        },
        Update::ChanceInputBackspace => ConsoleModel {
            chance_input: backspaced(m.chance_input),
            ..m
        },
        Update::ChanceInputCancel => ConsoleModel { chance_input: None, ..m },
        Update::ChanceInputCommit => ConsoleModel { chance_input: None, ..m },
        Update::ToggleGraph => match m.view {
            ViewModel::Table => match m.stack_at_hand() {
                Some(stack) => graph_entered(m, stack),
                None => m,
            },
            _ => ConsoleModel { view: ViewModel::Table, ..m },
        },
        Update::EnterExplore => match m.view {
            ViewModel::Explore(_) => m,
            ViewModel::TraceDetail(td) => ConsoleModel {
                view: ViewModel::Explore(td.explore),
                ..m
            },
            _ => match m.stack_at_hand() {
                Some(stack) => ConsoleModel {
                    view: ViewModel::Explore(fresh_explore(stack, m.cache_level)),
                    ..m
                },
                None => m,
            },
        },
        Update::ExitExplore => match m.view {
            ViewModel::Explore(_) => ConsoleModel { view: ViewModel::Table, ..m },
            ViewModel::TraceDetail(_) => ConsoleModel { view: ViewModel::Table, ..m },
            _ => m,
        },
        Update::ExploreOpenTrace => trace_opened(m),
        Update::ExitTraceDetail => ConsoleModel {
            view: match m.view {
                ViewModel::TraceDetail(td) => ViewModel::Explore(td.explore),
                _ => ViewModel::Table,
            },
            ..m
        },
        Update::EnterTable => ConsoleModel { view: ViewModel::Table, ..m },
        Update::EnterGraph => match m.view {
            ViewModel::Graph(_) => m,
            _ => match m.stack_at_hand() {
                Some(stack) => graph_entered(m, stack),
                None => m,
            },
        },
        Update::Quit => ConsoleModel { quit_confirm_deadline: None, ..m },
        Update::QuitConfirmDismiss => ConsoleModel { quit_confirm_deadline: None, ..m },
        Update::BeginConfirmVersionSwitch => if may_switch(m) {
            ConsoleModel {
                confirm_version_switch: Some(
                    ConfirmModel {
                        server_version: m.server_version->0,
                        status: StatusModel::Confirming,
                    },
                ),
                ..m
            }
        } else {
            m
        },
        Update::ConfirmVersionSwitchYes => match m.confirm_version_switch {
            Some(c) => if c.status == StatusModel::Confirming {
                with_confirm(m, StatusModel::Running)
            } else {
                m
            },
            None => m,
        },
        Update::ConfirmVersionSwitchNo => match m.confirm_version_switch {
            Some(c) => if c.status == StatusModel::Running {
                m
            } else {
                ConsoleModel { confirm_version_switch: None, ..m }
            },
            None => m,
        },
        Update::InstallerSucceeded => with_confirm(m, StatusModel::Restart),
        Update::InstallerFailed(output) => with_confirm(m, StatusModel::Failed(output@)),
        Update::RequestCacheLevel(_) => m,
        _ => ConsoleModel { view: view_after(m.view, m.agg.ring, u), ..m },
    }
}

pub open spec fn level_request(level: Option<WireLevelFilter>) -> EffectModel {
    match level {
        Some(level) => EffectModel::RequestSetLevel(level),
        None => EffectModel::Nothing,
    }
}

/// What the console asks for on a message.
pub open spec fn effect_of(m: ConsoleModel, u: Update) -> EffectModel {
    match u {
        Update::RequestCacheLevel(f) => EffectModel::RequestSetLevel(f),
        Update::ChanceInputCommit => match m.chance_input {
            Some(s) => match chance_input(s) {
                Some(p) => EffectModel::RequestSetChance(p),
                None => EffectModel::Nothing,
            },
            None => EffectModel::Nothing,
        },
        Update::EnterExplore => match m.view {
            ViewModel::Explore(_) => EffectModel::Nothing,
            ViewModel::TraceDetail(_) => EffectModel::Nothing,
            _ => if m.stack_at_hand() is Some {
                EffectModel::RequestSetLevel(WireLevelFilter::Off)
            } else {
                EffectModel::Nothing
            },
        },
        Update::ExitExplore => level_request(m.resumed_level()),
        Update::EnterTable => level_request(m.resumed_level()),
        Update::EnterGraph => level_request(m.resumed_level()),
        Update::Quit => EffectModel::Quit,
        Update::ConfirmVersionSwitchYes => match m.confirm_version_switch {
            Some(c) => match c.status {
                StatusModel::Confirming => EffectModel::RunUpdateInstaller {
                    version: Some(c.server_version),
                },
                StatusModel::Restart => EffectModel::Restart,
                _ => EffectModel::Nothing,
            },
            None => EffectModel::Nothing,
        },
        _ => EffectModel::Nothing,
    }
}

/// Whether `base` begins the stack.
fn starts_with(stack: &Vec<String>, base: &Vec<String>) -> (r: bool)
    ensures
        r == begins(base.model(), stack.model()),
{
    if base.len() > stack.len() {
        return false;
    }
    let mut i: usize = 0;
    while i < base.len()
        invariant
            i <= base@.len() <= stack@.len(),
            forall|j: int| 0 <= j < i ==> #[trigger] base.model()[j] == stack.model()[j],
        decreases base@.len() - i,
    {
        if !same(&base[i], &stack[i]) {
            assert(base.model()[i as int] != stack.model()[i as int]);
            assert(stack.model().take(base.model().len() as int)[i as int]
                == stack.model()[i as int]);
            return false;
        }
        i = i + 1;
    }
    assert(stack.model().take(base.model().len() as int) =~= base.model());
    true
}

/// The first names of a stack.
fn prefix_of(stack: &Vec<String>, n: usize) -> (r: Vec<String>)
    requires
        n <= stack@.len(),
    ensures
        r.model() == stack.model().take(n as int),
{
    let mut out: Vec<String> = Vec::new();
    let mut i: usize = 0;
    while i < n
        invariant
            i <= n <= stack@.len(),
            out@.len() == i,
            forall|j: int| 0 <= j < i ==> (#[trigger] out@[j])@ == stack@[j]@,
        decreases n - i,
    {
        out.push(stack[i].clone());
        i = i + 1;
    }
    assert(out.model() =~= stack.model().take(n as int));
    out
}

impl Model {
    pub open spec fn wf(&self) -> bool {
        &&& self.agg.wf()
        &&& self.expanded.wf()
        &&& self.view.wf()
        &&& self.rate.wf()
    }

    pub fn new(history_budget: usize) -> (m: Self)
        ensures
            m.wf(),
            m@ == fresh_console(history_budget),
    {
        Model {
            agg: Aggregator::new(history_budget),
            expanded: SortedSet::new(),
            selected: 0,
            details_selected: 0,
            focus: Focus::Stacks,
            connection: ConnectionStatus::Connecting,
            status: None,
            history_budget,
            cache_level: None,
            cache_chance: None,
            server_version: None,
            confirm_version_switch: None,
            quit_confirm_deadline: None,
            chance_input: None,
            view: ViewMode::Table,
            rate: RateTracker::new(),
        }
    }

    /// The keys by which the table is split.
    pub fn split_keys(&self) -> (r: &SortedSet<String>)
        requires
            self.wf(),
        ensures
            r.wf(),
            r@ == self@.agg.split_keys,
    {
        self.agg.split_keys()
    }

    /// Drops the question whether to quit when its time is over at `now`.
    pub fn expire_quit_confirm_if_due(&mut self, now: u64)
        requires
            old(self).wf(),
        ensures
            final(self).wf(),
            final(self)@ == (ConsoleModel {
                quit_confirm_deadline: match old(self)@.quit_confirm_deadline {
                    Some(deadline) => if now >= deadline {
                        None
                    } else {
                        Some(deadline)
                    },
                    None => None,
                },
                ..old(self)@
            }),
    {
        if let Some(deadline) = self.quit_confirm_deadline {
            if now >= deadline {
                self.quit_confirm_deadline = None;
            }
        }
    }

    /// Whether every ancestor of a row is expanded.
    fn is_shown(&self, stack: &Vec<String>) -> (r: bool)
        requires
            self.wf(),
        ensures
            r == row_shown(self@.expanded, stack.model()),
    {
        let mut k: usize = 1;
        while k < stack.len()
            invariant
                self.wf(),
                1 <= k,
                k <= stack@.len() || k == 1,
                forall|j: int|
                    1 <= j < k ==> self@.expanded.contains(#[trigger] stack.model().take(j)),
            decreases stack@.len() - k,
        {
            if !self.expanded.contains(&prefix_of(stack, k)) {
                assert(!self@.expanded.contains(stack.model().take(k as int)));
                return false;
            }
            k = k + 1;
        }
        true
    }

    /// The rows of the stack tree that are shown.
    pub fn visible_rows(&self) -> (r: Vec<VisibleRow>)
        requires
            self.wf(),
        ensures
            r@.map_values(|row: VisibleRow| row@) == self@.rows(),
    {
        let rows = self.agg.rows();
        let ghost all = rows_of(self@.agg.ring);
        let mut out: Vec<VisibleRow> = Vec::new();
        let mut i: usize = 0;
        assert(rows@.len() == all.len());
        assert(out@.map_values(|row: VisibleRow| row@) =~= Seq::empty());
        while i < rows.len()
            invariant
                self.wf(),
                all == rows_of(self@.agg.ring),
                rows_model(rows@) == all,
                rows@.len() == all.len(),
                i <= rows@.len(),
                out@.map_values(|row: VisibleRow| row@) == shown_upto(
                    all,
                    self@.expanded,
                    i as int,
                ),
            decreases rows@.len() - i,
        {
            let key = &rows[i].0;
            assert(all[i as int] == rows_model(rows@)[i as int]);
            assert(key.model() == all[i as int].0);
            if self.is_shown(&key.stack) {
                let mut has_children: bool = false;
                let mut j: usize = i + 1;
                while j < rows.len() && !has_children
                    invariant
                        rows_model(rows@) == all,
                        rows@.len() == all.len(),
                        i < j <= rows@.len(),
                        key.model() == all[i as int].0,
                        has_children ==> row_below(all, i as int),
                        !has_children ==> forall|k: int|
                            i < k < j ==> !((#[trigger] all[k]).0.stack.len()
                                > all[i as int].0.stack.len() && begins(
                                all[i as int].0.stack,
                                all[k].0.stack,
                            )),
                    decreases rows@.len() - j,
                {
                    let next = &rows[j].0.stack;
                    assert(all[j as int] == rows_model(rows@)[j as int]);
                    assert(next.model() == all[j as int].0.stack);
                    if next.len() > key.stack.len() && starts_with(next, &key.stack) {
                        has_children = true;
                    }
                    j = j + 1;
                }
                let depth: usize = if key.stack.len() > 0 {
                    key.stack.len() - 1
                } else {
                    0
                };
                let row = VisibleRow {
                    key: key.duplicate(),
                    stats: rows[i].1,
                    depth,
                    has_children,
                    is_expanded: self.expanded.contains(&key.stack),
                };
                assert(row@ == shown_row(all, self@.expanded, i as int));
                let ghost had = out@.map_values(|row: VisibleRow| row@);
                out.push(row);
                assert(out@.map_values(|row: VisibleRow| row@) =~= had.push(row@));
            }
            i = i + 1;
        }
        out
    }

    /// The row under the cursor.
    pub fn selected_visible_row(&self) -> (r: Option<VisibleRow>)
        requires
            self.wf(),
        ensures
            match r {
                Some(row) => self@.selected_row() == Some(row@),
                None => self@.selected_row() is None,
            },
    {
        let mut rows = self.visible_rows();
        let ghost models = rows@.map_values(|row: VisibleRow| row@);
        let n: usize = rows.len();
        if n == 0 {
            return None;
        }
        let at: usize = if self.selected < n {
            self.selected
        } else {
            n - 1
        };
        assert(models[at as int] == rows@[at as int]@);
        Some(rows.swap_remove(at))
    }

    /// The keys by which the table may be split: the names of the fields of
    /// the spans of the selected row.
    pub fn candidate_split_keys(&self) -> (r: Vec<String>)
        requires
            self.wf(),
        ensures
            r.model() == self@.split_candidates(),
    {
        match self.selected_visible_row() {
            Some(row) => candidate_split_keys_for(&self.agg, &row.key.stack),
            None => {
                let r: Vec<String> = Vec::new();
                assert(r.model() =~= Seq::empty());
                r
            },
        }
    }

    fn current_pane_len(&self) -> (n: usize)
        requires
            self.wf(),
        ensures
            n == self@.pane_len(),
    {
        match self.focus {
            Focus::Stacks => {
                let rows = self.visible_rows();
                assert(rows@.map_values(|row: VisibleRow| row@).len() == rows@.len());
                rows.len()
            },
            Focus::Details => {
                let keys = self.candidate_split_keys();
                assert(keys.model().len() == keys@.len());
                keys.len()
            },
        }
    }

    fn current_selected(&self) -> (at: usize)
        ensures
            at == self@.cursor(),
    {
        match self.focus {
            Focus::Stacks => self.selected,
            Focus::Details => self.details_selected,
        }
    }

    fn set_current_selected(&mut self, at: usize)
        requires
            old(self).wf(),
        ensures
            final(self).wf(),
            final(self)@ == old(self)@.with_cursor(at),
    {
        match self.focus {
            Focus::Stacks => {
                self.selected = at;
            },
            Focus::Details => {
                self.details_selected = at;
            },
        }
    }
}

impl Model {
    /// Takes a span in.
    fn take_span(&mut self, span: WireSpan, now: u64)
        requires
            old(self).wf(),
            span.closed_at_ns is Some ==> old(self)@.agg.budget > 0,
        ensures
            final(self).wf(),
            final(self)@ == span_taken(old(self)@, span@, now),
    {
        self.rate.record(now);
        let ids = self.agg.absorb(span);
        let ghost ring = self.agg@.ring;
        if let ViewMode::Graph(gs) = &mut self.view {
            let ghost start = gs@;
            let mut i: usize = 0;
            while i < ids.len()
                invariant
                    gs.wf(),
                    self.agg.wf(),
                    ring == self.agg@.ring,
                    i <= ids@.len(),
                    gs@ == drawn_ids(start, ring, ids@, i as int),
                    gs@.locked_stack == start.locked_stack,
                decreases ids@.len() - i,
            {
                let id: u64 = ids[i];
                if let Some(stack) = self.agg.resolved_stack(id) {
                    if same(stack, &gs.locked_stack) {
                        if let Some(span) = self.agg.span_by_id(id) {
                            gs.record_span(&self.agg, span);
                        }
                    }
                }
                i = i + 1;
            }
        }
    }

    /// Shows what is directly below the selected row.
    fn expand_selected(&mut self)
        requires
            old(self).wf(),
        ensures
            final(self).wf(),
            final(self)@ == console_after(old(self)@, Update::ExpandSelected, 0),
    {
        if self.focus != Focus::Stacks {
            return ;
        }
        let rows = self.visible_rows();
        let ghost models = rows@.map_values(|row: VisibleRow| row@);
        assert(models.len() == rows@.len());
        if self.selected < rows.len() {
            let row = &rows[self.selected];
            assert(models[self.selected as int] == row@);
            if row.has_children {
                let _ = self.expanded.insert(row.key.stack.duplicate());
            }
        }
    }

    /// Shows everything below the selected row.
    fn expand_all_selected(&mut self)
        requires
            old(self).wf(),
        ensures
            final(self).wf(),
            final(self)@ == console_after(old(self)@, Update::ExpandAllSelected, 0),
    {
        if self.focus != Focus::Stacks {
            return ;
        }
        let rows = self.visible_rows();
        let ghost models = rows@.map_values(|row: VisibleRow| row@);
        assert(models.len() == rows@.len());
        if self.selected >= rows.len() {
            return ;
        }
        let root = &rows[self.selected].key.stack;
        assert(models[self.selected as int] == rows@[self.selected as int]@);
        let ghost start = self@;
        let ghost top = root.model();
        let all = self.agg.rows();
        let ghost table = rows_of(start.agg.ring);
        assert(all@.len() == table.len());
        let mut i: usize = 0;
        assert(self@.expanded =~= start.expanded.union(opened_below(table.take(0), top)));
        while i < all.len()
            invariant
                self.wf(),
                rows_model(all@) == table,
                all@.len() == table.len(),
                top == root.model(),
                i <= all@.len(),
                self@ == (ConsoleModel {
                    expanded: start.expanded.union(opened_below(table.take(i as int), top)),
                    ..start
                }),
            decreases all@.len() - i,
        {
            let stack = &all[i].0.stack;
            assert(table[i as int] == rows_model(all@)[i as int]);
            assert(stack.model() == table[i as int].0.stack);
            let ghost had = self@.expanded;
            if stack.len() > root.len() && starts_with(stack, root) {
                let mut n: usize = root.len();
                while n < stack.len()
                    invariant
                        self.wf(),
                        top == root.model(),
                        begins(top, stack.model()),
                        root@.len() <= n <= stack@.len(),
                        self@ == (ConsoleModel { expanded: self@.expanded, ..start }),
                        forall|x: Seq<Text>| #[trigger]
                            self@.expanded.contains(x) <==> had.contains(x) || (begins(
                                top,
                                x,
                            ) && begins(x, stack.model()) && x.len() < n),
                    decreases stack@.len() - n,
                {
                    let piece = prefix_of(stack, n);
                    proof {
                        let p = piece.model();
                        let full = stack.model();
                        assert(p.take(top.len() as int) =~= full.take(top.len() as int));
                        assert(begins(top, p) && begins(p, full));
                        assert forall|x: Seq<Text>| #[trigger] begins(x, full) && x.len()
                            == n implies x == p by {
                            assert(full.take(x.len() as int) == x);
                        }
                    }
                    let _ = self.expanded.insert(piece);
                    n = n + 1;
                }
            }
            i = i + 1;
            proof {
                let next = start.expanded.union(opened_below(table.take(i as int), top));
                let own = stack.model();
                assert forall|x: Seq<Text>| self@.expanded.contains(x) == next.contains(x) by {
                    let short = table.take(i - 1);
                    let long = table.take(i as int);
                    assert(long[i - 1].0.stack == own);
                    if begins(top, x) && begins(x, own) {
                        assert(own.take(top.len() as int) =~= x.take(top.len() as int));
                        assert(begins(top, own));
                    }
                    if opened_below(short, top).contains(x) {
                        let k = choose|k: int|
                            0 <= k < short.len() && begins(top, #[trigger] short[k].0.stack)
                                && begins(top, x) && begins(x, short[k].0.stack) && x.len()
                                < short[k].0.stack.len();
                        assert(long[k].0.stack == short[k].0.stack);
                    }
                    if opened_below(long, top).contains(x) {
                        let k = choose|k: int|
                            0 <= k < long.len() && begins(top, #[trigger] long[k].0.stack)
                                && begins(top, x) && begins(x, long[k].0.stack) && x.len()
                                < long[k].0.stack.len();
                        if k < i - 1 {
                            assert(long[k].0.stack == short[k].0.stack);
                        }
                    }
                }
                assert(self@.expanded =~= next);
            }
        }
        assert(table.take(i as int) =~= table);
    }

    /// Hides everything below a stack.
    fn fold_below(&mut self, root: &Vec<String>)
        requires
            old(self).wf(),
        ensures
            final(self).wf(),
            final(self)@ == (ConsoleModel {
                expanded: folded_below(old(self)@.expanded, root.model()),
                ..old(self)@
            }),
    {
        let mut kept: SortedSet<Vec<String>> = SortedSet::new();
        let ghost listed = self.expanded.listed();
        let mut i: usize = 0;
        while i < self.expanded.len()
            invariant
                *self == *old(self),
                self.wf(),
                kept.wf(),
                listed == self.expanded.listed(),
                i <= listed.len(),
                forall|x: Seq<Text>| #[trigger]
                    kept@.contains(x) <==> listed.take(i as int).contains(x) && !begins(
                        root.model(),
                        x,
                    ),
            decreases listed.len() - i,
        {
            let stack = self.expanded.at(i);
            if !starts_with(stack, root) {
                let _ = kept.insert(stack.duplicate());
            }
            proof {
                let short = listed.take(i as int);
                let long = listed.take(i + 1);
                assert(long =~= short.push(stack.model()));
                assert forall|x: Seq<Text>| long.contains(x) <==> short.contains(x) || x
                    == stack.model() by {
                    if short.contains(x) {
                        let k = choose|k: int| 0 <= k < short.len() && short[k] == x;
                        assert(long[k] == x);
                    }
                    if x == stack.model() {
                        assert(long[i as int] == x);
                    }
                }
            }
            i = i + 1;
        }
        proof {
            self.expanded.listed_is_listing();
            assert(listed.take(i as int) =~= listed);
            assert forall|x: Seq<Text>| kept@.contains(x) == folded_below(
                self@.expanded,
                root.model(),
            ).contains(x) by {
                assert(listed.to_set().contains(x) == listed.contains(x));
            }
            assert(kept@ =~= folded_below(self@.expanded, root.model()));
        }
        self.expanded = kept;
    }

    /// Puts the cursor on the first row with the given stack, if there is
    /// one.
    fn move_to_stack(&mut self, stack: &Vec<String>)
        requires
            old(self).wf(),
        ensures
            final(self).wf(),
            final(self)@ == cursor_to_stack(old(self)@, stack.model()),
    {
        let rows = self.visible_rows();
        let ghost models = rows@.map_values(|row: VisibleRow| row@);
        let ghost wanted = stack.model();
        assert(models.len() == rows@.len());
        let mut i: usize = 0;
        while i < rows.len()
            invariant
                *self == *old(self),
                self.wf(),
                models == rows@.map_values(|row: VisibleRow| row@),
                models == self@.rows(),
                models.len() == rows@.len(),
                wanted == stack.model(),
                i <= rows@.len(),
                forall|j: int| 0 <= j < i ==> (#[trigger] models[j]).key.stack != wanted,
            decreases rows@.len() - i,
        {
            assert(models[i as int] == rows@[i as int]@);
            if same(&rows[i].key.stack, stack) {
                proof {
                    assert(first_with_stack(models, wanted, i as int));
                    let k = choose|k: int| first_with_stack(models, wanted, k);
                    assert(first_with_stack(models, wanted, k));
                    if k < i {
                        assert(models[k].key.stack != wanted);
                    } else if i < k {
                        assert(models[i as int].key.stack != wanted);
                    }
                }
                self.selected = i;
                return ;
            }
            i = i + 1;
        }
        assert forall|k: int| !first_with_stack(models, wanted, k) by {
            if 0 <= k < models.len() {
                assert(models[k].key.stack != wanted);
            }
        }
    }

    /// Folds the selected row, or else its parent.
    fn collapse_selected(&mut self)
        requires
            old(self).wf(),
        ensures
            final(self).wf(),
            final(self)@ == collapsed(old(self)@),
    {
        if self.focus != Focus::Stacks {
            return ;
        }
        let rows = self.visible_rows();
        let ghost models = rows@.map_values(|row: VisibleRow| row@);
        assert(models.len() == rows@.len());
        if self.selected >= rows.len() {
            return ;
        }
        let row = &rows[self.selected];
        assert(models[self.selected as int] == row@);
        if row.is_expanded {
            self.fold_below(&row.key.stack);
        } else if row.depth > 0 {
            proof {
                shown_depth(rows_of(self@.agg.ring), self@.expanded, rows_of(self@.agg.ring).len()
                    as int, self.selected as int);
            }
            let n: usize = row.key.stack.len();
            let parent = prefix_of(&row.key.stack, n - 1);
            assert(parent.model() =~= row.key.model().stack.drop_last());
            self.fold_below(&parent);
            self.move_to_stack(&parent);
        }
    }

    /// Takes the selected key into the split keys, or out of them.
    fn toggle_split_selected(&mut self)
        requires
            old(self).wf(),
        ensures
            final(self).wf(),
            final(self)@ == console_after(old(self)@, Update::ToggleSplitSelected, 0),
    {
        if self.focus != Focus::Details {
            return ;
        }
        let keys = self.candidate_split_keys();
        assert(keys.model().len() == keys@.len());
        if self.details_selected < keys.len() {
            let key = keys[self.details_selected].clone();
            assert(key@ == keys.model()[self.details_selected as int]);
            let mut new_keys = self.agg.split_keys().duplicate();
            toggle(&mut new_keys, key);
            self.agg.set_split_keys(new_keys);
            self.expanded = SortedSet::new();
            self.selected = 0;
        }
    }

    /// The stack at hand.
    fn current_stack(&self) -> (r: Option<Vec<String>>)
        requires
            self.wf(),
        ensures
            match r {
                Some(stack) => self@.stack_at_hand() == Some(stack.model()),
                None => self@.stack_at_hand() is None,
            },
    {
        match &self.view {
            ViewMode::Table => match self.selected_visible_row() {
                Some(row) => Some(row.key.stack),
                None => None,
            },
            ViewMode::Graph(gs) => Some(gs.locked_stack.duplicate()),
            ViewMode::Explore(es) => Some(es.locked_stack.duplicate()),
            ViewMode::TraceDetail(td) => Some(td.explore.locked_stack.duplicate()),
        }
    }

    /// The recording level to ask for when the paused views are left.
    fn level_to_resume(&self) -> (r: Option<WireLevelFilter>)
        ensures
            r == self@.resumed_level(),
    {
        let level: Option<WireLevelFilter> = match &self.view {
            ViewMode::Explore(es) => es.restore_level,
            ViewMode::TraceDetail(td) => td.explore.restore_level,
            _ => return None,
        };
        match level {
            Some(level) => Some(level),
            None => Some(WireLevelFilter::Trace),
        }
    }

    /// Enters the graph of a stack.
    fn open_graph(&mut self, stack: Vec<String>)
        requires
            old(self).wf(),
        ensures
            final(self).wf(),
            final(self)@ == graph_entered(old(self)@, stack.model()),
    {
        let mut gs = GraphState::new(stack);
        gs.rehydrate(&self.agg);
        self.view = ViewMode::Graph(gs);
    }

    /// Goes back from a trace to the explore view; from elsewhere, to the
    /// table.
    fn close_trace(&mut self)
        requires
            old(self).wf(),
        ensures
            final(self).wf(),
            final(self)@ == console_after(old(self)@, Update::ExitTraceDetail, 0),
    {
        let mut prior = ViewMode::Table;
        std::mem::swap(&mut prior, &mut self.view);
        if let ViewMode::TraceDetail(td) = prior {
            self.view = ViewMode::Explore(td.explore);
        }
    }

    /// Opens the trace of the span under the cursor.
    fn open_trace(&mut self)
        requires
            old(self).wf(),
        ensures
            final(self).wf(),
            final(self)@ == trace_opened(old(self)@),
    {
        let root: Option<u64>;
        let explore: ExploreState;
        match &self.view {
            ViewMode::Explore(es) => {
                let spans = matching_in(&self.agg, es);
                let n: usize = spans.len();
                let ghost listed = listed_spans(self@.agg.ring, es@);
                assert(listed.len() == n);
                if n == 0 {
                    return ;
                }
                let at: usize = if es.selected < n {
                    es.selected
                } else {
                    n - 1
                };
                assert(spans@[at as int]@ == listed[at as int]);
                root = find_root_in(&self.agg, spans[at].id);
                explore = es.duplicate();
            },
            _ => return ,
        }
        if let Some(root_id) = root {
            self.view =
            ViewMode::TraceDetail(
                TraceDetailState {
                    root_id,
                    selected_idx: 0,
                    collapsed: SortedSet::new(),
                    explore,
                },
            );
        }
    }

    /// Asks whether to switch to the host's version, where it differs.
    fn begin_version_switch(&mut self)
        requires
            old(self).wf(),
        ensures
            final(self).wf(),
            final(self)@ == console_after(old(self)@, Update::BeginConfirmVersionSwitch, 0),
    {
        if self.confirm_version_switch.is_none() {
            if let Some(version) = &self.server_version {
                if !same_text(version.as_str(), CLIENT_VERSION) {
                    self.confirm_version_switch = Some(
                        ConfirmVersionSwitch {
                            server_version: version.clone(),
                            status: ConfirmStatus::Confirming,
                        },
                    );
                }
            }
        }
    }

    /// The user agrees.
    fn confirm_yes(&mut self) -> (r: Effect)
        requires
            old(self).wf(),
        ensures
            final(self).wf(),
            final(self)@ == console_after(old(self)@, Update::ConfirmVersionSwitchYes, 0),
            r@ == effect_of(old(self)@, Update::ConfirmVersionSwitchYes),
    {
        match &mut self.confirm_version_switch {
            None => Effect::Nothing,
            Some(c) => match c.status {
                ConfirmStatus::Confirming => {
                    let version = c.server_version.clone();
                    c.status = ConfirmStatus::Running;
                    Effect::RunUpdateInstaller { version: Some(version) }
                },
                ConfirmStatus::Restart => Effect::Restart,
                _ => Effect::Nothing,
            },
        }
    }

    /// The user declines. A running installer is left alone.
    fn confirm_no(&mut self)
        requires
            old(self).wf(),
        ensures
            final(self).wf(),
            final(self)@ == console_after(old(self)@, Update::ConfirmVersionSwitchNo, 0),
    {
        let idle: bool = match &self.confirm_version_switch {
            Some(c) => match c.status {
                ConfirmStatus::Running => false,
                _ => true,
            },
            None => false,
        };
        if idle {
            self.confirm_version_switch = None;
        }
    }

    fn set_confirm_status(&mut self, status: ConfirmStatus)
        requires
            old(self).wf(),
        ensures
            final(self).wf(),
            final(self)@ == with_confirm(old(self)@, status@),
    {
        if let Some(c) = &mut self.confirm_version_switch {
            c.status = status;
        }
    }

    /// Ends the chance input.
    fn commit_chance(&mut self) -> (r: Effect)
        requires
            old(self).wf(),
        ensures
            final(self).wf(),
            final(self)@ == (ConsoleModel { chance_input: None, ..old(self)@ }),
            r@ == effect_of(old(self)@, Update::ChanceInputCommit),
    {
        let typed = self.chance_input.take();
        match typed {
            Some(buf) => match parse_chance_input(buf.as_str()) {
                Some(p) => Effect::RequestSetChance(p),
                None => Effect::Nothing,
            },
            None => Effect::Nothing,
        }
    }

    /// Enters the explore view of the stack at hand.
    fn enter_explore(&mut self) -> (r: Effect)
        requires
            old(self).wf(),
        ensures
            final(self).wf(),
            final(self)@ == console_after(old(self)@, Update::EnterExplore, 0),
            r@ == effect_of(old(self)@, Update::EnterExplore),
    {
        match &self.view {
            ViewMode::Explore(_) => return Effect::Nothing,
            ViewMode::TraceDetail(_) => {
                self.close_trace();
                return Effect::Nothing;
            },
            _ => {},
        }
        match self.current_stack() {
            Some(stack) => {
                self.view = ViewMode::Explore(ExploreState::new(stack, self.cache_level));
                Effect::RequestSetLevel(WireLevelFilter::Off)
            },
            None => Effect::Nothing,
        }
    }

    /// Hands a message to the view.
    fn apply_to_view(&mut self, update: &Update)
        requires
            old(self).wf(),
        ensures
            final(self).wf(),
            final(self)@ == (ConsoleModel {
                view: view_after(old(self)@.view, old(self)@.agg.ring, *update),
                ..old(self)@
            }),
    {
        proof {
            reveal(view_after);
        }
        match &mut self.view {
            ViewMode::Table => {},
            ViewMode::Graph(gs) => gs.apply(&self.agg, update),
            ViewMode::Explore(es) => es.apply(&self.agg, update),
            ViewMode::TraceDetail(td) => td.apply(&self.agg, update),
        }
    }
}

/// A shown row that is not at the top has a stack of more than one name.
proof fn shown_depth(
    rows: Seq<(KeyModel, StackStats)>,
    expanded: Set<Seq<Text>>,
    n: int,
    i: int,
)
    requires
        0 <= i < shown_upto(rows, expanded, n).len(),
    ensures
        shown_upto(rows, expanded, n)[i].depth > 0 ==> shown_upto(
            rows,
            expanded,
            n,
        )[i].key.stack.len() > 1,
    decreases n,
{
    if n > 0 {
        let before = shown_upto(rows, expanded, n - 1);
        if i < before.len() {
            shown_depth(rows, expanded, n - 1, i);
        }
    }
}

/// The effect that asks for a recording level.
fn ask_level(level: Option<WireLevelFilter>) -> (r: Effect)
    ensures
        r@ == level_request(level),
{
    match level {
        Some(level) => Effect::RequestSetLevel(level),
        None => Effect::Nothing,
    }
}

impl Model {
    /// Answers a message that arrived at the time `now`, in nanoseconds.
    pub fn apply(&mut self, update: Update, now: u64) -> (r: Effect)
        requires
            old(self).wf(),
            update matches Update::SpanReceived(span) ==> span.closed_at_ns is Some ==> old(
                self,
            )@.agg.budget > 0,
        ensures
            final(self).wf(),
            final(self)@ == console_after(old(self)@, update, now),
            r@ == effect_of(old(self)@, update),
            final(self)@.cache_level == match update {
                Update::CacheLevelReceived(f) => Some(f),
                _ => old(self)@.cache_level,
            },
            final(self)@.cache_chance == match update {
                Update::CacheChanceReceived(p) => Some(p),
                _ => old(self)@.cache_chance,
            },
            update matches Update::RequestCacheLevel(f) ==> r@ == EffectModel::RequestSetLevel(f),
    {
        match update {
            Update::SpanReceived(span) => self.take_span(span, now),
            Update::SelectUp => {
                if self.current_pane_len() > 0 {
                    let at: usize = self.current_selected();
                    self.set_current_selected(at.saturating_sub(1));
                }
            },
            Update::SelectDown => {
                let n: usize = self.current_pane_len();
                if n > 0 {
                    let at: usize = self.current_selected();
                    self.set_current_selected(move_down(at, n as u128));
                }
            },
            Update::ExpandSelected => self.expand_selected(),
            Update::ExpandAllSelected => self.expand_all_selected(),
            Update::CollapseSelected => self.collapse_selected(),
            Update::SwitchFocus => match self.focus {
                Focus::Stacks => {
                    self.focus = Focus::Details;
                    self.details_selected = 0;
                },
                Focus::Details => {
                    self.focus = Focus::Stacks;
                },
            },
            Update::ToggleSplitSelected => self.toggle_split_selected(),
            Update::Connected => {
                self.connection = ConnectionStatus::Connected;
                self.status = None;
            },
            Update::Disconnected(reason) => {
                self.connection = ConnectionStatus::Disconnected(reason);
            },
            Update::Status(msg) => {
                self.status = Some(msg);
            },
            Update::CacheLevelReceived(f) => {
                self.cache_level = Some(f);
            },
            Update::ServerInfoReceived(info) => {
                self.server_version = Some(info.version);
            },
            Update::RequestCacheLevel(f) => return Effect::RequestSetLevel(f),
            Update::CacheChanceReceived(p) => {
                self.cache_chance = Some(p);
            },
            Update::BeginChanceInput => open_modal(&mut self.chance_input),
            Update::ChanceInputChar(c) => type_decimal(&mut self.chance_input, c),
            Update::ChanceInputBackspace => backspace_modal(&mut self.chance_input),
            Update::ChanceInputCancel => close_modal(&mut self.chance_input),
            Update::ChanceInputCommit => return self.commit_chance(),
            Update::ToggleGraph => {
                let in_table: bool = matches!(self.view, ViewMode::Table);
                if !in_table {
                    self.view = ViewMode::Table;
                } else if let Some(stack) = self.current_stack() {
                    self.open_graph(stack);
                }
            },
            Update::EnterExplore => return self.enter_explore(),
            Update::ExitExplore => {
                let level = self.level_to_resume();
                if level.is_some() {
                    self.view = ViewMode::Table;
                }
                return ask_level(level);
            },
            Update::ExploreOpenTrace => self.open_trace(),
            Update::ExitTraceDetail => self.close_trace(),
            Update::EnterTable => {
                let level = self.level_to_resume();
                self.view = ViewMode::Table;
                return ask_level(level);
            },
            Update::EnterGraph => {
                let level = self.level_to_resume();
                let in_graph: bool = matches!(self.view, ViewMode::Graph(_));
                if !in_graph {
                    if let Some(stack) = self.current_stack() {
                        self.open_graph(stack);
                    }
                }
                return ask_level(level);
            },
            Update::Quit => {
                self.quit_confirm_deadline = None;
                return Effect::Quit;
            },
            Update::QuitConfirmDismiss => {
                self.quit_confirm_deadline = None;
            },
            Update::BeginConfirmVersionSwitch => self.begin_version_switch(),
            Update::ConfirmVersionSwitchYes => return self.confirm_yes(),
            Update::ConfirmVersionSwitchNo => self.confirm_no(),
            Update::InstallerSucceeded => self.set_confirm_status(ConfirmStatus::Restart),
            Update::InstallerFailed(output) => self.set_confirm_status(
                ConfirmStatus::Failed(output),
            ),
            other => self.apply_to_view(&other),
        }
        Effect::Nothing
    }
}

} // verus!
