//! What the keys mean.

use vstd::prelude::*;

use crate::model::console::{ConsoleModel, Model, ViewMode, ViewModel};
use crate::model::update::Update;
use crate::protocol::WireLevelFilter;

verus! {

/// A key that was pressed.
#[derive(Debug, Clone, Copy, PartialEq, Eq, Structural)]
pub enum KeyPress {
    Char(char),
    Backspace,
    Enter,
    Esc,
    Tab,
    BackTab,
    Up,
    Down,
    Left,
    Right,
    /// Any other key.
    Other,
}

/// The input or question that takes the keys, if one does.
#[derive(Debug, Clone, Copy, PartialEq, Eq, Structural)]
pub enum Modal {
    Closed,
    Chance,
    GraphAgg,
    GraphWindow,
    GraphLookback,
    ExploreSearch,
    /// Whether to switch to the host's version.
    VersionSwitch,
}

/// Which view fills the screen.
#[derive(Debug, Clone, Copy, PartialEq, Eq, Structural)]
pub enum ViewTag {
    Table,
    Graph,
    Explore,
    TraceDetail,
}

/// What takes the keys.
pub open spec fn open_modal_of(m: ConsoleModel) -> Modal {
    if m.confirm_version_switch is Some {
        Modal::VersionSwitch
    } else if m.chance_input is Some {
        Modal::Chance
    } else {
        match m.view {
            ViewModel::Graph(g) => if g.agg_input is Some {
                Modal::GraphAgg
            } else if g.window_input is Some {
                Modal::GraphWindow
            } else if g.lookback_input is Some {
                Modal::GraphLookback
            } else {
                Modal::Closed
            },
            ViewModel::Explore(es) => if es.search_input is Some {
                Modal::ExploreSearch
            } else {
                Modal::Closed
            },
            _ => Modal::Closed,
        }
    }
}

/// What takes the keys.
pub fn modal_of(m: &Model) -> (r: Modal)
    ensures
        r == open_modal_of(m@),
{
    if m.confirm_version_switch.is_some() {
        return Modal::VersionSwitch;
    }
    if m.chance_input.is_some() {
        return Modal::Chance;
    }
    match &m.view {
        ViewMode::Graph(gs) => {
            if gs.agg_input.is_some() {
                Modal::GraphAgg
            } else if gs.window_input.is_some() {
                Modal::GraphWindow
            } else if gs.lookback_input.is_some() {
                Modal::GraphLookback
            } else {
                Modal::Closed
            }
        },
        ViewMode::Explore(es) => {
            if es.search_input.is_some() {
                Modal::ExploreSearch
            } else {
                Modal::Closed
            }
        },
        _ => Modal::Closed,
    }
}

/// Which view fills the screen.
pub open spec fn tag_of(m: ConsoleModel) -> ViewTag {
    match m.view {
        ViewModel::Table => ViewTag::Table,
        ViewModel::Graph(_) => ViewTag::Graph,
        ViewModel::Explore(_) => ViewTag::Explore,
        ViewModel::TraceDetail(_) => ViewTag::TraceDetail,
    }
}

/// Which view fills the screen.
pub fn view_tag(m: &Model) -> (r: ViewTag)
    ensures
        r == tag_of(m@),
{
    match &m.view {
        ViewMode::Table => ViewTag::Table,
        ViewMode::Graph(_) => ViewTag::Graph,
        ViewMode::Explore(_) => ViewTag::Explore,
        ViewMode::TraceDetail(_) => ViewTag::TraceDetail,
    }
}

/// What a key means to an open input or question. What it does not know is
/// lost, so that nobody leaves it by accident.
pub open spec fn modal_key(modal: Modal, key: KeyPress) -> Option<Update> {
    match modal {
        Modal::Closed => None,
        Modal::Chance => match key {
            KeyPress::Char(c) => Some(Update::ChanceInputChar(c)),
            KeyPress::Backspace => Some(Update::ChanceInputBackspace),
            KeyPress::Enter => Some(Update::ChanceInputCommit),
            KeyPress::Esc => Some(Update::ChanceInputCancel),
            _ => None,
        },
        Modal::GraphAgg => match key {
            KeyPress::Char(c) => Some(Update::GraphAggInputChar(c)),
            KeyPress::Backspace => Some(Update::GraphAggInputBackspace),
            KeyPress::Enter => Some(Update::GraphAggInputCommit),
            KeyPress::Esc => Some(Update::GraphAggInputCancel),
            _ => None,
        },
        Modal::GraphWindow => match key {
            KeyPress::Char(c) => Some(Update::GraphWindowInputChar(c)),
            KeyPress::Backspace => Some(Update::GraphWindowInputBackspace),
            KeyPress::Enter => Some(Update::GraphWindowInputCommit),
            KeyPress::Esc => Some(Update::GraphWindowInputCancel),
            _ => None,
        },
        Modal::GraphLookback => match key {
            KeyPress::Char(c) => Some(Update::GraphLookbackInputChar(c)),
            KeyPress::Backspace => Some(Update::GraphLookbackInputBackspace),
            KeyPress::Enter => Some(Update::GraphLookbackInputCommit),
            KeyPress::Esc => Some(Update::GraphLookbackInputCancel),
            _ => None,
        },
        Modal::ExploreSearch => match key {
            KeyPress::Char(c) => Some(Update::ExploreSearchChar(c)),
            KeyPress::Backspace => Some(Update::ExploreSearchBackspace),
            KeyPress::Enter => Some(Update::ExploreSearchCommit),
            KeyPress::Esc => Some(Update::ExploreSearchCancel),
            _ => None,
        },
        Modal::VersionSwitch => if key == KeyPress::Char('y') {
            Some(Update::ConfirmVersionSwitchYes)
        } else if key == KeyPress::Char('n') || key == KeyPress::Esc {
            Some(Update::ConfirmVersionSwitchNo)
        } else {
            None
        },
    }
}

/// What a key means in every view.
pub open spec fn common_key(key: KeyPress) -> Option<Update> {
    if key == KeyPress::Char('O') {
        Some(Update::RequestCacheLevel(WireLevelFilter::Off))
    } else if key == KeyPress::Char('I') {
        Some(Update::RequestCacheLevel(WireLevelFilter::Info))
    } else if key == KeyPress::Char('D') {
        Some(Update::RequestCacheLevel(WireLevelFilter::Debug))
    } else if key == KeyPress::Char('T') {
        Some(Update::RequestCacheLevel(WireLevelFilter::Trace))
    } else if key == KeyPress::Char('C') {
        Some(Update::BeginChanceInput)
    } else if key == KeyPress::Char('v') {
        Some(Update::BeginConfirmVersionSwitch)
    } else if key == KeyPress::Char('q') {
        Some(Update::Quit)
    } else {
        None
    }
}

/// What a key means in the graph.
pub open spec fn graph_key(key: KeyPress) -> Option<Update> {
    match key {
        KeyPress::Esc => Some(Update::ToggleGraph),
        KeyPress::Tab => Some(Update::GraphSwitchFocus),
        KeyPress::BackTab => Some(Update::GraphSwitchFocus),
        KeyPress::Down => Some(Update::GraphSelectDown),
        KeyPress::Up => Some(Update::GraphSelectUp),
        KeyPress::Left => Some(Update::GraphSortColumnLeft),
        KeyPress::Right => Some(Update::GraphSortColumnRight),
        KeyPress::Char(c) => if c == 's' {
            Some(Update::EnterTable)
        } else if c == 'e' {
            Some(Update::EnterExplore)
        } else if c == 'g' {
            Some(Update::ToggleGraph)
        } else if c == 'a' {
            Some(Update::BeginGraphAggInput)
        } else if c == 'm' {
            Some(Update::ToggleGraphMetric)
        } else if c == 'w' {
            Some(Update::BeginGraphWindowInput)
        } else if c == 'l' {
            Some(Update::BeginGraphLookbackInput)
        } else if c == 'u' {
            Some(Update::ToggleGraphTimeLabels)
        } else if c == 'j' {
            Some(Update::GraphSelectDown)
        } else if c == 'k' {
            Some(Update::GraphSelectUp)
        } else if c == 'h' {
            Some(Update::GraphSortColumnLeft)
        } else if c == ' ' {
            Some(Update::GraphToggleSplit)
        } else {
            None
        },
        _ => None,
    }
}

/// What a key means in the explore view.
pub open spec fn explore_key(key: KeyPress) -> Option<Update> {
    match key {
        KeyPress::Esc => Some(Update::ExitExplore),
        KeyPress::Down => Some(Update::ExploreSelectDown),
        KeyPress::Up => Some(Update::ExploreSelectUp),
        KeyPress::Left => Some(Update::ExploreSortLeft),
        KeyPress::Right => Some(Update::ExploreSortRight),
        KeyPress::Enter => Some(Update::ExploreOpenTrace),
        KeyPress::Char(c) => if c == 's' {
            Some(Update::EnterTable)
        } else if c == 'g' {
            Some(Update::EnterGraph)
        } else if c == '/' {
            Some(Update::BeginExploreSearch)
        } else if c == 'i' {
            Some(Update::ExploreInvertSort)
        } else if c == 'j' {
            Some(Update::ExploreSelectDown)
        } else if c == 'k' {
            Some(Update::ExploreSelectUp)
        } else if c == 'h' {
            Some(Update::ExploreSortLeft)
        } else if c == 'l' {
            Some(Update::ExploreSortRight)
        } else {
            None
        },
        _ => None,
    }
}

/// What a key means in a trace.
pub open spec fn trace_key(key: KeyPress) -> Option<Update> {
    match key {
        KeyPress::Esc => Some(Update::ExitTraceDetail),
        KeyPress::Down => Some(Update::TraceDetailSelectDown),
        KeyPress::Up => Some(Update::TraceDetailSelectUp),
        KeyPress::Right => Some(Update::TraceDetailExpand),
        KeyPress::Left => Some(Update::TraceDetailCollapse),
        KeyPress::Char(c) => if c == 's' {
            Some(Update::EnterTable)
        } else if c == 'g' {
            Some(Update::EnterGraph)
        } else if c == 'e' {
            Some(Update::ExitTraceDetail)
        } else {
            None
        },
        _ => None,
    }
}

/// What a key means in the table.
pub open spec fn table_key(key: KeyPress) -> Option<Update> {
    match key {
        KeyPress::Esc => Some(Update::Quit),
        KeyPress::Down => Some(Update::SelectDown),
        KeyPress::Up => Some(Update::SelectUp),
        KeyPress::Right => Some(Update::ExpandSelected),
        KeyPress::Enter => Some(Update::ExpandAllSelected),
        KeyPress::Left => Some(Update::CollapseSelected),
        KeyPress::Tab => Some(Update::SwitchFocus),
        KeyPress::BackTab => Some(Update::SwitchFocus),
        KeyPress::Char(c) => if c == 'j' {
            Some(Update::SelectDown)
        } else if c == 'k' {
            Some(Update::SelectUp)
        } else if c == 'l' {
            Some(Update::ExpandSelected)
        } else if c == 'h' {
            Some(Update::CollapseSelected)
        } else if c == ' ' {
            Some(Update::ToggleSplitSelected)
        } else if c == 'g' {
            Some(Update::ToggleGraph)
        } else if c == 'e' {
            Some(Update::EnterExplore)
        } else {
            None
        },
        _ => None,
    }
}

/// What a key means.
pub open spec fn key_means(modal: Modal, view: ViewTag, key: KeyPress) -> Option<Update> {
    if modal != Modal::Closed {
        modal_key(modal, key)
    } else if common_key(key) is Some {
        common_key(key)
    } else {
        match view {
            ViewTag::Graph => graph_key(key),
            ViewTag::Explore => explore_key(key),
            ViewTag::TraceDetail => trace_key(key),
            ViewTag::Table => table_key(key),
        }
    }
}

fn key_in_modal(modal: Modal, key: KeyPress) -> (r: Option<Update>)
    ensures
        r == modal_key(modal, key),
{
    match (modal, key) {
        (Modal::Chance, KeyPress::Char(c)) => Some(Update::ChanceInputChar(c)),
        (Modal::Chance, KeyPress::Backspace) => Some(Update::ChanceInputBackspace),
        (Modal::Chance, KeyPress::Enter) => Some(Update::ChanceInputCommit),
        (Modal::Chance, KeyPress::Esc) => Some(Update::ChanceInputCancel),
        (Modal::GraphAgg, KeyPress::Char(c)) => Some(Update::GraphAggInputChar(c)),
        (Modal::GraphAgg, KeyPress::Backspace) => Some(Update::GraphAggInputBackspace),
        (Modal::GraphAgg, KeyPress::Enter) => Some(Update::GraphAggInputCommit),
        (Modal::GraphAgg, KeyPress::Esc) => Some(Update::GraphAggInputCancel),
        (Modal::GraphWindow, KeyPress::Char(c)) => Some(Update::GraphWindowInputChar(c)),
        (Modal::GraphWindow, KeyPress::Backspace) => Some(Update::GraphWindowInputBackspace),
        (Modal::GraphWindow, KeyPress::Enter) => Some(Update::GraphWindowInputCommit),
        (Modal::GraphWindow, KeyPress::Esc) => Some(Update::GraphWindowInputCancel),
        (Modal::GraphLookback, KeyPress::Char(c)) => Some(Update::GraphLookbackInputChar(c)),
        (Modal::GraphLookback, KeyPress::Backspace) => Some(Update::GraphLookbackInputBackspace),
        (Modal::GraphLookback, KeyPress::Enter) => Some(Update::GraphLookbackInputCommit),
        (Modal::GraphLookback, KeyPress::Esc) => Some(Update::GraphLookbackInputCancel),
        (Modal::ExploreSearch, KeyPress::Char(c)) => Some(Update::ExploreSearchChar(c)),
        (Modal::ExploreSearch, KeyPress::Backspace) => Some(Update::ExploreSearchBackspace),
        (Modal::ExploreSearch, KeyPress::Enter) => Some(Update::ExploreSearchCommit),
        (Modal::ExploreSearch, KeyPress::Esc) => Some(Update::ExploreSearchCancel),
        (Modal::VersionSwitch, KeyPress::Char('y')) => Some(Update::ConfirmVersionSwitchYes),
        (Modal::VersionSwitch, KeyPress::Char('n')) => Some(Update::ConfirmVersionSwitchNo),
        (Modal::VersionSwitch, KeyPress::Esc) => Some(Update::ConfirmVersionSwitchNo),
        _ => None,
    }
}

fn key_everywhere(key: KeyPress) -> (r: Option<Update>)
    ensures
        r == common_key(key),
{
    match key {
        KeyPress::Char('O') => Some(Update::RequestCacheLevel(WireLevelFilter::Off)),
        KeyPress::Char('I') => Some(Update::RequestCacheLevel(WireLevelFilter::Info)),
        KeyPress::Char('D') => Some(Update::RequestCacheLevel(WireLevelFilter::Debug)),
        KeyPress::Char('T') => Some(Update::RequestCacheLevel(WireLevelFilter::Trace)),
        KeyPress::Char('C') => Some(Update::BeginChanceInput),
        KeyPress::Char('v') => Some(Update::BeginConfirmVersionSwitch),
        KeyPress::Char('q') => Some(Update::Quit),
        _ => None,
    }
}

fn key_in_graph(key: KeyPress) -> (r: Option<Update>)
    ensures
        r == graph_key(key),
{
    match key {
        KeyPress::Esc | KeyPress::Char('g') => Some(Update::ToggleGraph),
        KeyPress::Char('s') => Some(Update::EnterTable),
        KeyPress::Char('e') => Some(Update::EnterExplore),
        KeyPress::Char('a') => Some(Update::BeginGraphAggInput),
        KeyPress::Char('m') => Some(Update::ToggleGraphMetric),
        KeyPress::Char('w') => Some(Update::BeginGraphWindowInput),
        KeyPress::Char('l') => Some(Update::BeginGraphLookbackInput),
        KeyPress::Char('u') => Some(Update::ToggleGraphTimeLabels),
        KeyPress::Tab | KeyPress::BackTab => Some(Update::GraphSwitchFocus),
        KeyPress::Down | KeyPress::Char('j') => Some(Update::GraphSelectDown),
        KeyPress::Up | KeyPress::Char('k') => Some(Update::GraphSelectUp),
        KeyPress::Left | KeyPress::Char('h') => Some(Update::GraphSortColumnLeft),
        KeyPress::Right => Some(Update::GraphSortColumnRight),
        KeyPress::Char(' ') => Some(Update::GraphToggleSplit),
        _ => None,
    }
}

fn key_in_explore(key: KeyPress) -> (r: Option<Update>)
    ensures
        r == explore_key(key),
{
    match key {
        KeyPress::Esc => Some(Update::ExitExplore),
        KeyPress::Char('s') => Some(Update::EnterTable),
        KeyPress::Char('g') => Some(Update::EnterGraph),
        KeyPress::Char('/') => Some(Update::BeginExploreSearch),
        KeyPress::Char('i') => Some(Update::ExploreInvertSort),
        KeyPress::Down | KeyPress::Char('j') => Some(Update::ExploreSelectDown),
        KeyPress::Up | KeyPress::Char('k') => Some(Update::ExploreSelectUp),
        KeyPress::Left | KeyPress::Char('h') => Some(Update::ExploreSortLeft),
        KeyPress::Right | KeyPress::Char('l') => Some(Update::ExploreSortRight),
        KeyPress::Enter => Some(Update::ExploreOpenTrace),
        _ => None,
    }
}

fn key_in_trace(key: KeyPress) -> (r: Option<Update>)
    ensures
        r == trace_key(key),
{
    match key {
        KeyPress::Esc => Some(Update::ExitTraceDetail),
        KeyPress::Char('s') => Some(Update::EnterTable),
        KeyPress::Char('g') => Some(Update::EnterGraph),
        KeyPress::Char('e') => Some(Update::ExitTraceDetail),
        KeyPress::Down => Some(Update::TraceDetailSelectDown),
        KeyPress::Up => Some(Update::TraceDetailSelectUp),
        KeyPress::Right => Some(Update::TraceDetailExpand),
        KeyPress::Left => Some(Update::TraceDetailCollapse),
        _ => None,
    }
}

fn key_in_table(key: KeyPress) -> (r: Option<Update>)
    ensures
        r == table_key(key),
{
    match key {
        KeyPress::Esc => Some(Update::Quit),
        KeyPress::Down | KeyPress::Char('j') => Some(Update::SelectDown),
        KeyPress::Up | KeyPress::Char('k') => Some(Update::SelectUp),
        KeyPress::Right | KeyPress::Char('l') => Some(Update::ExpandSelected),
        KeyPress::Enter => Some(Update::ExpandAllSelected),
        KeyPress::Left | KeyPress::Char('h') => Some(Update::CollapseSelected),
        KeyPress::Tab | KeyPress::BackTab => Some(Update::SwitchFocus),
        KeyPress::Char(' ') => Some(Update::ToggleSplitSelected),
        KeyPress::Char('g') => Some(Update::ToggleGraph),
        KeyPress::Char('e') => Some(Update::EnterExplore),
        _ => None,
    }
}

/// The message that a key stands for, if it stands for any.
pub fn update_for(modal: Modal, view: ViewTag, key: KeyPress) -> (r: Option<Update>)
    ensures
        r == key_means(modal, view, key),
{
    if !matches!(modal, Modal::Closed) {
        return key_in_modal(modal, key);
    }
    let common = key_everywhere(key);
    if common.is_some() {
        return common;
    }
    match view {
        ViewTag::Graph => key_in_graph(key),
        ViewTag::Explore => key_in_explore(key),
        ViewTag::TraceDetail => key_in_trace(key),
        ViewTag::Table => key_in_table(key),
    }
}

/// While an input is open, no key leaves the program or changes the view.
pub proof fn inputs_keep_the_keys(modal: Modal, view: ViewTag, key: KeyPress)
    requires
        modal != Modal::Closed,
    ensures
        key_means(modal, view, key) == modal_key(modal, key),
        key_means(modal, view, key) != Some(Update::Quit),
        key_means(modal, view, key) != Some(Update::EnterTable),
        key_means(modal, view, key) != Some(Update::ToggleGraph),
{
}

} // verus!
