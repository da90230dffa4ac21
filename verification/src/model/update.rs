//! Every message that can move the console, and what the console asks of its
//! surroundings in return.

use vstd::prelude::*;

use crate::pattern::Double;
use crate::model::series::AggMode;
use crate::protocol::{Text, WireLevelFilter, WireServerInfo, WireSpan};

verus! {

/// Every message that can move the console.
#[derive(Debug, Clone)]
pub enum Update {
    SpanReceived(WireSpan),
    SelectUp,
    SelectDown,
    /// Shows what is directly below the selected row.
    ExpandSelected,
    /// Shows everything below the selected row.
    ExpandAllSelected,
    /// Folds the selected row, or else its parent.
    CollapseSelected,
    /// Swaps the focus between the stacks and the details.
    SwitchFocus,
    /// Takes the selected key into the split keys, or out of them.
    ToggleSplitSelected,
    /// The host tells its recording level.
    CacheLevelReceived(WireLevelFilter),
    /// The host tells its version.
    ServerInfoReceived(WireServerInfo),
    /// The user asks for a recording level.
    RequestCacheLevel(WireLevelFilter),
    /// The host tells its recording chance, in percent.
    CacheChanceReceived(Double),
    BeginChanceInput,
    ChanceInputChar(char),
    ChanceInputBackspace,
    ChanceInputCancel,
    ChanceInputCommit,
    /// Enters the graph of the selected row, or leaves for the table.
    ToggleGraph,
    SetGraphAgg(AggMode),
    ToggleGraphMetric,
    BeginGraphAggInput,
    GraphAggInputChar(char),
    GraphAggInputBackspace,
    GraphAggInputCancel,
    GraphAggInputCommit,
    BeginGraphWindowInput,
    GraphWindowInputChar(char),
    GraphWindowInputBackspace,
    GraphWindowInputCancel,
    GraphWindowInputCommit,
    BeginGraphLookbackInput,
    GraphLookbackInputChar(char),
    GraphLookbackInputBackspace,
    GraphLookbackInputCancel,
    GraphLookbackInputCommit,
    ToggleGraphTimeLabels,
    /// Lists the spans of the stack at hand and pauses recording.
    EnterExplore,
    /// Leaves for the table and resumes recording.
    ExitExplore,
    ExploreSelectUp,
    ExploreSelectDown,
    ExploreSortLeft,
    ExploreSortRight,
    ExploreInvertSort,
    BeginExploreSearch,
    ExploreSearchChar(char),
    ExploreSearchBackspace,
    ExploreSearchCancel,
    ExploreSearchCommit,
    /// Opens the trace of the selected span.
    ExploreOpenTrace,
    ExitTraceDetail,
    TraceDetailSelectUp,
    TraceDetailSelectDown,
    TraceDetailExpand,
    TraceDetailCollapse,
    /// Goes to the table from any view.
    EnterTable,
    /// Goes to the graph of the stack at hand.
    EnterGraph,
    GraphSwitchFocus,
    GraphSelectUp,
    GraphSelectDown,
    /// Hides or shows the selected series, or splits by the selected key.
    GraphToggleSplit,
    GraphSortColumnLeft,
    GraphSortColumnRight,
    Connected,
    Disconnected(String),
    Status(String),
    Quit,
    QuitConfirmDismiss,
    BeginConfirmVersionSwitch,
    ConfirmVersionSwitchYes,
    ConfirmVersionSwitchNo,
    InstallerSucceeded,
    /// The installer failed and printed this.
    InstallerFailed(String),
}

/// What the console asks of its surroundings.
#[derive(Debug, Clone, PartialEq)]
pub enum Effect {
    Nothing,
    Quit,
    /// Ask the host for a recording level.
    RequestSetLevel(WireLevelFilter),
    /// Ask the host for a recording chance, in percent.
    RequestSetChance(Double),
    /// Install the given version, or the latest.
    RunUpdateInstaller { version: Option<String> },
    /// Start the installed program in place of this one.
    Restart,
}

pub ghost enum EffectModel {
    Nothing,
    Quit,
    RequestSetLevel(WireLevelFilter),
    RequestSetChance(Double),
    RunUpdateInstaller { version: Option<Text> },
    Restart,
}

impl View for Effect {
    type V = EffectModel;

    open spec fn view(&self) -> EffectModel {
        match self {
            Effect::Nothing => EffectModel::Nothing,
            Effect::Quit => EffectModel::Quit,
            Effect::RequestSetLevel(f) => EffectModel::RequestSetLevel(*f),
            Effect::RequestSetChance(p) => EffectModel::RequestSetChance(*p),
            Effect::RunUpdateInstaller { version } => EffectModel::RunUpdateInstaller {
                version: match version {
                    Some(v) => Some(v@),
                    None => None,
                },
            },
            Effect::Restart => EffectModel::Restart,
        }
    }
}

} // verus!
