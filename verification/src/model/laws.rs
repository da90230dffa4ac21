//! What holds of the console whatever messages reach it.

use vstd::prelude::*;

use crate::aggregate::ring::EntryModel;
use crate::model::console::{
    collapsed, console_after, effect_of, begins, ConsoleModel, Focus, StatusModel,
};
use crate::model::explore::{
    column_place, cycled, first_at, natural_direction, sort_columns, ExploreColumn, ExploreModel,
    TraceModel,
};
use crate::model::graph::{
    drawn_keeps_settings, rehydrated, GraphModel, Metric, TimeLabels,
};
use crate::model::series::{wiped, window_ns_of, StoreModel};
use crate::model::steps::{explore_after, graph_after, toggled, trace_after};
use crate::model::update::{EffectModel, Update};
use crate::protocol::{Text, WireLevelFilter};

verus! {

/// The recording level shown is what the host last told. No request of the
/// user changes it: a request is only handed on.
pub proof fn only_the_host_tells_its_level(m: ConsoleModel, u: Update, now: u64)
    ensures
        u matches Update::RequestCacheLevel(f) ==> effect_of(m, u)
            == EffectModel::RequestSetLevel(f),
        console_after(m, u, now).cache_level == match u {
            Update::CacheLevelReceived(f) => Some(f),
            _ => m.cache_level,
        },
{
}

/// The recording chance shown is what the host last told. No request of the
/// user changes it.
pub proof fn only_the_host_tells_its_chance(m: ConsoleModel, u: Update, now: u64)
    ensures
        console_after(m, u, now).cache_chance == match u {
            Update::CacheChanceReceived(p) => Some(p),
            _ => m.cache_chance,
        },
{
}

/// The version shown is what the host last told.
pub proof fn only_the_host_tells_its_version(m: ConsoleModel, u: Update, now: u64)
    ensures
        console_after(m, u, now).server_version == match u {
            Update::ServerInfoReceived(info) => Some(info.version@),
            _ => m.server_version,
        },
{
}

/// Only arriving spans and split keys change the window.
pub proof fn looking_changes_no_spans(m: ConsoleModel, u: Update, now: u64)
    requires
        !(u is SpanReceived),
        !(u is ToggleSplitSelected),
    ensures
        console_after(m, u, now).agg == m.agg,
        console_after(m, u, now).rate == m.rate,
{
}

/// Entering the explore view pauses recording, and leaving it, straight or
/// by way of a trace, asks for the level that was known on entry, or for the
/// finest where none was known.
pub proof fn explore_resumes_recording(m: ConsoleModel, now: u64)
    requires
        m.view is Table || m.view is Graph,
        m.stack_at_hand() is Some,
    ensures
        effect_of(m, Update::EnterExplore) == EffectModel::RequestSetLevel(WireLevelFilter::Off),
        ({
            let inside = console_after(m, Update::EnterExplore, now);
            let level = match m.cache_level {
                Some(level) => level,
                None => WireLevelFilter::Trace,
            };
            &&& inside.view is Explore
            &&& effect_of(inside, Update::ExitExplore) == EffectModel::RequestSetLevel(level)
            &&& effect_of(inside, Update::EnterTable) == EffectModel::RequestSetLevel(level)
            &&& effect_of(inside, Update::EnterGraph) == EffectModel::RequestSetLevel(level)
            &&& effect_of(
                console_after(inside, Update::ExploreOpenTrace, now),
                Update::ExitExplore,
            ) == EffectModel::RequestSetLevel(level)
        }),
{
}

/// No message within the explore view or a trace loses the level to go back
/// to, or the stack.
pub proof fn explore_keeps_its_entry(
    es: ExploreModel,
    td: TraceModel,
    ring: Seq<EntryModel>,
    u: Update,
)
    ensures
        explore_after(es, ring, u).restore_level == es.restore_level,
        explore_after(es, ring, u).locked_stack == es.locked_stack,
        trace_after(td, ring, u).explore == td.explore,
        trace_after(td, ring, u).root_id == td.root_id,
{
}

/// Going back from a trace restores the explore view as it was.
pub proof fn trace_returns_to_explore(m: ConsoleModel, now: u64)
    requires
        m.view is Explore,
    ensures
        ({
            let inside = console_after(m, Update::ExploreOpenTrace, now);
            inside.view is TraceDetail ==> console_after(inside, Update::ExitTraceDetail, now) == m
                && console_after(inside, Update::EnterExplore, now) == m
        }),
{
}

proof fn rehydrated_keeps_settings(g: GraphModel, ring: Seq<EntryModel>)
    ensures
        rehydrated(g, ring) == (GraphModel { store: rehydrated(g, ring).store, ..g }),
{
    drawn_keeps_settings(
        GraphModel {
            store: wiped(StoreModel { window_ns: window_ns_of(g.window_secs), ..g.store }),
            ..g
        },
        ring,
        ring.len() as int,
    );
}

/// No message within the graph view changes the stack that it draws.
pub proof fn graph_keeps_its_stack(g: GraphModel, ring: Seq<EntryModel>, u: Update)
    ensures
        graph_after(g, ring, u).locked_stack == g.locked_stack,
{
    match u {
        Update::ToggleGraphMetric => {
            rehydrated_keeps_settings(GraphModel { metric: g.metric.spec_next(), ..g }, ring);
        },
        Update::GraphWindowInputCommit => {
            if let Some(s) = g.window_input {
                if let Some(w) = crate::model::input::window_input(s) {
                    rehydrated_keeps_settings(
                        GraphModel { window_input: None, window_secs: w, ..g },
                        ring,
                    );
                }
            }
        },
        Update::GraphToggleSplit => {
            let series = crate::model::steps::graph_series(g);
            let keys = crate::model::steps::graph_keys(g, ring);
            let at = g.details_selected as int;
            if at >= series.len() && at - series.len() < keys.len() {
                let split_keys = toggled(g.split_keys, keys[at - series.len()]);
                rehydrated_keeps_settings(
                    GraphModel {
                        split_keys,
                        hidden_series: Set::empty(),
                        sort_column: match g.sort_column {
                            crate::model::graph::ColumnModel::SplitKey(k) => if split_keys.contains(
                                k,
                            ) {
                                g.sort_column
                            } else {
                                crate::model::graph::ColumnModel::Count
                            },
                            _ => g.sort_column,
                        },
                        ..g
                    },
                    ring,
                );
            }
        },
        _ => {},
    }
}

/// The cursor stays among the rows of the pane in focus.
pub proof fn cursor_stays_in_pane(m: ConsoleModel, now: u64)
    requires
        m.cursor() < m.pane_len(),
    ensures
        ({
            let up = console_after(m, Update::SelectUp, now);
            up.cursor() < m.pane_len() && up.cursor() <= m.cursor()
        }),
        ({
            let down = console_after(m, Update::SelectDown, now);
            down.cursor() < m.pane_len() && down.cursor() >= m.cursor()
        }),
{
}

/// Toggling twice changes nothing.
pub proof fn toggle_is_involution<T>(set: Set<T>, x: T)
    ensures
        toggled(toggled(set, x), x) == set,
{
    assert(toggled(toggled(set, x), x) =~= set);
}

/// The two metrics take turns, and the three kinds of time labels come round.
pub proof fn graph_choices_come_round(m: Metric, t: TimeLabels)
    ensures
        m.spec_next() != m,
        m.spec_next().spec_next() == m,
        t.spec_next() != t,
        t.spec_next().spec_next() != t,
        t.spec_next().spec_next().spec_next() == t,
{
}

/// Folding an open row leaves nothing open in its subtree.
pub proof fn folding_closes_the_subtree(m: ConsoleModel, stack: Seq<Text>)
    requires
        m.focus == Focus::Stacks,
        m.selected < m.rows().len(),
        m.rows()[m.selected as int].is_expanded,
        begins(m.rows()[m.selected as int].key.stack, stack),
    ensures
        !collapsed(m).expanded.contains(stack),
{
}

/// While the installer runs, no answer of the user stops it, asks for it
/// again or closes the question.
pub proof fn running_installer_is_left_alone(m: ConsoleModel, now: u64)
    requires
        m.confirm_version_switch is Some,
        m.confirm_version_switch->0.status == StatusModel::Running,
    ensures
        console_after(m, Update::ConfirmVersionSwitchYes, now) == m,
        console_after(m, Update::ConfirmVersionSwitchNo, now) == m,
        console_after(m, Update::BeginConfirmVersionSwitch, now) == m,
        effect_of(m, Update::ConfirmVersionSwitchYes) == EffectModel::Nothing,
{
}

/// The installer is asked for the version that the question showed.
pub proof fn installer_gets_the_version_shown(m: ConsoleModel, now: u64, later: Text)
    requires
        m.confirm_version_switch is None,
        m.server_version is Some,
        m.server_version->0 != crate::model::console::CLIENT_VERSION@,
    ensures
        ({
            let asked = console_after(m, Update::BeginConfirmVersionSwitch, now);
            let told = ConsoleModel { server_version: Some(later), ..asked };
            effect_of(told, Update::ConfirmVersionSwitchYes) == EffectModel::RunUpdateInstaller {
                version: m.server_version,
            }
        }),
{
}

/// Sorting by the next column and then by the one before gives the sort
/// back, in its natural direction.
pub proof fn sort_left_undoes_right(es: ExploreModel, fields: Seq<Text>)
    requires
        fields.no_duplicates(),
        sort_columns(fields).contains(es.sort),
    ensures
        cycled(cycled(es, fields, 1), fields, -1) == (ExploreModel {
            direction: natural_direction(es.sort),
            ..es
        }),
        cycled(cycled(es, fields, -1), fields, 1) == (ExploreModel {
            direction: natural_direction(es.sort),
            ..es
        }),
{
    let columns = sort_columns(fields);
    let n = columns.len() as int;
    assert forall|i: int, j: int| 0 <= i < j < n implies columns[i] != columns[j] by {
        if i >= 2 {
            assert(fields[i - 2] != fields[j - 2]);
        }
    }
    let i = choose|i: int| 0 <= i < n && columns[i] == es.sort;
    place_of(columns, i);
    let right = (i + 1) % n;
    let left = (i - 1) % n;
    place_of(columns, right);
    place_of(columns, left);
    assert((right - 1) % n == i && (left + 1) % n == i) by {
        if i + 1 < n {
            vstd::arithmetic::div_mod::lemma_small_mod((i + 1) as nat, n as nat);
            vstd::arithmetic::div_mod::lemma_small_mod(i as nat, n as nat);
        } else {
            assert(right == 0) by {
                vstd::arithmetic::div_mod::lemma_mod_self_0(n);
            }
            assert((0 - 1) % n == n - 1) by {
                vstd::arithmetic::div_mod::lemma_mod_add_multiples_vanish(-1, n);
                vstd::arithmetic::div_mod::lemma_small_mod((n - 1) as nat, n as nat);
            }
        }
        if i >= 1 {
            vstd::arithmetic::div_mod::lemma_small_mod((i - 1) as nat, n as nat);
            vstd::arithmetic::div_mod::lemma_small_mod(i as nat, n as nat);
        } else {
            assert(left == n - 1) by {
                vstd::arithmetic::div_mod::lemma_mod_add_multiples_vanish(-1, n);
                vstd::arithmetic::div_mod::lemma_small_mod((n - 1) as nat, n as nat);
            }
            vstd::arithmetic::div_mod::lemma_mod_self_0(n);
        }
    }
}

proof fn place_of(columns: Seq<ExploreColumn>, i: int)
    requires
        0 <= i < columns.len(),
        forall|a: int, b: int|
            0 <= a < b < columns.len() ==> #[trigger] columns[a] != #[trigger] columns[b],
    ensures
        column_place(columns, columns[i]) == i,
{
    assert(first_at(columns, columns[i], i));
    let k = choose|k: int| first_at(columns, columns[i], k);
    assert(first_at(columns, columns[i], k));
    if k < i {
        assert(columns[k] != columns[i]);
    } else if i < k {
        assert(columns[i] != columns[k]);
    }
}

} // verus!
