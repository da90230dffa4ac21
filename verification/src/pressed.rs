//! What comes of a key that is pressed.

use vstd::prelude::*;

use crate::aggregate::ring::EntryModel;
use crate::keys::{key_means, open_modal_of, tag_of, KeyPress, Modal, ViewTag};
use crate::model::console::{console_after, effect_of, view_after, ConsoleModel};
use crate::model::explore::{matching, trace_rows, ExploreModel, TraceModel};
use crate::model::input::{agg_slot, decimal_slot, lookback_slot, search_slot};
use crate::model::steps::{explore_after, trace_after, trace_cursor};
use crate::model::update::{EffectModel, Update};
use crate::protocol::WireLevelFilter;

verus! {

/// What a key means to the console as it is.
pub open spec fn meaning(m: ConsoleModel, key: KeyPress) -> Option<Update> {
    key_means(open_modal_of(m), tag_of(m), key)
}

/// The console after a key was pressed.
pub open spec fn after_key(m: ConsoleModel, key: KeyPress, now: u64) -> ConsoleModel {
    match meaning(m, key) {
        Some(u) => console_after(m, u, now),
        None => m,
    }
}

/// What the console asks for when a key is pressed.
pub open spec fn asked_by_key(m: ConsoleModel, key: KeyPress) -> EffectModel {
    match meaning(m, key) {
        Some(u) => effect_of(m, u),
        None => EffectModel::Nothing,
    }
}

/// The keys that open an input open the one that they stand for: in the graph
/// `a` the aggregation, `w` the window and `l` the lookback, in the explore
/// view `/` the search, and everywhere `C` the chance and, where the host has
/// another version, `v` the question whether to switch to it.
pub proof fn keys_open_their_inputs(m: ConsoleModel, now: u64)
    requires
        open_modal_of(m) is Closed,
    ensures
        m.view is Graph ==> {
            &&& open_modal_of(after_key(m, KeyPress::Char('a'), now)) is GraphAgg
            &&& open_modal_of(after_key(m, KeyPress::Char('w'), now)) is GraphWindow
            &&& open_modal_of(after_key(m, KeyPress::Char('l'), now)) is GraphLookback
        },
        m.view is Explore ==> open_modal_of(
            after_key(m, KeyPress::Char('/'), now),
        ) is ExploreSearch,
        open_modal_of(after_key(m, KeyPress::Char('C'), now)) is Chance,
        m.server_version is Some && m.server_version->0 != crate::model::console::CLIENT_VERSION@
            ==> open_modal_of(after_key(m, KeyPress::Char('v'), now)) is VersionSwitch,
{
    reveal(view_after);
}

/// A character that is typed goes to the input that is open, and to it alone.
/// Escape closes an input and leaves all else as it is.
pub proof fn open_inputs_take_what_is_typed(m: ConsoleModel, c: char, now: u64)
    ensures
        ({
            let typed = after_key(m, KeyPress::Char(c), now);
            let left = after_key(m, KeyPress::Esc, now);
            &&& open_modal_of(m) is Chance ==> {
                &&& typed == (ConsoleModel {
                    chance_input: decimal_slot(m.chance_input, c),
                    ..m
                })
                &&& left == (ConsoleModel { chance_input: None, ..m })
            }
            &&& open_modal_of(m) is GraphAgg ==> {
                &&& typed.view->Graph_0.agg_input == agg_slot(m.view->Graph_0.agg_input, c)
                &&& typed.view->Graph_0.aggregation == m.view->Graph_0.aggregation
                &&& left.view->Graph_0.agg_input is None
                &&& left.view->Graph_0.aggregation == m.view->Graph_0.aggregation
            }
            &&& open_modal_of(m) is GraphWindow ==> {
                &&& typed.view->Graph_0.window_input == decimal_slot(
                    m.view->Graph_0.window_input,
                    c,
                )
                &&& typed.view->Graph_0.window_secs == m.view->Graph_0.window_secs
                &&& left.view->Graph_0.window_input is None
                &&& left.view->Graph_0.window_secs == m.view->Graph_0.window_secs
            }
            &&& open_modal_of(m) is GraphLookback ==> {
                &&& typed.view->Graph_0.lookback_input == lookback_slot(
                    m.view->Graph_0.lookback_input,
                    c,
                )
                &&& typed.view->Graph_0.lookback_secs == m.view->Graph_0.lookback_secs
                &&& left.view->Graph_0.lookback_input is None
                &&& left.view->Graph_0.lookback_secs == m.view->Graph_0.lookback_secs
            }
            &&& open_modal_of(m) is ExploreSearch ==> {
                &&& typed.view->Explore_0.search_input == search_slot(
                    m.view->Explore_0.search_input,
                    c,
                )
                &&& typed.view->Explore_0.query == m.view->Explore_0.query
                &&& left.view->Explore_0.search_input is None
                &&& left.view->Explore_0.query == m.view->Explore_0.query
            }
        }),
{
    reveal(view_after);
}

/// Enter commits the input that is open and closes it.
pub proof fn enter_commits_the_open_input(m: ConsoleModel, now: u64)
    ensures
        ({
            let done = after_key(m, KeyPress::Enter, now);
            &&& open_modal_of(m) is Chance ==> meaning(m, KeyPress::Enter) == Some(
                Update::ChanceInputCommit,
            ) && done.chance_input is None
            &&& open_modal_of(m) is GraphAgg ==> meaning(m, KeyPress::Enter) == Some(
                Update::GraphAggInputCommit,
            )
            &&& open_modal_of(m) is GraphWindow ==> meaning(m, KeyPress::Enter) == Some(
                Update::GraphWindowInputCommit,
            )
            &&& open_modal_of(m) is GraphLookback ==> meaning(m, KeyPress::Enter) == Some(
                Update::GraphLookbackInputCommit,
            )
            &&& open_modal_of(m) is ExploreSearch ==> done.view->Explore_0.search_input is None
                && Some(done.view->Explore_0.query) == m.view->Explore_0.search_input
        }),
{
    reveal(view_after);
}

/// Where no input is open, the four level keys ask the host for their level,
/// `q` leaves, and the letters of the views lead to them: `s` to the table,
/// `g` to the graph or from it back to the table, `e` to the explore view.
/// What is paused while spans are explored is resumed on leaving.
pub proof fn keys_lead_where_they_say(m: ConsoleModel, now: u64)
    requires
        open_modal_of(m) is Closed,
    ensures
        asked_by_key(m, KeyPress::Char('O')) == EffectModel::RequestSetLevel(WireLevelFilter::Off),
        asked_by_key(m, KeyPress::Char('I')) == EffectModel::RequestSetLevel(WireLevelFilter::Info),
        asked_by_key(m, KeyPress::Char('D')) == EffectModel::RequestSetLevel(
            WireLevelFilter::Debug,
        ),
        asked_by_key(m, KeyPress::Char('T')) == EffectModel::RequestSetLevel(
            WireLevelFilter::Trace,
        ),
        asked_by_key(m, KeyPress::Char('q')) is Quit,
        m.view is Table ==> asked_by_key(m, KeyPress::Esc) is Quit,
        !(m.view is Table) ==> !(asked_by_key(m, KeyPress::Esc) is Quit),
        !(m.view is Table) ==> after_key(m, KeyPress::Char('s'), now).view is Table,
        m.stack_at_hand() is Some && !(m.view is Graph) ==> after_key(
            m,
            KeyPress::Char('g'),
            now,
        ).view is Graph,
        m.view is Graph ==> after_key(m, KeyPress::Char('g'), now).view is Table,
        m.view is Graph ==> after_key(m, KeyPress::Esc, now).view is Table,
        m.view is Explore ==> after_key(m, KeyPress::Esc, now).view is Table,
        m.view is TraceDetail ==> after_key(m, KeyPress::Esc, now).view is Explore,
        m.stack_at_hand() is Some && !(m.view is Explore) ==> after_key(
            m,
            KeyPress::Char('e'),
            now,
        ).view is Explore,
{
}

/// The letters that stand for arrows mean what the arrows mean: `j` down and
/// `k` up in every list, `h` to the left, and `l` to the right except in the
/// graph, where it opens an input.
pub proof fn letters_stand_for_arrows(view: ViewTag)
    ensures
        !(view is TraceDetail) ==> {
            &&& key_means(Modal::Closed, view, KeyPress::Char('j')) == key_means(
                Modal::Closed,
                view,
                KeyPress::Down,
            )
            &&& key_means(Modal::Closed, view, KeyPress::Char('k')) == key_means(
                Modal::Closed,
                view,
                KeyPress::Up,
            )
            &&& key_means(Modal::Closed, view, KeyPress::Char('h')) == key_means(
                Modal::Closed,
                view,
                KeyPress::Left,
            )
        },
        view is Table || view is Explore ==> key_means(Modal::Closed, view, KeyPress::Char('l'))
            == key_means(Modal::Closed, view, KeyPress::Right),
        key_means(Modal::Closed, view, KeyPress::Tab) == key_means(
            Modal::Closed,
            view,
            KeyPress::BackTab,
        ),
{
}

/// Going down and up again with the keys of the table leads back where there
/// is room below the cursor.
pub proof fn arrows_undo_each_other(m: ConsoleModel, now: u64)
    requires
        open_modal_of(m) is Closed,
        m.view is Table,
        m.cursor() + 1 < m.pane_len() <= usize::MAX,
    ensures
        after_key(after_key(m, KeyPress::Down, now), KeyPress::Up, now) == m,
        after_key(m, KeyPress::Down, now).cursor() == m.cursor() + 1,
{
}

/// Going down and up again in the list of spans and in a trace leads back
/// where there is room below the cursor; on the last row the cursor stays.
pub proof fn lists_are_walked_both_ways(
    es: ExploreModel,
    td: TraceModel,
    ring: Seq<EntryModel>,
)
    requires
        matching(ring, es).len() <= usize::MAX,
        trace_rows(ring, td).len() <= usize::MAX,
    ensures
        ({
            let down = explore_after(es, ring, Update::ExploreSelectDown);
            if es.selected + 1 < matching(ring, es).len() {
                &&& down == (ExploreModel { selected: (es.selected + 1) as usize, ..es })
                &&& explore_after(down, ring, Update::ExploreSelectUp) == es
            } else {
                down == es
            }
        }),
        ({
            let down = trace_after(td, ring, Update::TraceDetailSelectDown);
            if td.selected_idx + 1 < trace_rows(ring, td).len() {
                &&& down == (TraceModel { selected_idx: (td.selected_idx + 1) as usize, ..td })
                &&& trace_after(down, ring, Update::TraceDetailSelectUp) == td
            } else {
                down == td
            }
        }),
        key_means(Modal::Closed, ViewTag::Explore, KeyPress::Down) == Some(
            Update::ExploreSelectDown,
        ),
        key_means(Modal::Closed, ViewTag::Explore, KeyPress::Up) == Some(Update::ExploreSelectUp),
        key_means(Modal::Closed, ViewTag::TraceDetail, KeyPress::Down) == Some(
            Update::TraceDetailSelectDown,
        ),
        key_means(Modal::Closed, ViewTag::TraceDetail, KeyPress::Up) == Some(
            Update::TraceDetailSelectUp,
        ),
{
}

/// Folding the span under the cursor of a trace and opening it again leads
/// back, where it was open; the cursor stays on its row.
pub proof fn folding_is_undone(td: TraceModel, ring: Seq<EntryModel>, id: u64)
    requires
        trace_cursor(ring, td) == Some(id),
    ensures
        ({
            let shut = trace_after(td, ring, Update::TraceDetailCollapse);
            let open = trace_after(td, ring, Update::TraceDetailExpand);
            &&& shut.collapsed == td.collapsed.insert(id)
            &&& open.collapsed == td.collapsed.remove(id)
            &&& shut.selected_idx == td.selected_idx && open.selected_idx == td.selected_idx
            &&& shut.root_id == td.root_id && open.root_id == td.root_id
            &&& !td.collapsed.contains(id) && trace_cursor(ring, shut) == Some(id) ==> trace_after(
                shut,
                ring,
                Update::TraceDetailExpand,
            ) == td
        }),
{
    assert(!td.collapsed.contains(id) ==> td.collapsed.insert(id).remove(id) =~= td.collapsed);
}

/// The question whether to switch versions takes `y` and `n`, and escape for
/// no; any other key is lost.
pub proof fn the_question_takes_yes_and_no(m: ConsoleModel, key: KeyPress, now: u64)
    requires
        m.confirm_version_switch is Some,
        m.confirm_version_switch->0.status is Confirming,
    ensures
        key == KeyPress::Char('y') ==> {
            &&& after_key(m, key, now).confirm_version_switch is Some
            &&& after_key(m, key, now).confirm_version_switch->0.status is Running
            &&& asked_by_key(m, key) is RunUpdateInstaller
        },
        key == KeyPress::Char('n') || key == KeyPress::Esc ==> {
            &&& after_key(m, key, now) == (ConsoleModel { confirm_version_switch: None, ..m })
            &&& asked_by_key(m, key) is Nothing
        },
        key != KeyPress::Char('y') && key != KeyPress::Char('n') && key != KeyPress::Esc
            ==> after_key(m, key, now) == m && asked_by_key(m, key) is Nothing,
{
}

} // verus!
