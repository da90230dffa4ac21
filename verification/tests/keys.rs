//! What the keys mean.

use tracing_console::keys::{modal_of, update_for, view_tag, KeyPress, Modal, ViewTag};
use tracing_console::model::console::Model;
use tracing_console::model::update::{Effect, Update};
use tracing_console::protocol::{WireLevel, WireLevelFilter, WireServerInfo, WireSpan};

fn span(id: u64, name: &str) -> WireSpan {
    WireSpan {
        id,
        parent_id: None,
        name: name.to_string(),
        target: "test".to_string(),
        level: WireLevel::Info,
        fields: Vec::new(),
        events: Vec::new(),
        opened_at_ns: 0,
        closed_at_ns: Some(1000),
    }
}

/// Presses a key and lets the console take what it means.
fn press(m: &mut Model, key: KeyPress) -> Option<Effect> {
    update_for(modal_of(m), view_tag(m), key).map(|u| m.apply(u, 5))
}

fn type_in(m: &mut Model, keys: &str) {
    for c in keys.chars() {
        press(m, KeyPress::Char(c));
    }
}

#[test]
fn level_keys_work_in_every_view() {
    for view in [ViewTag::Table, ViewTag::Graph, ViewTag::Explore, ViewTag::TraceDetail] {
        for (c, level) in [
            ('O', WireLevelFilter::Off),
            ('I', WireLevelFilter::Info),
            ('D', WireLevelFilter::Debug),
            ('T', WireLevelFilter::Trace),
        ] {
            match update_for(Modal::Closed, view, KeyPress::Char(c)) {
                Some(Update::RequestCacheLevel(l)) => assert_eq!(l, level),
                _ => panic!("{c} asks for a level"),
            }
        }
        assert!(matches!(
            update_for(Modal::Closed, view, KeyPress::Char('C')),
            Some(Update::BeginChanceInput)
        ));
        assert!(matches!(
            update_for(Modal::Closed, view, KeyPress::Char('q')),
            Some(Update::Quit)
        ));
    }
}

#[test]
fn escape_pops_one_level() {
    let esc = |view| update_for(Modal::Closed, view, KeyPress::Esc);
    assert!(matches!(esc(ViewTag::Table), Some(Update::Quit)));
    assert!(matches!(esc(ViewTag::Graph), Some(Update::ToggleGraph)));
    assert!(matches!(esc(ViewTag::Explore), Some(Update::ExitExplore)));
    assert!(matches!(esc(ViewTag::TraceDetail), Some(Update::ExitTraceDetail)));
}

#[test]
fn the_same_key_differs_by_view() {
    let l = |view| update_for(Modal::Closed, view, KeyPress::Char('l'));
    assert!(matches!(l(ViewTag::Table), Some(Update::ExpandSelected)));
    assert!(matches!(l(ViewTag::Graph), Some(Update::BeginGraphLookbackInput)));
    assert!(matches!(l(ViewTag::Explore), Some(Update::ExploreSortRight)));
    assert!(l(ViewTag::TraceDetail).is_none());
    assert!(update_for(Modal::Closed, ViewTag::Table, KeyPress::Other).is_none());
}

#[test]
fn an_open_input_takes_all_keys() {
    for modal in [
        Modal::Chance,
        Modal::GraphAgg,
        Modal::GraphWindow,
        Modal::GraphLookback,
        Modal::ExploreSearch,
    ] {
        let q = update_for(modal, ViewTag::Table, KeyPress::Char('q'));
        assert!(q.is_some() && !matches!(q, Some(Update::Quit)));
        assert!(update_for(modal, ViewTag::Table, KeyPress::Enter).is_some());
        assert!(update_for(modal, ViewTag::Table, KeyPress::Esc).is_some());
        assert!(update_for(modal, ViewTag::Table, KeyPress::Tab).is_none());
    }
}

#[test]
fn typing_a_chance_asks_the_host() {
    let mut m = Model::new(8);
    press(&mut m, KeyPress::Char('C'));
    assert_eq!(modal_of(&m), Modal::Chance);
    type_in(&mut m, "2q5");
    assert_eq!(m.chance_input.as_deref(), Some("25"));
    press(&mut m, KeyPress::Backspace);
    let effect = press(&mut m, KeyPress::Enter).unwrap();
    match effect {
        Effect::RequestSetChance(p) => assert_eq!(p.bits, 2.0f64.to_bits()),
        _ => panic!("expected a chance"),
    }
    assert_eq!(modal_of(&m), Modal::Closed);
}

#[test]
fn keys_walk_through_the_views() {
    let mut m = Model::new(8);
    m.apply(Update::SpanReceived(span(1, "a")), 0);
    assert_eq!(view_tag(&m), ViewTag::Table);
    press(&mut m, KeyPress::Char('g'));
    assert_eq!(view_tag(&m), ViewTag::Graph);
    press(&mut m, KeyPress::Char('a'));
    assert_eq!(modal_of(&m), Modal::GraphAgg);
    type_in(&mut m, "max");
    press(&mut m, KeyPress::Enter);
    assert_eq!(modal_of(&m), Modal::Closed);
    press(&mut m, KeyPress::Char('w'));
    assert_eq!(modal_of(&m), Modal::GraphWindow);
    press(&mut m, KeyPress::Esc);
    press(&mut m, KeyPress::Char('l'));
    assert_eq!(modal_of(&m), Modal::GraphLookback);
    press(&mut m, KeyPress::Esc);
    press(&mut m, KeyPress::Char('e'));
    assert_eq!(view_tag(&m), ViewTag::Explore);
    press(&mut m, KeyPress::Char('/'));
    assert_eq!(modal_of(&m), Modal::ExploreSearch);
    press(&mut m, KeyPress::Esc);
    press(&mut m, KeyPress::Enter);
    assert_eq!(view_tag(&m), ViewTag::TraceDetail);
    press(&mut m, KeyPress::Char('e'));
    assert_eq!(view_tag(&m), ViewTag::Explore);
    press(&mut m, KeyPress::Char('s'));
    assert_eq!(view_tag(&m), ViewTag::Table);
}

#[test]
fn a_version_switch_is_asked_for_and_answered() {
    let mut m = Model::new(8);
    m.apply(Update::ServerInfoReceived(WireServerInfo { version: "9.8.7".to_string() }), 0);
    press(&mut m, KeyPress::Char('v'));
    assert_eq!(modal_of(&m), Modal::VersionSwitch);
    // Nothing else gets through.
    assert!(press(&mut m, KeyPress::Char('q')).is_none());
    let effect = press(&mut m, KeyPress::Char('y')).unwrap();
    assert_eq!(effect, Effect::RunUpdateInstaller { version: Some("9.8.7".to_string()) });
    // The installer cannot be called off, and the restart is asked for.
    press(&mut m, KeyPress::Esc);
    assert_eq!(modal_of(&m), Modal::VersionSwitch);
    assert_eq!(m.apply(Update::InstallerSucceeded, 1), Effect::Nothing);
    assert_eq!(press(&mut m, KeyPress::Char('y')).unwrap(), Effect::Restart);
    let mut n = Model::new(8);
    n.apply(Update::ServerInfoReceived(WireServerInfo { version: "9.8.7".to_string() }), 0);
    press(&mut n, KeyPress::Char('v'));
    press(&mut n, KeyPress::Char('n'));
    assert_eq!(modal_of(&n), Modal::Closed);
}

#[test]
fn g_enters_and_leaves_the_graph() {
    let mut m = Model::new(8);
    m.apply(Update::SpanReceived(span(1, "a")), 0);
    press(&mut m, KeyPress::Char('g'));
    assert_eq!(view_tag(&m), ViewTag::Graph);
    press(&mut m, KeyPress::Char('g'));
    assert_eq!(view_tag(&m), ViewTag::Table);
}
