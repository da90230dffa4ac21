//! What the console takes from the host and sends to it.

use tracing_console::args::LevelArg;
use tracing_console::model::update::{Effect, Update};
use tracing_console::network::{
    connect_failure, connecting_notice, finish_burst, link_step, outgoing_for, request_for,
    resp_to_update, start_failure, start_request, startup_requests, Burst, Flow, Handed,
    LinkAction, LinkEvent, Outgoing, RequestIds, StreamItem, MAX_BATCH, RECONNECT_DELAY_NS,
};
use tracing_console::pattern::Double;
use tracing_console::protocol::{
    ControlCode, Request, RequestBody, Response, ResponseBody, WireLevelFilter,
};

fn pct(n: u64) -> Double {
    Double { bits: (n as f64).to_bits() }
}

#[test]
fn requests_are_numbered_in_turn() {
    let mut ids = RequestIds::new();
    assert_eq!(start_request(&mut ids).id, 1);
    let level = request_for(Outgoing::SetCacheLevel(WireLevelFilter::Info), &mut ids);
    assert_eq!(level.id, 2);
    assert!(matches!(level.body, RequestBody::SetCacheLevel(WireLevelFilter::Info)));
    let chance = request_for(Outgoing::SetCacheChance(pct(7)), &mut ids);
    assert_eq!(chance.id, 3);
    assert!(matches!(chance.body, RequestBody::SetCacheChance(p) if p == pct(7)));
    ids.next = u64::MAX;
    assert_eq!(ids.issue(), u64::MAX);
    assert_eq!(ids.issue(), 0);
}

#[test]
fn only_some_effects_reach_the_host() {
    assert!(matches!(
        outgoing_for(&Effect::RequestSetLevel(WireLevelFilter::Warn)),
        Some(Outgoing::SetCacheLevel(WireLevelFilter::Warn))
    ));
    assert!(matches!(
        outgoing_for(&Effect::RequestSetChance(pct(3))),
        Some(Outgoing::SetCacheChance(p)) if p == pct(3)
    ));
    assert!(outgoing_for(&Effect::Quit).is_none());
    assert!(outgoing_for(&Effect::Nothing).is_none());
}

#[test]
fn the_command_line_asks_first() {
    let both = startup_requests(Some(LevelArg::Debug), Some(pct(50)));
    assert_eq!(both.len(), 2);
    assert!(matches!(both[0], Outgoing::SetCacheLevel(WireLevelFilter::Debug)));
    assert!(matches!(both[1], Outgoing::SetCacheChance(p) if p == pct(50)));
    assert!(startup_requests(None, None).is_empty());
    assert_eq!(LevelArg::Off.to_wire(), WireLevelFilter::Off);
    assert_eq!(LevelArg::Error.to_wire(), WireLevelFilter::Error);
    assert_eq!(LevelArg::Warn.to_wire(), WireLevelFilter::Warn);
    assert_eq!(LevelArg::Info.to_wire(), WireLevelFilter::Info);
    assert_eq!(LevelArg::Trace.to_wire(), WireLevelFilter::Trace);
}

#[test]
fn answers_become_updates() {
    assert!(resp_to_update(Response::ack()).is_none());
    assert!(resp_to_update(Response::error("no".to_string())).is_none());
    assert!(matches!(
        resp_to_update(Response::cache_level(WireLevelFilter::Error)),
        Some(Update::CacheLevelReceived(WireLevelFilter::Error))
    ));
    match resp_to_update(Response::server_info("1.2.3".to_string())) {
        Some(Update::ServerInfoReceived(info)) => assert_eq!(info.version, "1.2.3"),
        _ => panic!("expected the host's version"),
    }
}

#[test]
fn bursts_are_bounded_and_skip_acks() {
    let mut burst = Burst::new();
    burst.take(StreamItem::Answer(Response::ack()));
    assert!(burst.updates.is_empty());
    while burst.wants_more() {
        burst.take(StreamItem::Answer(Response::cache_chance(pct(1))));
    }
    assert_eq!(burst.updates.len(), MAX_BATCH);
}

#[test]
fn failures_and_ends_are_told() {
    let mut failed = Burst::new();
    failed.take(StreamItem::Failed("broken pipe".to_string()));
    assert!(!failed.wants_more());
    let (flow, reasons) = finish_burst(failed.failure, failed.ended, Handed::Taken);
    assert_eq!(flow, Flow::Reconnect);
    assert_eq!(reasons, vec!["stream error: broken pipe", "stream ended"]);

    let mut ended = Burst::new();
    ended.take(StreamItem::Ended);
    assert!(!ended.wants_more());
    let (flow, reasons) = finish_burst(ended.failure, ended.ended, Handed::Full);
    assert_eq!(flow, Flow::Reconnect);
    assert_eq!(reasons, vec!["stream ended"]);

    assert_eq!(finish_burst(None, false, Handed::Full).0, Flow::Stay);
    assert_eq!(finish_burst(None, false, Handed::Closed).0, Flow::Stop);
    assert_eq!(finish_burst(Some("x".to_string()), true, Handed::Closed).0, Flow::Stop);
}

#[test]
fn notices_name_what_happened() {
    assert_eq!(connecting_notice("127.0.0.1:7777"), "connecting to 127.0.0.1:7777…");
    assert_eq!(connect_failure("refused"), "connect failed: refused");
    assert_eq!(start_failure("gone"), "StartStream failed: gone");
}

#[test]
fn control_codes_travel_as_bytes() {
    let mut request = Request::new(RequestBody::StopStream);
    assert_eq!(request.control, 0);
    assert_eq!(request.control_code(), ControlCode::Normal);
    request.set_message_id(17);
    assert_eq!(request.message_id(), 17);
    let cancelled = Request::cancelled(4);
    assert_eq!((cancelled.id, cancelled.control), (4, 1));
    assert_eq!(cancelled.control_code(), ControlCode::Cancel);
    let ended = Response::ended(5);
    assert_eq!((ended.id, ended.control), (5, 2));
    assert_eq!(ended.control_code(), ControlCode::End);
    assert!(matches!(ended.body, ResponseBody::Noop));
    let strange = Response { id: 0, control: 200, body: ResponseBody::Noop };
    assert_eq!(strange.control_code(), ControlCode::Cancel);
}

#[test]
fn connections_are_dialled_followed_and_given_up() {
    let again = LinkAction::Redial(RECONNECT_DELAY_NS);
    let refused = link_step(LinkEvent::Refused("no route".to_string()));
    assert!(matches!(refused.told, Some(Update::Disconnected(why)) if why == "connect failed: no route"));
    assert_eq!((refused.hang_up, refused.next), (false, again));
    let dialled = link_step(LinkEvent::Dialled);
    assert!(matches!(dialled.told, Some(Update::Connected)));
    assert_eq!((dialled.hang_up, dialled.next), (false, LinkAction::Start));
    let failed = link_step(LinkEvent::NotStarted("closed".to_string()));
    assert!(
        matches!(failed.told, Some(Update::Disconnected(why)) if why == "StartStream failed: closed")
    );
    assert_eq!((failed.hang_up, failed.next), (true, again));
    let started = link_step(LinkEvent::Started);
    assert!(started.told.is_none());
    assert_eq!((started.hang_up, started.next), (false, LinkAction::Follow));
    for (flow, hang_up, next) in [
        (Flow::Stay, false, LinkAction::Follow),
        (Flow::Reconnect, true, again),
        (Flow::Stop, true, LinkAction::Quit),
    ] {
        let left = link_step(LinkEvent::Left(flow));
        assert!(left.told.is_none());
        assert_eq!((left.hang_up, left.next), (hang_up, next));
    }
}
