//! The driver and its log lines.

use std::collections::HashMap;
use std::sync::mpsc::{self, Sender};

use hop_relayd::driver::{
    apply_event, driver_step, log_peer_changes, maybe_emit_stats, pump_outgoing, settle_sends,
    Applied, DriverAction, DriverEvent, DriverPhase, Ev, NodeCall, PeerSet,
};
use hop_relayd::keys::BundleId;
use hop_relayd::lines::{
    announce_startup, handoff_line, ingest_line, node_line, peer_closed_line, peer_connected_line,
    peer_dialed_line, peer_left_line, peer_unreachable_line, pull_line, region_line, spool_line,
    IngestDst, LineKind, PublicLine, Role,
};
use hop_relayd::rate::{PeerRateKey, PeerRateWindow, PeerRates, MAX_PEER_MSGS_PER_WINDOW};

type Writers = HashMap<u64, Sender<Vec<u8>>>;

/// The text of a public line of the kind.
fn of_kind(kind: LineKind, line: Option<PublicLine>) -> Option<String> {
    line.map(|line| {
        assert_eq!(line.kind, kind);
        line.text
    })
}

fn event(line: Option<PublicLine>) -> Option<String> {
    of_kind(LineKind::Event, line)
}

/// A stand-in for a bundle: a 32-byte id and a byte that tells whom it is for.
fn decode(bytes: &Vec<u8>) -> Option<(BundleId, IngestDst)> {
    if bytes.len() != 33 {
        return None;
    }
    let dst = match bytes[32] {
        0 => IngestDst::Broadcast,
        1 => IngestDst::Vaccine,
        n => IngestDst::Device([n; 32]),
    };
    Some((bytes[..32].try_into().unwrap(), dst))
}

fn apply(
    writers: &mut Writers,
    rates: &mut PeerRates,
    links: &[([u8; 32], u64)],
    ev: Ev<Sender<Vec<u8>>>,
) -> Applied {
    apply_event(writers, rates, links, ev, 1_000_000, decode)
}

#[test]
fn apply_event_tracks_the_writer_table_across_up_data_down() {
    let mut writers = Writers::new();
    let mut rates = PeerRates::new();
    let (out_tx, _out_rx) = mpsc::channel();
    let up = apply(&mut writers, &mut rates, &[], Ev::Up(7, Role::Responder, out_tx));
    assert!(writers.contains_key(&7), "Up registers the link's writer");
    assert!(matches!(up.call, Some(NodeCall::Connected(7, Role::Responder))));
    assert_eq!(event(up.public_line).as_deref(), Some("conn up: link=7 (Responder)"));
    assert_eq!(up.private_line, None);

    let data = apply(&mut writers, &mut rates, &[], Ev::Data(7, vec![0u8, 1, 2, 3]));
    assert!(writers.contains_key(&7), "Data leaves the writer table alone");
    match data.call {
        Some(NodeCall::Data(7, bytes)) => assert_eq!(bytes, vec![0u8, 1, 2, 3]),
        other => panic!("the frame reaches the node, got {other:?}"),
    }
    assert_eq!((event(data.public_line), data.private_line), (None, None));
    assert!(
        rates.contains_key(&PeerRateKey::PreAuth),
        "an unauthenticated Data frame is charged to the shared PreAuth bucket"
    );
    assert_eq!(rates.len(), 1);

    let down = apply(&mut writers, &mut rates, &[], Ev::Down(7));
    assert!(!writers.contains_key(&7), "Down removes the link's writer");
    assert!(
        rates.contains_key(&PeerRateKey::PreAuth),
        "Down does NOT reset the shared PreAuth budget (a reconnect can't dodge the cap)"
    );
    assert!(matches!(down.call, Some(NodeCall::Disconnected(7))));
    assert_eq!(event(down.public_line).as_deref(), Some("conn down: link=7"));
}

#[test]
fn apply_event_ingest_holds_a_valid_bundle_and_ignores_garbage() {
    let mut writers = Writers::new();
    let mut rates = PeerRates::new();
    let id = bs58::encode([6u8; 32]).into_string();
    for (kind, dst) in [
        (0u8, "broadcast".to_string()),
        (1, "vaccine".to_string()),
        (9, bs58::encode([9u8; 32]).into_string()[..10].to_string()),
    ] {
        let mut bytes = vec![6u8; 32];
        bytes.push(kind);
        let res = apply(&mut writers, &mut rates, &[], Ev::Ingest(bytes.clone()));
        match res.call {
            Some(NodeCall::Ingest(got)) => assert_eq!(got, bytes),
            other => panic!("a bundle is ingested, got {other:?}"),
        }
        assert_eq!(res.private_line, Some(format!("ingest: msg {} → dst {dst}", &id[..10])));
        assert!(res.public_line.is_none(), "a bundle's id is never public");
    }
    let res = apply(&mut writers, &mut rates, &[], Ev::Ingest(vec![0xFF; 8]));
    assert!(res.call.is_none(), "an unparseable ingest is a no-op, not a panic");
    assert!(res.public_line.is_none() && res.private_line.is_none());
    assert_eq!(rates.len(), 0);
}

#[test]
fn apply_event_caps_a_flooding_peer_by_identity_while_a_second_peer_is_unaffected() {
    let mut writers = Writers::new();
    let mut rates = PeerRates::new();
    const LINK_HOSTILE: u64 = 101;
    const LINK_VICTIM: u64 = 102;
    let (hostile, victim) = ([0xaa; 32], [0xbb; 32]);
    let links = [(hostile, LINK_HOSTILE), (victim, LINK_VICTIM)];

    let first = apply(&mut writers, &mut rates, &links, Ev::Data(LINK_HOSTILE, vec![1]));
    assert!(first.call.is_some(), "hostile's first, in-budget message is delivered");

    // As if hostile had already spent its whole window's budget.
    rates.insert(
        PeerRateKey::Peer(hostile),
        PeerRateWindow { start_ms: 1_000_000, msgs: MAX_PEER_MSGS_PER_WINDOW },
    );
    let second = apply(&mut writers, &mut rates, &links, Ev::Data(LINK_HOSTILE, vec![2]));
    assert!(
        second.call.is_none() && second.public_line.is_none() && second.private_line.is_none(),
        "hostile's over-budget message is shed, not delivered"
    );
    // On a fresh link it is still the same identity.
    let again = apply(&mut writers, &mut rates, &[(hostile, 103)], Ev::Data(103, vec![3]));
    assert!(again.call.is_none());

    let third = apply(&mut writers, &mut rates, &links, Ev::Data(LINK_VICTIM, vec![4]));
    assert!(
        matches!(third.call, Some(NodeCall::Data(LINK_VICTIM, _))),
        "a second peer is not shed by the first peer's exhausted budget (per-node fairness)"
    );
}

/// Sends what is to be sent, and settles what came of it.
fn pump(writers: &mut Writers, outgoing: Vec<(u64, Vec<u8>)>) {
    let answers: Vec<(u64, bool)> = pump_outgoing(writers, outgoing)
        .into_iter()
        .map(|(link, bytes)| (link, writers[&link].send(bytes).is_ok()))
        .collect();
    settle_sends(writers, &answers);
}

#[test]
fn pump_outgoing_delivers_to_a_live_writer_and_drops_a_dead_one() {
    let mut writers = Writers::new();
    let (live_tx, live_rx) = mpsc::channel::<Vec<u8>>();
    writers.insert(1u64, live_tx);
    pump(&mut writers, vec![(1, vec![7]), (1, vec![8])]);
    assert_eq!(
        live_rx.try_iter().collect::<Vec<_>>(),
        vec![vec![7], vec![8]],
        "the packets are delivered to link 1's live writer, in order"
    );
    assert!(writers.contains_key(&1), "a live writer is retained");

    let (dead_tx, dead_rx) = mpsc::channel::<Vec<u8>>();
    drop(dead_rx); // the writer thread is gone: sends will fail
    writers.insert(2u64, dead_tx);
    pump(&mut writers, vec![(2, vec![9]), (2, vec![9]), (3, vec![9]), (1, vec![5])]);
    assert!(
        !writers.contains_key(&2),
        "a writer whose thread is gone is dropped from the table"
    );
    assert_eq!(live_rx.try_recv(), Ok(vec![5]));
    assert_eq!(writers.len(), 1);
}

#[test]
fn each_packet_is_sent_once_and_only_where_there_is_a_writer() {
    let mut writers = HashMap::from([(1u64, 'a'), (2, 'b'), (4, 'd')]);
    let outgoing = vec![(2, vec![1]), (3, vec![2]), (1, vec![3]), (2, vec![4]), (2, vec![4])];
    assert_eq!(
        pump_outgoing(&writers, outgoing),
        vec![(2, vec![1]), (1, vec![3]), (2, vec![4]), (2, vec![4])]
    );
    settle_sends(&mut writers, &[(2, true), (1, true), (2, false), (2, true), (9, false)]);
    assert_eq!(writers, HashMap::from([(1, 'a'), (4, 'd')]));
}

#[test]
fn maybe_emit_stats_only_advances_on_the_10s_cadence() {
    let maybe_emit_stats = |peers, held, last, now| {
        let (last, line) = maybe_emit_stats(peers, held, last, now);
        (last, of_kind(LineKind::Aggregate, line))
    };
    assert_eq!(
        maybe_emit_stats(0, 0, 1_000, 1_000 + 9_999),
        (1_000, None),
        "under 10s: hold the timestamp (no emit)"
    );
    assert_eq!(
        maybe_emit_stats(3, 12, 1_000, 1_000 + 10_000),
        (11_000, Some("stats: peers=3 held=12".to_string())),
        "at 10s: emit and advance the timestamp"
    );
    assert_eq!(maybe_emit_stats(3, 12, 50_000, 1_000), (50_000, None));
}

#[test]
fn log_peer_changes_returns_the_current_peer_set_and_logs_departures() {
    let empty = PeerSet::new();
    let cur = log_peer_changes(&[], &empty);
    assert_eq!(cur.current.len(), 0, "the returned set mirrors the node's peers");
    let mut prev = PeerSet::new();
    prev.insert([7u8; 32], ()); // a stale "previously connected" peer, now absent
    let cur2 = log_peer_changes(&[], &prev);
    assert_eq!(
        cur2.current.len(),
        0,
        "the fresh node still has no peers; the stale peer is logged as departed"
    );
    assert_eq!(cur2.left, vec![[7u8; 32]]);
    assert_eq!(cur2.lines, vec![peer_left_line(&[7; 32])]);
    assert!(cur2.joined.is_empty());
}

#[test]
fn peers_that_come_go_and_stay() {
    let mut prev = PeerSet::new();
    for addr in [[1u8; 32], [2u8; 32]] {
        prev.insert(addr, ());
    }
    // The node's list may name an address once for each of its links.
    let changes = log_peer_changes(&[[2; 32], [3; 32], [3; 32]], &prev);
    assert_eq!(changes.joined, vec![[3u8; 32]]);
    assert_eq!(changes.left, vec![[1u8; 32]]);
    assert_eq!(changes.lines, vec![peer_connected_line(&[3; 32]), peer_left_line(&[1; 32])]);
    assert_eq!(changes.current.len(), 2);
    assert!(changes.current.contains_key(&[2; 32]) && changes.current.contains_key(&[3; 32]));
}

/// What follows every event and every tick, up to the next heartbeat.
fn finish_turn(phase: &mut DriverPhase) {
    let act = driver_step::<u8>(phase, DriverEvent::Done);
    assert!(matches!(act, DriverAction::Pump), "first the packets are handed out");
    let act = driver_step::<u8>(phase, DriverEvent::Done);
    assert!(matches!(act, DriverAction::ComparePeers), "then the peers are compared");
    let act = driver_step::<u8>(phase, DriverEvent::Done);
    assert!(matches!(act, DriverAction::PutOutTotals), "then the totals are put out");
    let act = driver_step::<u8>(phase, DriverEvent::Done);
    assert!(matches!(act, DriverAction::Snapshot), "then the handoff worker is fed");
    let act = driver_step::<u8>(phase, DriverEvent::Done);
    assert!(matches!(act, DriverAction::Check), "the heartbeat advances each turn");
}

#[test]
fn driver_step_applies_an_event_advances_the_heartbeat_and_exits_on_shutdown_or_close() {
    let mut phase = DriverPhase::Checking;
    // A queued event is applied, and the loop goes on to its next heartbeat.
    let act = driver_step::<u8>(&mut phase, DriverEvent::Shutdown(false));
    assert!(matches!(act, DriverAction::Receive));
    let act = driver_step(&mut phase, DriverEvent::Got(Ev::Up(9, Role::Responder, 0u8)));
    assert!(matches!(act, DriverAction::Apply(Ev::Up(9, Role::Responder, 0))));
    finish_turn(&mut phase);

    // An idle turn lets the node tick, and goes on.
    driver_step::<u8>(&mut phase, DriverEvent::Shutdown(false));
    let act = driver_step::<u8>(&mut phase, DriverEvent::Quiet);
    assert!(matches!(act, DriverAction::Tick));
    finish_turn(&mut phase);

    // A closed event channel ends the loop.
    let mut closed = phase;
    driver_step::<u8>(&mut closed, DriverEvent::Shutdown(false));
    let act = driver_step::<u8>(&mut closed, DriverEvent::Closed);
    assert!(matches!(act, DriverAction::Leave(None)), "a disconnected channel => exit");
    assert_eq!(closed, DriverPhase::Over);

    // Being told to leave drains the durable store first.
    for (flushed, word) in [(true, "drained"), (false, "timed out")] {
        let mut leaving = phase;
        let act = driver_step::<u8>(&mut leaving, DriverEvent::Shutdown(true));
        assert!(matches!(act, DriverAction::Flush), "SHUTDOWN set => drain and exit");
        match driver_step::<u8>(&mut leaving, DriverEvent::Flushed(flushed)) {
            DriverAction::Leave(line) => assert_eq!(
                event(line),
                Some(format!("SIGTERM: durable-store flush {word} — exiting"))
            ),
            other => panic!("the driver leaves, got {other:?}"),
        }
        assert_eq!(leaving, DriverPhase::Over);
    }
}

#[test]
fn announce_startup_seeds_the_live_log_identity_with_region_and_address() {
    let addr = [77u8; 32];
    let b58 = bs58::encode(addr).into_string();
    let said = announce_startup(
        Some("0.0.0.0:9443"),
        None,
        2,
        &addr,
        Some("announce-test-region"),
    );
    assert!(
        said.who.contains("region=announce-test-region"),
        "log identity carries the region: {}",
        said.who
    );
    assert!(
        said.who.contains(&b58),
        "log identity carries the node address: {}",
        said.who
    );
    assert_eq!(said.who, format!("region=announce-test-region node={b58}"));
    assert_eq!(
        event(Some(said.up)),
        Some(format!("relay up: region=announce-test-region node={b58}"))
    );
    assert_eq!(
        said.banner,
        format!("hop-relayd: address {b58} tcp 0.0.0.0:9443 2 backbone peer(s)")
    );
    let said = announce_startup(Some("a:1"), Some("b:2"), 0, &addr, None);
    assert_eq!(
        said.banner,
        format!("hop-relayd: address {b58} tcp a:1 ws b:2 0 backbone peer(s)")
    );
    assert_eq!(said.who, format!("region=local node={b58}"));
    assert_eq!(node_line(None, &addr), said.who);
}

#[test]
fn the_lines_of_the_log() {
    let (id, addr) = ([1u8; 32], [2u8; 32]);
    let id_b58 = bs58::encode(id).into_string();
    let addr_b58 = bs58::encode(addr).into_string();
    let (i, a) = (&id_b58[..10], &addr_b58[..10]);
    assert_eq!(peer_connected_line(&addr), format!("peer connected: {a}"));
    assert_eq!(peer_left_line(&addr), format!("peer left: {a}"));
    assert_eq!(
        ingest_line(&id, &IngestDst::Device(addr)),
        format!("ingest: msg {i} → dst {a}")
    );
    assert_eq!(
        spool_line(&id, "abcdefghijk", None),
        format!("spool: msg {i} → mailbox abcdefgh")
    );
    assert_eq!(
        spool_line(&id, "abc", Some("down")),
        format!("spool FAILED: msg {i} → mailbox abc: down")
    );
    assert_eq!(
        pull_line(&id, "abcdefghijk"),
        format!("want-beacon: pulled msg {i} from mailbox abcdefgh")
    );
    assert_eq!(
        handoff_line(&id, &addr, "eu", None),
        format!("handoff: msg {i} → dst {a} (region eu)")
    );
    assert_eq!(
        handoff_line(&id, &addr, "eu", Some("down")),
        format!("handoff FAILED: msg {i} → {a} (region eu): down")
    );
    assert_eq!(
        region_line("eu", &addr),
        format!("hop-relayd: region=eu derived address {addr_b58}")
    );
    for (line, text) in [
        (peer_unreachable_line("wss://x", "no"), "peer: wss://x unreachable (no)"),
        (peer_dialed_line("wss://x", 4), "peer: dialed wss://x (link 4)"),
        (peer_closed_line("wss://x", 4), "peer: link 4 to wss://x closed"),
    ] {
        assert_eq!(event(Some(line)).as_deref(), Some(text));
    }
}
