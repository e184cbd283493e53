//! Handing over between regions, and the backbone.

use hop_relayd::backbone::{learn_relays, Dialed, OnlineRelay};
use hop_relayd::handoff::{
    handoff_settled, handoff_turn, presence_due, reload_partition, route_handoff, snapshot_due,
    CycleAction, CycleEvent, CyclePhase, HandoffWorker, KnownRelays, HANDOFF_INTERVAL_MS,
};
use hop_relayd::identity::region_seed;
use hop_relayd::keys::BundleId;
use hop_relayd::mailbox::Dedup;

const BASE: [u8; 32] = [5u8; 32];

fn b58(addr: [u8; 32]) -> String {
    bs58::encode(addr).into_string()
}

#[test]
fn presence_is_recorded_for_devices_and_not_for_relays() {
    let mut relays = KnownRelays::new();
    relays.insert(b58([2; 32]), ());
    assert_eq!(
        presence_due(&[[1; 32], [2; 32], [3; 32], [1; 32]], &relays),
        vec![b58([1; 32]), b58([3; 32]), b58([1; 32])]
    );
    assert!(presence_due(&[], &relays).is_empty());
}

#[test]
fn a_bundle_is_handed_to_another_region_once_and_to_its_own_never() {
    let mut handed: Dedup<(BundleId, String)> = Dedup::new();
    let id = [7u8; 32];
    let mut route = |found: Option<&str>, expires: u64| {
        route_handoff(&mut handed, "us", &BASE, &id, expires, found.map(str::to_string))
    };
    assert!(route(None, 1).is_none(), "unknown/stale: nowhere to hand off yet");
    assert!(route(Some("us"), 1).is_none(), "already in our partition");
    let write = route(Some("eu"), 10).expect("another region is owed the bundle");
    assert_eq!(write.region, "eu");
    assert_eq!(write.seed, region_seed(&BASE, "eu"));
    assert!(route(Some("eu"), 20).is_none(), "already written");
    assert_eq!(route(Some("asia"), 30).expect("a third region is another matter").region, "asia");
    assert_eq!(handed.len(), 2);
    assert_eq!(handed.get(&(id, "eu".to_string())), Some(&20));
}

#[test]
fn a_handoff_that_failed_is_retried() {
    let mut handed: Dedup<(BundleId, String)> = Dedup::new();
    let id = [7u8; 32];
    let found = || Some("eu".to_string());
    assert!(route_handoff(&mut handed, "us", &BASE, &id, 10, found()).is_some());
    handoff_settled(&mut handed, &id, "eu", false);
    assert!(route_handoff(&mut handed, "us", &BASE, &id, 10, found()).is_some());
    handoff_settled(&mut handed, &id, "eu", true);
    assert!(route_handoff(&mut handed, "us", &BASE, &id, 10, found()).is_none());
}

#[test]
fn a_cycle_records_presence_and_then_hands_over_what_is_owed() {
    let mut handed: Dedup<(BundleId, String)> = Dedup::new();
    let bundle = |n: u8| ([n; 32], [n + 100; 32], vec![n], 50 + n as u64);
    let undeliverable = vec![bundle(1), bundle(2), bundle(3), bundle(4)];
    let found = |device: &str| {
        // The first device was last seen in "eu", the second here, the third nowhere.
        let regions = [(101, Some("eu")), (102, Some("us")), (103, None), (104, Some("asia"))];
        let (_, region) = regions.into_iter().find(|(n, _)| b58([*n; 32]) == device).unwrap();
        region.map(str::to_string)
    };
    let mut run = |stored: bool| {
        let mut phase = CyclePhase::Over;
        let mut ev = CycleEvent::Begin;
        let mut log = Vec::new();
        loop {
            match handoff_turn(&mut handed, &mut phase, "us", &BASE, 2, &undeliverable, ev).action {
                CycleAction::Record(i) => {
                    log.push(format!("record {i}"));
                    ev = CycleEvent::Recorded(None);
                }
                CycleAction::Locate(device) => {
                    log.push("locate".to_string());
                    ev = CycleEvent::Located(Ok(found(&device)));
                }
                CycleAction::Hand(at, write) => {
                    assert_eq!(write.seed, region_seed(&BASE, &write.region));
                    log.push(format!("hand {at} to {}", write.region));
                    ev = CycleEvent::Handed((!stored).then_some("down".to_string()));
                }
                CycleAction::Mailboxes => break,
            }
        }
        (log.join(", "), handed.len())
    };
    let all = "record 0, record 1, locate, hand 0 to eu, locate, locate, locate, hand 3 to asia";
    assert_eq!(run(false), (all.to_string(), 0), "what failed is forgotten");
    assert_eq!(run(true), (all.to_string(), 2), "and is owed again");
    let rest = "record 0, record 1, locate, locate, locate, locate";
    assert_eq!(run(true), (rest.to_string(), 2), "what is done is not done again");
}

#[test]
fn a_cycle_without_devices_or_bundles_goes_straight_to_the_mailboxes() {
    let mut handed: Dedup<(BundleId, String)> = Dedup::new();
    let mut phase = CyclePhase::Over;
    let turn = handoff_turn(&mut handed, &mut phase, "us", &BASE, 0, &vec![], CycleEvent::Begin);
    assert!(matches!(turn.action, CycleAction::Mailboxes));
    assert!(turn.line.is_none());
}

#[test]
fn the_operator_is_told_of_handoffs_and_failures() {
    let mut handed: Dedup<(BundleId, String)> = Dedup::new();
    let undeliverable = vec![
        ([1u8; 32], [101u8; 32], vec![1], 0),
        ([2; 32], [102; 32], vec![2], 0),
        ([3; 32], [103; 32], vec![3], 0),
    ];
    let mut phase = CyclePhase::Over;
    let mut lines = Vec::new();
    for ev in [
        CycleEvent::Begin,
        CycleEvent::Recorded(Some("down".to_string())),
        CycleEvent::Recorded(None),
        CycleEvent::Located(Err("lost".to_string())),
        CycleEvent::Located(Ok(Some("eu".to_string()))),
        CycleEvent::Handed(Some("full".to_string())),
        CycleEvent::Located(Ok(Some("asia".to_string()))),
        CycleEvent::Handed(None),
    ] {
        let turn = handoff_turn(&mut handed, &mut phase, "us", &BASE, 2, &undeliverable, ev);
        lines.extend(turn.line.map(|l| (l.timed, l.text)));
    }
    let short = |n: u8| b58([n; 32])[..10].to_string();
    assert_eq!(
        lines,
        vec![
            (false, "handoff: set_presence failed: down".to_string()),
            (false, "handoff: region_of failed: lost".to_string()),
            (
                true,
                format!("handoff FAILED: msg {} → {} (region eu): full", short(2), short(102))
            ),
            (true, format!("handoff: msg {} → dst {} (region asia)", short(3), short(103))),
        ]
    );
    assert_eq!(handed.len(), 1);
}

/// Runs a cycle at `now_ms` over bundles of one device, last seen in `found`; returns the places of
/// those that were written, where `stored` tells how the writes are answered.
fn cycle(
    worker: &mut HandoffWorker<16>,
    now_ms: u64,
    bundles: &[(u8, u64)],
    found: Result<Option<&str>, &str>,
    stored: bool,
) -> Vec<usize> {
    let undeliverable: Vec<_> =
        bundles.iter().map(|(n, expires)| ([*n; 32], [9u8; 32], vec![*n], *expires)).collect();
    worker.begin_cycle(now_ms);
    let mut phase = CyclePhase::Over;
    let mut ev = CycleEvent::Begin;
    let mut written = Vec::new();
    loop {
        let handed = &mut worker.handed;
        ev = match handoff_turn(handed, &mut phase, "us", &BASE, 0, &undeliverable, ev).action {
            CycleAction::Record(_) => unreachable!(),
            CycleAction::Locate(_) => CycleEvent::Located(match found {
                Ok(region) => Ok(region.map(str::to_string)),
                Err(e) => Err(e.to_string()),
            }),
            CycleAction::Hand(at, _) => {
                written.push(at);
                CycleEvent::Handed((!stored).then_some("down".to_string()))
            }
            CycleAction::Mailboxes => return written,
        };
    }
}

#[test]
fn over_cycles_a_bundle_is_written_until_that_succeeds_and_again_once_it_has_expired() {
    let none: Vec<usize> = Vec::new();
    let mut worker = HandoffWorker::new(1);
    let eu = Ok(Some("eu"));
    assert_eq!(cycle(&mut worker, 10, &[(1, 100), (2, 0)], Ok(None), true), none);
    assert_eq!(cycle(&mut worker, 10, &[(1, 100), (2, 0)], Err("lost"), true), none);
    assert_eq!(cycle(&mut worker, 10, &[(1, 100), (2, 0)], Ok(Some("us")), true), none);
    assert_eq!(cycle(&mut worker, 10, &[(1, 100), (2, 0)], eu, false), vec![0, 1]);
    assert_eq!(cycle(&mut worker, 20, &[(1, 100), (2, 0)], eu, true), vec![0, 1]);
    assert_eq!(cycle(&mut worker, 99, &[(1, 100), (2, 0)], eu, true), none);
    // At its expiry the first is forgotten; the other never expires.
    assert_eq!(cycle(&mut worker, 100, &[(1, 100), (2, 0)], eu, true), vec![0]);
    assert_eq!(cycle(&mut worker, 101, &[(2, 0), (1, 100)], Ok(Some("asia")), true), vec![0, 1]);
    // One that has expired and is listed twice is written once in its cycle.
    assert_eq!(cycle(&mut worker, 200, &[(1, 100), (1, 100)], eu, true), vec![0]);
    assert_eq!(cycle(&mut worker, 201, &[(1, 100)], eu, true), vec![0]);
}

#[test]
fn a_cycle_forgets_what_has_expired() {
    let mut worker: HandoffWorker<16> = HandoffWorker::new(7);
    worker.handed.insert(([1; 32], "eu".to_string()), 100);
    worker.spooled.insert(([1; 32], [0; 16]), 100);
    worker.pulled.insert([1; 32], 101);
    worker.begin_cycle(100);
    assert_eq!((worker.handed.len(), worker.spooled.len(), worker.pulled.len()), (0, 0, 1));
}

#[test]
fn snapshots_are_taken_at_their_interval() {
    assert!(!snapshot_due(5, 5 + HANDOFF_INTERVAL_MS - 1));
    assert!(snapshot_due(5, 5 + HANDOFF_INTERVAL_MS));
    assert!(!snapshot_due(5, 4));
    assert!(snapshot_due(0, 1_700_000_000_000));
}

fn id_of(bytes: &Vec<u8>) -> Option<BundleId> {
    bytes.get(..32).map(|head| head.try_into().unwrap())
}

#[test]
fn a_reload_takes_in_each_bundle_once() {
    let mut ingested: Dedup<BundleId> = Dedup::new();
    let (a, b) = (vec![1u8; 40], vec![2u8; 40]);
    let listing = || vec![(a.clone(), 9), (vec![0; 3], 9), (b.clone(), 8), (a.clone(), 7)];
    assert_eq!(reload_partition(&mut ingested, listing(), id_of), vec![a.clone(), b.clone()]);
    assert!(reload_partition(&mut ingested, listing(), id_of).is_empty());
    assert_eq!(ingested.get(&[1; 32]), Some(&7));
}

fn online(relays: &[(&str, &str)]) -> Vec<OnlineRelay> {
    relays
        .iter()
        .map(|(node, endpoint)| OnlineRelay {
            node: node.to_string(),
            endpoint: endpoint.to_string(),
        })
        .collect()
}

#[test]
fn relays_that_are_online_are_learned() {
    let mut known = KnownRelays::new();
    known.insert("me".to_string(), ());
    learn_relays(&mut known, &online(&[("a", "wss://a"), ("b", "wss://b"), ("a", "wss://c")]));
    assert_eq!(known.len(), 3);
    for node in ["me", "a", "b"] {
        assert!(known.contains_key(&node.to_string()));
    }
}

#[test]
fn dialing_is_bounded_and_skips_ourselves() {
    let peers = online(&[
        ("me", "wss://me"),
        ("a", "wss://a"),
        ("b", "wss://b"),
        ("a2", "wss://a"),
        ("c", "wss://c"),
    ]);
    let mut dialed = Dialed::new();
    assert!(dialed.plan(&peers, "me", 0).is_empty(), "a fan-out of zero dials nobody");
    assert_eq!(dialed.plan(&peers, "me", 2), vec!["wss://a", "wss://b"]);
    assert!(dialed.plan(&peers, "me", 2).is_empty(), "both links are held");
    assert_eq!(dialed.plan(&peers, "me", 9), vec!["wss://c"]);
    dialed.closed("wss://b");
    assert_eq!(dialed.plan(&peers, "me", 9), vec!["wss://b"], "a closed link is dialed again");
}

#[test]
fn a_relay_whose_link_is_alive_is_dialed_once_however_the_registry_changes() {
    let mut dialed = Dialed::new();
    assert_eq!(dialed.plan(&online(&[("a", "wss://a")]), "me", 2), vec!["wss://a"]);
    assert!(dialed.plan(&online(&[]), "me", 2).is_empty());
    assert!(dialed.plan(&online(&[("a", "wss://a")]), "me", 2).is_empty());
    dialed.closed("wss://a");
    assert!(dialed.plan(&online(&[]), "me", 2).is_empty(), "a sleeping relay is not woken");
    assert_eq!(dialed.plan(&online(&[("a", "wss://a")]), "me", 2), vec!["wss://a"]);
}

#[test]
fn a_relay_that_left_the_registry_makes_room() {
    let mut dialed = Dialed::new();
    assert_eq!(dialed.plan(&online(&[("a", "wss://a")]), "me", 1), vec!["wss://a"]);
    let both = online(&[("a", "wss://a"), ("b", "wss://b")]);
    assert!(dialed.plan(&both, "me", 1).is_empty(), "the link to an online relay counts");
    assert_eq!(dialed.plan(&online(&[("b", "wss://b")]), "me", 1), vec!["wss://b"]);
    // Back in the registry it counts again, and its link is still alive.
    let all = online(&[("c", "wss://c"), ("a", "wss://a"), ("b", "wss://b")]);
    assert!(dialed.plan(&all, "me", 2).is_empty());
    assert_eq!(dialed.plan(&all, "me", 3), vec!["wss://c"]);
}
