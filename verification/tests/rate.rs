//! Fairness between peers.

use hop_relayd::rate::{
    peer_data_allowed, peer_rate_key, PeerRateKey, PeerRateWindow, PeerRates,
    MAX_PEER_MSGS_PER_WINDOW, MAX_PEER_RATE_KEYS, MAX_PREAUTH_MSGS_PER_WINDOW, PEER_RATE_SWEEP_AT,
    PEER_RATE_WINDOW_MS,
};

fn peer(i: u64) -> PeerRateKey {
    let mut addr = [0u8; 32];
    addr[..8].copy_from_slice(&i.to_le_bytes());
    PeerRateKey::Peer(addr)
}

#[test]
fn peer_data_allowed_admits_up_to_budget_then_sheds_and_resets_next_window() {
    let mut rates = PeerRates::new();
    let hostile = PeerRateKey::Peer([9u8; 32]);
    let victim = PeerRateKey::Peer([4u8; 32]);
    let start = 1_000_000u64;

    for i in 0..MAX_PEER_MSGS_PER_WINDOW {
        assert!(
            peer_data_allowed(&mut rates, hostile, start + i as u64),
            "message {i} is within budget"
        );
    }
    assert!(
        !peer_data_allowed(&mut rates, hostile, start + MAX_PEER_MSGS_PER_WINDOW as u64),
        "the message past the window budget is shed"
    );

    assert!(
        peer_data_allowed(&mut rates, victim, start + MAX_PEER_MSGS_PER_WINDOW as u64),
        "a second peer is not shed by the first peer's exhausted budget"
    );

    assert!(
        peer_data_allowed(&mut rates, hostile, start + PEER_RATE_WINDOW_MS),
        "a new fixed window resets the budget"
    );
}

#[test]
fn preauth_bucket_is_shared_and_generous_not_per_link() {
    let mut rates = PeerRates::new();
    let now = 5_000_000u64;
    for i in 0..MAX_PREAUTH_MSGS_PER_WINDOW {
        assert!(
            peer_data_allowed(&mut rates, PeerRateKey::PreAuth, now + i as u64),
            "pre-auth message {i} is within the shared budget"
        );
    }
    assert!(
        !peer_data_allowed(
            &mut rates,
            PeerRateKey::PreAuth,
            now + MAX_PREAUTH_MSGS_PER_WINDOW as u64
        ),
        "a reconnect cannot dodge the shared pre-auth cap"
    );
}

#[test]
fn rate_map_is_hard_bounded_under_a_fresh_identity_flood() {
    let mut rates = PeerRates::new();
    let now = 7_000_000u64; // one fixed window for every insert
    for i in 0..(MAX_PEER_RATE_KEYS as u64 + 5_000) {
        peer_data_allowed(&mut rates, peer(i), now);
    }
    assert!(
        rates.len() <= MAX_PEER_RATE_KEYS,
        "the rate map is hard-bounded ({} <= {}) even under a same-window fresh-identity flood",
        rates.len(),
        MAX_PEER_RATE_KEYS
    );
}

#[test]
fn peer_rate_key_follows_the_authenticated_address_not_the_link_id() {
    assert_eq!(
        peer_rate_key(&[], 42),
        PeerRateKey::PreAuth,
        "an unknown/unauthenticated link shares the PreAuth bucket"
    );
    let (a, b) = ([1u8; 32], [2u8; 32]);
    assert_eq!(
        peer_rate_key(&[(b, 1)], 1),
        PeerRateKey::Peer(b),
        "once authenticated, the key follows the peer's address, not the link id"
    );
    assert_eq!(
        peer_rate_key(&[(a, 2)], 2),
        PeerRateKey::Peer(a),
        "symmetric on the other side of the same link"
    );
    // The same address on a fresh link is charged to the same key; another link is not.
    assert_eq!(peer_rate_key(&[(a, 7), (b, 8)], 8), PeerRateKey::Peer(b));
    assert_eq!(peer_rate_key(&[(a, 7), (b, 8)], 9), PeerRateKey::PreAuth);
    // The first entry for a link counts.
    assert_eq!(peer_rate_key(&[(a, 7), (b, 7)], 7), PeerRateKey::Peer(a));
}

#[test]
fn shed_frames_are_counted_too() {
    let mut rates = PeerRates::new();
    let key = PeerRateKey::Peer([3u8; 32]);
    for _ in 0..MAX_PEER_MSGS_PER_WINDOW + 5 {
        peer_data_allowed(&mut rates, key, 50);
    }
    assert_eq!(
        rates.get(&key),
        Some(&PeerRateWindow { start_ms: 50, msgs: MAX_PEER_MSGS_PER_WINDOW + 5 })
    );
}

#[test]
fn a_clock_that_goes_back_does_not_end_a_window() {
    let mut rates = PeerRates::new();
    let key = PeerRateKey::Peer([3u8; 32]);
    peer_data_allowed(&mut rates, key, 100_000);
    peer_data_allowed(&mut rates, key, 10);
    assert_eq!(rates.get(&key), Some(&PeerRateWindow { start_ms: 100_000, msgs: 2 }));
    // One millisecond before its end the window still holds; at its end it does not.
    peer_data_allowed(&mut rates, key, 109_999);
    assert_eq!(rates.get(&key), Some(&PeerRateWindow { start_ms: 100_000, msgs: 3 }));
    peer_data_allowed(&mut rates, key, 110_000);
    assert_eq!(rates.get(&key), Some(&PeerRateWindow { start_ms: 110_000, msgs: 1 }));
}

#[test]
fn the_count_stops_at_its_largest_value() {
    let mut rates = PeerRates::new();
    let key = PeerRateKey::PreAuth;
    rates.insert(key, PeerRateWindow { start_ms: 5, msgs: u32::MAX });
    assert!(!peer_data_allowed(&mut rates, key, 5));
    assert_eq!(rates.get(&key), Some(&PeerRateWindow { start_ms: 5, msgs: u32::MAX }));
}

#[test]
fn the_sweep_drops_windows_that_are_over() {
    let mut rates = PeerRates::new();
    for i in 0..PEER_RATE_SWEEP_AT as u64 + 1 {
        rates.insert(peer(i), PeerRateWindow { start_ms: 1_000 + i % 2 * 5_000, msgs: 1 });
    }
    assert!(peer_data_allowed(&mut rates, peer(u64::MAX), 11_000));
    // Those that began at 1_000 are over at 11_000; those that began at 6_000 are not.
    assert_eq!(rates.len(), PEER_RATE_SWEEP_AT / 2 + 1);
    assert!(!rates.contains_key(&peer(0)));
    assert!(rates.contains_key(&peer(1)));
}

#[test]
fn at_the_ceiling_the_oldest_windows_leave() {
    let mut rates = PeerRates::new();
    for i in 0..MAX_PEER_RATE_KEYS as u64 {
        rates.insert(peer(i), PeerRateWindow { start_ms: 100_000 + i % 100, msgs: 7 });
    }
    assert!(peer_data_allowed(&mut rates, peer(u64::MAX), 100_200));
    assert_eq!(rates.len(), MAX_PEER_RATE_KEYS / 2 + 1);
    for i in 0..100 {
        assert_eq!(rates.contains_key(&peer(i)), i >= 50, "window {i}");
    }
}
