//! The health probe.

use hop_relayd::health::{healthz_status, serve_healthz, HEALTHZ_STALE_MS};

#[test]
fn healthz_status_reports_stale_degraded_and_healthy() {
    assert_eq!(
        healthz_status(0, 1_000_000, 0),
        ("503 Service Unavailable", "stale".to_string())
    );
    let (s, b) = healthz_status(1_000_000, 1_000_500, 7);
    assert_eq!(s, "200 OK");
    assert_eq!(
        b, "ok degraded: mirror_dropped=7",
        "a dropping mirror is reported, still 200"
    );
    assert_eq!(
        healthz_status(1_000_000, 1_000_500, 0),
        ("200 OK", "ok".to_string())
    );
    assert_eq!(
        healthz_status(1_000_000, 1_000_000 + HEALTHZ_STALE_MS + 1, 0),
        ("503 Service Unavailable", "stale".to_string()),
        "a tick older than the stale window is a restart-worthy 503"
    );
}

#[test]
fn the_stale_window_ends_at_its_length() {
    assert_eq!(healthz_status(5, 5 + HEALTHZ_STALE_MS - 1, 0).0, "200 OK");
    assert_eq!(healthz_status(5, 5 + HEALTHZ_STALE_MS, 9).0, "503 Service Unavailable");
    assert_eq!(healthz_status(5, 5 + HEALTHZ_STALE_MS, 9).1, "stale");
    // A tick that lies ahead of the clock is fresh.
    assert_eq!(healthz_status(1_000_000, 5, 0).0, "200 OK");
}

#[test]
fn healthz_is_503_before_the_first_tick() {
    let resp = serve_healthz(0, 1_700_000_000_000, 0);
    assert!(resp.starts_with("HTTP/1.1 503"), "no tick yet => 503: {resp}");
    assert!(resp.trim_end().ends_with("stale"));
}

#[test]
fn healthz_is_200_when_the_driver_ticked_recently() {
    let now = 1_700_000_000_000;
    let resp = serve_healthz(now, now, 0);
    assert!(resp.starts_with("HTTP/1.1 200 OK"), "recent tick => 200: {resp}");
    assert!(resp.trim_end().ends_with("ok"));
}

#[test]
fn healthz_goes_503_when_the_tick_is_stale() {
    let now = 1_700_000_000_000u64;
    let stale = now.saturating_sub(HEALTHZ_STALE_MS + 5_000);
    let resp = serve_healthz(stale, now, 0);
    assert!(
        resp.starts_with("HTTP/1.1 503"),
        "a tick older than the stale window => 503 (restart the wedged instance): {resp}"
    );
}

#[test]
fn the_whole_answer_to_a_probe() {
    assert_eq!(
        serve_healthz(10, 11, 12),
        "HTTP/1.1 200 OK\r\nContent-Type: text/plain\r\nContent-Length: 30\r\n\
         Connection: close\r\n\r\nok degraded: mirror_dropped=12"
    );
}
