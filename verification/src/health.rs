//! The health probe: is the driver loop still turning?

use vstd::prelude::*;
use vstd::string::*;
use vstd::utf8::encode_utf8;

use crate::text::{decimal, push_decimal};

verus! {

/// A driver that has not turned for this long is taken to be stuck.
pub const HEALTHZ_STALE_MS: u64 = 30_000;

/// Has the driver turned lately? `last_tick_ms` is `0` until its first turn.
pub open spec fn ticking(last_tick_ms: u64, now: u64) -> bool {
    last_tick_ms != 0 && now - last_tick_ms < HEALTHZ_STALE_MS
}

/// The status line that a probe gets.
pub open spec fn health_status(last_tick_ms: u64, now: u64) -> Seq<char> {
    if ticking(last_tick_ms, now) {
        "200 OK"@
    } else {
        "503 Service Unavailable"@
    }
}

/// The body that a probe gets. Durable writes that were dropped are told, but do not make the
/// relay unhealthy: a restart would not bring them back.
pub open spec fn health_body(last_tick_ms: u64, now: u64, dropped: u64) -> Seq<char> {
    if !ticking(last_tick_ms, now) {
        "stale"@
    } else if dropped > 0 {
        "ok degraded: mirror_dropped="@ + decimal(dropped as nat)
    } else {
        "ok"@
    }
}

/// The status line and the body that a probe gets, for the driver's last turn, the present, and
/// the number of durable writes that were dropped.
pub fn healthz_status(last_tick_ms: u64, now: u64, dropped: u64) -> (res: (&'static str, String))
    ensures
        res.0@ == health_status(last_tick_ms, now),
        res.1@ == health_body(last_tick_ms, now, dropped),
{
    let healthy = last_tick_ms != 0 && now.saturating_sub(last_tick_ms) < HEALTHZ_STALE_MS;
    if !healthy {
        ("503 Service Unavailable", "stale".to_owned())
    } else if dropped > 0 {
        let mut body = "ok degraded: mirror_dropped=".to_owned();
        push_decimal(&mut body, dropped);
        ("200 OK", body)
    } else {
        ("200 OK", "ok".to_owned())
    }
}

/// The whole answer to a probe.
pub open spec fn health_response(status: Seq<char>, body: Seq<char>) -> Seq<char> {
    "HTTP/1.1 "@ + status + "\r\nContent-Type: text/plain\r\nContent-Length: "@ + decimal(
        encode_utf8(body).len(),
    ) + "\r\nConnection: close\r\n\r\n"@ + body
}

/// The whole answer to a probe.
pub fn serve_healthz(last_tick_ms: u64, now: u64, dropped: u64) -> (resp: String)
    ensures
        resp@ == health_response(
            health_status(last_tick_ms, now),
            health_body(last_tick_ms, now, dropped),
        ),
{
    let (status, body) = healthz_status(last_tick_ms, now, dropped);
    let mut resp = "HTTP/1.1 ".to_owned();
    resp.append(status);
    resp.append("\r\nContent-Type: text/plain\r\nContent-Length: ");
    let n: usize = body.as_str().as_bytes().len();
    push_decimal(&mut resp, n as u64);
    resp.append("\r\nConnection: close\r\n\r\n");
    resp.append(body.as_str());
    resp
}

/// Before the driver's first turn, and once its last one is too long ago, a probe gets a 503;
/// otherwise a 200, however many durable writes were dropped.
pub proof fn law_only_a_stuck_driver_is_unhealthy(last_tick_ms: u64, now: u64)
    ensures
        last_tick_ms == 0 || now - last_tick_ms >= HEALTHZ_STALE_MS <==> health_status(
            last_tick_ms,
            now,
        ) == "503 Service Unavailable"@,
        0 < last_tick_ms && now - last_tick_ms < HEALTHZ_STALE_MS <==> health_status(
            last_tick_ms,
            now,
        ) == "200 OK"@,
{
    reveal_strlit("503 Service Unavailable");
    reveal_strlit("200 OK");
    assert("503 Service Unavailable"@.len() != "200 OK"@.len());
}

/// What a probe is answered, in full: a driver that turned within the last thirty seconds is well,
/// and the number of durable writes that were dropped is told where there are any; any other is
/// stale.
pub proof fn law_what_a_probe_is_answered(
    last_tick_ms: u64,
    now: u64,
    dropped: u64,
    status: (&'static str, String),
    resp: String,
)
    requires
        call_ensures(healthz_status, (last_tick_ms, now, dropped), status),
        call_ensures(serve_healthz, (last_tick_ms, now, dropped), resp),
    ensures
        ({
            let well = last_tick_ms > 0 && now < last_tick_ms + 30_000;
            &&& well && dropped == 0 ==> status.0@ == "200 OK"@ && status.1@ == "ok"@
            &&& well && dropped > 0 ==> status.0@ == "200 OK"@ && status.1@
                == "ok degraded: mirror_dropped="@ + decimal(dropped as nat)
            &&& !well ==> status.0@ == "503 Service Unavailable"@ && status.1@ == "stale"@
        }),
        resp@ == "HTTP/1.1 "@ + status.0@ + "\r\nContent-Type: text/plain\r\nContent-Length: "@
            + decimal(encode_utf8(status.1@).len()) + "\r\nConnection: close\r\n\r\n"@ + status.1@,
{
}

} // verus!
