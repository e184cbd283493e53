//! The live log and its stream.

use std::sync::mpsc::{self, Receiver, Sender};

use hop_relayd::lines::{spool_line, LineKind, PublicLine};
use hop_relayd::loghub::{
    log_stream_max_ms, public_log_stream_enabled, stamped, LogHub, KEEPALIVE_NS,
    LOG_STREAM_MAX_MS, RING_LINES,
};
use hop_relayd::logstream::{greeting, serve_log_stream, LogAction, LogEvent, LogPhase};

type Hub = LogHub<Sender<PublicLine>>;

fn emit(hub: &mut Hub, kind: LineKind, line: &str) -> String {
    let out = hub.emit(&PublicLine { kind, text: line.to_string() }, 0);
    let mut taken = Vec::new();
    for (i, line) in out.deliveries.into_iter().enumerate() {
        taken.push(hub.viewer(i).send(line).is_ok());
    }
    hub.keep_viewers(&taken);
    out.text
}

fn subscribe(hub: &mut Hub, public: bool) -> (String, Vec<String>, Receiver<PublicLine>) {
    let (tx, rx) = mpsc::channel();
    let (who, backlog) = hub.subscribe(tx, public);
    (who, backlog, rx)
}

#[test]
fn public_emit_reaches_subscribers_private_does_not() {
    let mut hub = Hub::new();
    let (_who, _backlog, rx) = subscribe(&mut hub, false);
    emit(&mut hub, LineKind::Aggregate, "stats: peers=3 held=7");
    let got = rx.try_recv().expect("public line delivered to viewer");
    assert!(got.text.contains("peers=3 held=7"), "public aggregate delivered");
    let private = stamped(0, &spool_line(&[7; 32], "mailbox-tag", None));
    assert!(private.contains("spool: msg "), "the operator is told: {private}");
    assert!(
        rx.try_recv().is_err(),
        "private per-message metadata must never reach a public viewer"
    );
}

#[test]
fn public_stream_is_off_by_default() {
    let mut hub = Hub::new();
    emit(&mut hub, LineKind::Event, "conn up: link=1 (Responder)");
    emit(&mut hub, LineKind::Aggregate, "stats: peers=1 held=0");
    let (_who, backlog, _rx) = subscribe(&mut hub, public_log_stream_enabled(None));
    assert!(
        backlog.is_empty(),
        "with the public stream off, no per-event backlog is exposed"
    );
}

#[test]
fn ring_is_capped_at_400_and_public_subscribe_returns_the_backlog() {
    let mut hub = Hub::new();
    for i in 0..450 {
        emit(&mut hub, LineKind::Event, &format!("line {i}"));
    }
    let (_who, backlog, _rx) = subscribe(&mut hub, public_log_stream_enabled(Some("1")));
    assert_eq!(backlog.len(), 400, "the ring is capped at 400 lines");
    assert_eq!(RING_LINES, 400);
    assert!(
        backlog.last().unwrap().contains("line 449"),
        "the newest line is retained"
    );
    assert!(
        backlog.iter().all(|l| !l.contains("line 0 ")),
        "the oldest lines were evicted"
    );
    assert_eq!(backlog[0], "00:00:00 line 50");
}

#[test]
fn public_log_stream_flag_reads_the_env() {
    for v in ["1", "true", "yes"] {
        assert!(public_log_stream_enabled(Some(v)), "{v} enables the public stream");
    }
    for v in ["0", "false", "no", "", "garbage", "TRUE", "1 "] {
        assert!(!public_log_stream_enabled(Some(v)), "{v:?} leaves it off");
    }
    assert!(!public_log_stream_enabled(None), "unset => off (safe default)");
}

#[test]
fn the_limit_on_watching_is_a_number_of_milliseconds() {
    assert_eq!(log_stream_max_ms(None), LOG_STREAM_MAX_MS);
    assert_eq!(LOG_STREAM_MAX_MS, 10 * 60 * 1000);
    assert_eq!(log_stream_max_ms(Some("300")), 300);
    assert_eq!(log_stream_max_ms(Some("0")), 0);
    assert_eq!(log_stream_max_ms(Some("")), LOG_STREAM_MAX_MS);
    assert_eq!(log_stream_max_ms(Some("5s")), LOG_STREAM_MAX_MS);
    assert_eq!(log_stream_max_ms(Some("18446744073709551615")), u64::MAX);
    assert_eq!(log_stream_max_ms(Some("18446744073709551616")), LOG_STREAM_MAX_MS);
}

#[test]
fn viewers_that_are_gone_are_forgotten_and_the_others_stay() {
    let mut hub = Hub::new();
    let (_, _, a) = subscribe(&mut hub, false);
    let (_, _, b) = subscribe(&mut hub, false);
    let (_, _, c) = subscribe(&mut hub, false);
    drop(b);
    assert_eq!(emit(&mut hub, LineKind::Event, "one"), "00:00:00 one");
    emit(&mut hub, LineKind::Aggregate, "two");
    for rx in [a, c] {
        let lines: Vec<(LineKind, String)> = rx.try_iter().map(|l| (l.kind, l.text)).collect();
        assert_eq!(
            lines,
            vec![
                (LineKind::Event, "00:00:00 one".to_string()),
                (LineKind::Aggregate, "00:00:00 two".to_string())
            ]
        );
    }
    // Nobody is left now.
    emit(&mut hub, LineKind::Event, "three");
    let (_, backlog, _) = subscribe(&mut hub, true);
    assert_eq!(backlog.len(), 3);
}

#[test]
fn a_viewer_gets_every_later_line_once_and_no_earlier_one() {
    let mut hub = Hub::new();
    let (_, _, early) = subscribe(&mut hub, true);
    emit(&mut hub, LineKind::Event, "before");
    let (_, backlog, rx) = subscribe(&mut hub, true);
    assert_eq!(backlog, vec!["00:00:00 before"]);
    drop(early);
    for line in ["one", "two", "three"] {
        emit(&mut hub, LineKind::Event, line);
    }
    let got: Vec<String> = rx.try_iter().map(|l| l.text).collect();
    assert_eq!(got, vec!["00:00:00 one", "00:00:00 two", "00:00:00 three"]);
}

#[test]
fn each_viewer_is_given_one_line_of_its_kind() {
    let mut hub = LogHub::<u8>::new();
    hub.subscribe(1, false);
    hub.subscribe(2, false);
    for kind in [LineKind::Event, LineKind::Aggregate] {
        let out = hub.emit(&PublicLine { kind, text: "x".to_string() }, 1_000);
        assert_eq!(out.text, "00:00:01 x");
        let given: Vec<(LineKind, String)> =
            out.deliveries.into_iter().map(|l| (l.kind, l.text)).collect();
        assert_eq!(given, vec![(kind, "00:00:01 x".to_string()); 2]);
    }
    assert_eq!((*hub.viewer(0), *hub.viewer(1)), (1, 2));
    hub.keep_viewers(&vec![false, true]);
    assert_eq!(*hub.viewer(0), 2);
}

#[test]
fn the_stream_leads_with_who_this_is() {
    let mut hub = Hub::new();
    assert_eq!(subscribe(&mut hub, true).0, "");
    hub.set_identity("region=eu node=abc".to_string());
    assert_eq!(subscribe(&mut hub, true).0, "region=eu node=abc");
    assert_eq!(stamped(3_661_000, "x"), "01:01:01 x");
}

#[test]
fn a_greeting_shows_the_recent_lines_only_where_they_are_public() {
    let backlog = vec!["00:00:00 one".to_string(), "00:00:01 two".to_string()];
    let head = "HTTP/1.1 200 OK\r\nContent-Type: text/plain; charset=utf-8\r\n\
                Cache-Control: no-cache\r\nConnection: close\r\n\r\n";
    assert_eq!(
        greeting("region=eu node=abc", &backlog, true).concat(),
        format!("{head}== hop relay :: region=eu node=abc ==\n00:00:00 one\n00:00:01 two\n")
    );
    let note = "live per-event log is private on this relay; only aggregate counters are shown \
                (set HOP_PUBLIC_LOG_STREAM=1 to expose per-event lines)\n";
    assert_eq!(
        greeting("", &backlog, false).concat(),
        format!("{head}== hop relay :: (starting) ==\n{note}")
    );
    assert_eq!(greeting("", &backlog, false), greeting("", &Vec::new(), false));
}

/// Runs a stream on a clock that only waiting moves, with the lines of `hub` coming at once;
/// returns what was written after the greeting, and how long the stream was open.
fn watch(public: bool, max_ms: u64, rx: &Receiver<PublicLine>, writes: usize) -> (String, u128) {
    let mut phase = LogPhase::Greeting;
    let mut ev = LogEvent::Written(true);
    let mut clock = 0u128;
    let mut text = String::new();
    let mut written = 0;
    loop {
        ev = match serve_log_stream(public, max_ms, &mut phase, ev) {
            LogAction::ReadClock => LogEvent::Elapsed(clock),
            LogAction::Wait(ns) => match rx.try_recv() {
                Ok(line) => LogEvent::Line(line),
                Err(mpsc::TryRecvError::Empty) => {
                    clock += ns as u128;
                    LogEvent::Quiet
                }
                Err(mpsc::TryRecvError::Disconnected) => LogEvent::HubGone,
            },
            LogAction::Write(piece) => {
                written += 1;
                if written <= writes {
                    text.push_str(&piece);
                }
                LogEvent::Written(written <= writes)
            }
            LogAction::Close => break,
        };
    }
    assert_eq!(phase, LogPhase::Over);
    (text, clock)
}

#[test]
fn log_stream_closes_at_the_total_deadline() {
    let mut hub = Hub::new();
    let (_, _, rx) = subscribe(&mut hub, false);
    let (text, open_ns) = watch(false, log_stream_max_ms(Some("300")), &rx, usize::MAX);
    assert_eq!(open_ns, 300_000_000, "the stream closes at its deadline, not later");
    assert_eq!(text, ": ping\n");
    // Without a shorter limit, a silent viewer gets a sign of life every fifteen seconds.
    let (text, open_ns) = watch(false, LOG_STREAM_MAX_MS, &rx, usize::MAX);
    assert_eq!(open_ns, 600_000_000_000);
    assert_eq!(text, ": ping\n".repeat(40));
    assert_eq!(KEEPALIVE_NS, 15_000_000_000);
    assert_eq!(watch(false, 0, &rx, usize::MAX), (String::new(), 0));
}

#[test]
fn public_on_serves_the_ring_backlog_and_streams_live_lines() {
    let mut hub = Hub::new();
    emit(&mut hub, LineKind::Aggregate, "PLS-BACKLOG stats: peers=1 held=0");
    let public = public_log_stream_enabled(Some("1"));
    let (who, backlog, rx) = subscribe(&mut hub, public);
    let mut text = greeting(&who, &backlog, public).concat();
    emit(&mut hub, LineKind::Aggregate, "PLS-LIVE stats: peers=2 held=1");
    emit(&mut hub, LineKind::Event, "conn up: link=3 (Responder)");
    text.push_str(&watch(public, 1, &rx, usize::MAX).0);
    assert!(
        text.contains("PLS-BACKLOG"),
        "public-on exposes the ring backlog to the viewer: {text}"
    );
    assert!(
        text.contains("PLS-LIVE"),
        "a live public line is streamed to the viewer: {text}"
    );
    assert!(text.contains("00:00:00 conn up: link=3 (Responder)\n"));
}

#[test]
fn public_off_streams_totals_and_no_events() {
    let mut hub = Hub::new();
    let (_, _, rx) = subscribe(&mut hub, false);
    emit(&mut hub, LineKind::Event, "conn up: link=3 (Responder)");
    emit(&mut hub, LineKind::Aggregate, "stats: peers=2 held=1");
    emit(&mut hub, LineKind::Event, "conn down: link=3");
    let (text, _) = watch(false, 1, &rx, usize::MAX);
    assert_eq!(text, "00:00:00 stats: peers=2 held=1\n: ping\n");
}

#[test]
fn hidden_lines_do_not_put_off_the_sign_of_life() {
    let second = 1_000_000_000u128;
    let mut phase = LogPhase::Greeting;
    let mut now = 0u128;
    let mut ev = LogEvent::Written(true);
    let mut pings = Vec::new();
    // Every ten seconds a line comes that this viewer is not shown.
    while now < 100 * second {
        ev = match serve_log_stream(false, LOG_STREAM_MAX_MS, &mut phase, ev) {
            LogAction::ReadClock => LogEvent::Elapsed(now),
            LogAction::Wait(ns) => {
                let next_line = (now / (10 * second) + 1) * 10 * second;
                if now + (ns as u128) < next_line {
                    now += ns as u128;
                    LogEvent::Quiet
                } else {
                    now = next_line;
                    LogEvent::Line(PublicLine {
                        kind: LineKind::Event,
                        text: "00:00:00 conn down: link=1".to_string(),
                    })
                }
            }
            LogAction::Write(text) => {
                assert_eq!(text, ": ping\n");
                pings.push(now / second);
                LogEvent::Written(true)
            }
            LogAction::Close => panic!("the stream stays open"),
        };
    }
    assert_eq!(pings, vec![15, 30, 45, 60, 75, 90]);
}

#[test]
fn a_viewer_that_cannot_be_written_to_is_let_go() {
    let mut hub = Hub::new();
    let (_, _, rx) = subscribe(&mut hub, true);
    emit(&mut hub, LineKind::Event, "one");
    emit(&mut hub, LineKind::Event, "two");
    assert_eq!(watch(true, 1_000, &rx, 1).0, "00:00:00 one\n");
    // A hub that is gone ends the stream; so does a greeting that fails.
    drop(hub);
    assert_eq!(watch(true, 1_000, &rx, usize::MAX), (String::new(), 0));
    let mut phase = LogPhase::Greeting;
    let action = serve_log_stream(true, 1_000, &mut phase, LogEvent::Written(false));
    assert!(matches!(action, LogAction::Close));
}
