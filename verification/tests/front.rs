//! The front door and the pools of connections.

use hop_relayd::admission::{
    Budgets, ConnGuard, Pool, MAX_CONNS, MAX_LOG_CONNS, MAX_WS_PENDING,
};
use hop_relayd::front::{
    admit_and_serve_ws, classify_ws_peek, dispatch_ws_accept, peek_is_healthz, spawn_tcp_conn,
    AcceptPlan, ServePlan, TcpPlan, WsKind,
};
use hop_relayd::health::serve_healthz;

const PROBE: &[u8] = b"GET /healthz HTTP/1.1\r\nHost: x\r\n\r\n";
const PLAIN: &[u8] = b"GET / HTTP/1.1\r\nHost: x\r\n\r\n";
const UPGRADE: &[u8] =
    b"GET / HTTP/1.1\r\nHost: x\r\nUpgrade: websocket\r\nConnection: Upgrade\r\n\r\n";

fn fill(budgets: &mut Budgets, pool: Pool, n: usize) -> Vec<ConnGuard> {
    (0..n).map(|_| budgets.admit_against(pool).expect("a slot is free")).collect()
}

fn drain(budgets: &mut Budgets, guards: &mut Vec<ConnGuard>) {
    for guard in guards.drain(..) {
        budgets.release(guard);
    }
}

#[test]
fn peek_is_healthz_fast_paths_a_probe_and_never_blocks_on_a_slowloris() {
    assert!(peek_is_healthz(&PROBE[..24]), "a buffered healthz probe is fast-pathed");
    assert!(!peek_is_healthz(b""), "a silent slowloris is not healthz");
    assert!(
        !peek_is_healthz(&b"GET / HTTP/1.1\r\nUpgrade: websocket\r\n\r\n"[..24]),
        "a non-healthz request is not fast-pathed"
    );
}

#[test]
fn admit_conn_sheds_over_the_connection_cap() {
    let mut budgets = Budgets::new();
    let mut guards = Vec::new();
    for _ in 0..MAX_CONNS {
        let g = budgets.admit_conn().expect("under the cap is admitted");
        guards.push(g);
    }
    assert!(
        budgets.admit_conn().is_none(),
        "a connection over MAX_CONNS is shed, not spawned"
    );
    budgets.release(guards.pop().unwrap());
    let g = budgets.admit_conn().expect("a freed slot re-admits");
    budgets.release(g);
    drain(&mut budgets, &mut guards);
    assert_eq!(budgets.active(Pool::Mesh), 0);
    assert!(budgets.admit_conn().is_some(), "counter fully released after cleanup");
}

#[test]
fn log_viewers_cannot_starve_a_mesh_connection() {
    let mut budgets = Budgets::new();
    let mut log_guards = Vec::new();
    for _ in 0..MAX_LOG_CONNS {
        log_guards.push(budgets.admit_log_conn().expect("log viewer admitted under the log cap"));
    }
    assert!(
        budgets.admit_log_conn().is_none(),
        "log viewers are capped by their OWN small budget, not the mesh budget"
    );
    let mesh = budgets
        .admit_conn()
        .expect("a mesh connection MUST be admitted even with every log-stream slot occupied");
    budgets.release(mesh);
    drain(&mut budgets, &mut log_guards);
    let mut mesh_guards = fill(&mut budgets, Pool::Mesh, MAX_CONNS);
    assert!(budgets.admit_conn().is_none(), "mesh budget is full");
    assert!(
        budgets.admit_log_conn().is_some(),
        "a log viewer is still admitted when the mesh budget is full (separate pools)"
    );
    drain(&mut budgets, &mut mesh_guards);
}

#[test]
fn peek_classifies_healthz_log_and_upgrade_so_each_charges_the_right_budget() {
    assert_eq!(
        classify_ws_peek(Some(PROBE)),
        WsKind::Healthz,
        "healthz probe is classified as Healthz (served with NO slot charged)"
    );
    assert_eq!(
        classify_ws_peek(Some(PLAIN)),
        WsKind::LogStream,
        "a plain non-upgrade GET is a log viewer (charges the small log budget)"
    );
    assert_eq!(
        classify_ws_peek(Some(UPGRADE)),
        WsKind::Upgrade,
        "a real WS upgrade is a mesh link (charges the mesh budget)"
    );
}

#[test]
fn requests_are_classified_whatever_their_letter_case_and_bytes() {
    assert_eq!(classify_ws_peek(None), WsKind::Empty);
    assert_eq!(classify_ws_peek(Some(b"")), WsKind::Empty);
    assert_eq!(classify_ws_peek(Some(b"x")), WsKind::LogStream);
    assert_eq!(classify_ws_peek(Some(b"gEt /HeAlThZ")), WsKind::Healthz);
    assert_eq!(classify_ws_peek(Some(b"GET /healt")), WsKind::LogStream);
    assert_eq!(classify_ws_peek(Some(b"\xff\xfe UPGRADE: WebSocket")), WsKind::Upgrade);
    assert_eq!(classify_ws_peek(Some(b"upgrade:websocket")), WsKind::LogStream);
    // A probe that also asks for an upgrade is a probe.
    assert_eq!(
        classify_ws_peek(Some(b"GET /healthz HTTP/1.1\r\nUpgrade: websocket\r\n")),
        WsKind::Healthz
    );
    // Byte by byte as a search in the lossily decoded, lower-cased text would find it.
    for head in [&b"\xc3GET /healthz"[..], b"G\xe2\x82ET /healthz", b"GET /health\xffz", b"@[`{"] {
        let lossy = String::from_utf8_lossy(head).to_ascii_lowercase();
        assert_eq!(peek_is_healthz(head), lossy.contains("get /healthz"));
    }
}

#[test]
fn admit_and_serve_ws_runs_classify_off_the_accept_thread_and_reconciles_budgets() {
    let mut budgets = Budgets::new();
    let pending = budgets.admit_ws_pending().expect("pending-peek slot admitted");
    let plan = admit_and_serve_ws(&mut budgets, pending, classify_ws_peek(Some(PROBE)));
    assert!(matches!(plan, ServePlan::AnswerProbe), "healthz is served (not shed)");
    assert_eq!(budgets.active(Pool::Mesh), 0, "healthz charged NO mesh slot (exempt)");
    assert_eq!(budgets.active(Pool::Log), 0, "healthz charged NO log slot either");
    assert_eq!(
        budgets.active(Pool::Pending),
        0,
        "pending-peek slot released after classification"
    );

    // With the mesh pool saturated, a probe is still served.
    let mut mesh_full = fill(&mut budgets, Pool::Mesh, MAX_CONNS);
    assert_eq!(budgets.active(Pool::Mesh), MAX_CONNS, "mesh full");
    let pending = budgets.admit_ws_pending().unwrap();
    let plan = admit_and_serve_ws(&mut budgets, pending, classify_ws_peek(Some(PROBE)));
    assert!(
        matches!(plan, ServePlan::AnswerProbe),
        "healthz STILL serves with the mesh pool full (never shed at the mesh cap)"
    );
    assert_eq!(
        budgets.active(Pool::Mesh),
        MAX_CONNS,
        "healthz did not touch the mesh pool"
    );
    drain(&mut budgets, &mut mesh_full);
    assert_eq!(budgets.active(Pool::Mesh), 0, "mesh pool released");

    // Empty: a probe with no payload leaves no slot held and serves nothing.
    let pending = budgets.admit_ws_pending().unwrap();
    let plan = admit_and_serve_ws(&mut budgets, pending, classify_ws_peek(Some(b"")));
    assert!(matches!(plan, ServePlan::Shed));
    assert_eq!(budgets.active(Pool::Mesh), 0, "empty probe held no mesh slot");

    // LogStream: it holds a log slot and no mesh slot, and the full mesh budget stays free.
    let pending = budgets.admit_ws_pending().unwrap();
    let plan = admit_and_serve_ws(&mut budgets, pending, classify_ws_peek(Some(PLAIN)));
    let viewer = match plan {
        ServePlan::StreamLog(guard) => guard,
        other => panic!("a log viewer is admitted, got {other:?}"),
    };
    assert_eq!(budgets.active(Pool::Mesh), 0, "a log viewer holds NO mesh slot");
    assert_eq!(budgets.active(Pool::Log), 1, "a log viewer charges exactly one LOG slot");
    let mut mesh_guards = fill(&mut budgets, Pool::Mesh, MAX_CONNS);
    assert!(budgets.active(Pool::Log) <= MAX_LOG_CONNS);
    drain(&mut budgets, &mut mesh_guards);
    budgets.release(viewer);
    assert_eq!(budgets.active(Pool::Log), 0, "log slot released when the stream closed");
    assert_eq!(budgets.active(Pool::Mesh), 0, "no leaked mesh slots");
}

#[test]
fn spawn_tcp_conn_admits_a_connection_and_releases_its_slot_on_close() {
    let mut budgets = Budgets::new();
    assert_eq!(budgets.active(Pool::Mesh), 0, "clean start");
    let guard = match spawn_tcp_conn(&mut budgets) {
        TcpPlan::Serve(guard) => guard,
        TcpPlan::Shed => panic!("spawn_tcp_conn admits"),
    };
    assert_eq!(budgets.active(Pool::Mesh), 1);
    budgets.release(guard);
    assert_eq!(
        budgets.active(Pool::Mesh),
        0,
        "the mesh slot is released when the connection closes"
    );
    let _full = fill(&mut budgets, Pool::Mesh, MAX_CONNS);
    assert!(matches!(spawn_tcp_conn(&mut budgets), TcpPlan::Shed));
}

#[test]
fn dispatch_ws_accept_fast_paths_healthz_and_admits_a_real_upgrade() {
    let mut budgets = Budgets::new();
    assert!(matches!(
        dispatch_ws_accept(&mut budgets, &PROBE[..24]),
        AcceptPlan::AnswerProbe
    ));
    assert_eq!(budgets.active(Pool::Mesh), 0, "healthz charged no mesh slot");
    assert_eq!(budgets.active(Pool::Pending), 0, "healthz charged no pending slot");

    let pending = match dispatch_ws_accept(&mut budgets, &UPGRADE[..24]) {
        AcceptPlan::Classify(guard) => guard,
        other => panic!("an upgrade is admitted to be classified, got {other:?}"),
    };
    assert_eq!(budgets.active(Pool::Pending), 1);
    let guard = match admit_and_serve_ws(&mut budgets, pending, classify_ws_peek(Some(UPGRADE))) {
        ServePlan::ServeLink(guard) => guard,
        other => panic!("a real WS upgrade is bridged as a mesh link, got {other:?}"),
    };
    assert_eq!(budgets.active(Pool::Mesh), 1);
    budgets.release(guard);
    assert_eq!(
        budgets.active(Pool::Mesh),
        0,
        "the mesh slot is released when the upgrade link closes"
    );
}

#[test]
fn a_probe_is_answered_however_many_connections_wait() {
    let mut budgets = Budgets::new();
    let _full = fill(&mut budgets, Pool::Pending, MAX_WS_PENDING);
    assert!(matches!(dispatch_ws_accept(&mut budgets, b""), AcceptPlan::Shed));
    assert!(matches!(dispatch_ws_accept(&mut budgets, PLAIN), AcceptPlan::Shed));
    assert!(matches!(dispatch_ws_accept(&mut budgets, PROBE), AcceptPlan::AnswerProbe));
    assert_eq!(budgets.active(Pool::Pending), MAX_WS_PENDING);
}

#[test]
fn admit_and_serve_ws_sheds_an_upgrade_and_a_log_viewer_when_their_pools_are_full() {
    let mut budgets = Budgets::new();
    let mut mesh = fill(&mut budgets, Pool::Mesh, MAX_CONNS);
    assert_eq!(budgets.active(Pool::Mesh), MAX_CONNS, "mesh saturated");
    let pending = budgets.admit_ws_pending().expect("pending slot");
    let plan = admit_and_serve_ws(&mut budgets, pending, classify_ws_peek(Some(UPGRADE)));
    assert!(matches!(plan, ServePlan::Shed), "a WS upgrade is shed when the mesh pool is full");
    assert_eq!(
        budgets.active(Pool::Mesh),
        MAX_CONNS,
        "the shed did not charge (or leak) a mesh slot"
    );
    drain(&mut budgets, &mut mesh);

    let mut logs = fill(&mut budgets, Pool::Log, MAX_LOG_CONNS);
    assert_eq!(budgets.active(Pool::Log), MAX_LOG_CONNS, "log pool saturated");
    let pending = budgets.admit_ws_pending().expect("pending slot");
    let plan = admit_and_serve_ws(&mut budgets, pending, classify_ws_peek(Some(PLAIN)));
    assert!(matches!(plan, ServePlan::Shed), "a log viewer is shed on a full log pool");
    assert_eq!(
        budgets.active(Pool::Log),
        MAX_LOG_CONNS,
        "the shed did not charge (or leak) a log slot"
    );
    drain(&mut budgets, &mut logs);
    assert_eq!(budgets.active(Pool::Mesh), 0, "no leaked mesh slots");
    assert_eq!(budgets.active(Pool::Log), 0, "no leaked log slots");
    assert_eq!(budgets.active(Pool::Pending), 0);
}

#[test]
fn serve_ws_dispatches_healthz_to_the_health_handler() {
    let mut budgets = Budgets::new();
    let pending = budgets.admit_ws_pending().unwrap();
    let plan = admit_and_serve_ws(&mut budgets, pending, WsKind::Healthz);
    assert!(matches!(plan, ServePlan::AnswerProbe));
    let resp = serve_healthz(0, 1, 0);
    assert!(
        resp.starts_with("HTTP/1.1 200") || resp.starts_with("HTTP/1.1 503"),
        "a probe is answered with the health handler's HTTP response, not a WS upgrade: {resp}"
    );
}

#[test]
fn serve_ws_empty_kind_serves_nothing() {
    let mut budgets = Budgets::new();
    let pending = budgets.admit_ws_pending().unwrap();
    let plan = admit_and_serve_ws(&mut budgets, pending, WsKind::Empty);
    assert!(
        matches!(plan, ServePlan::Shed),
        "an Empty connection produces no driver event (no link is opened)"
    );
    assert_eq!(budgets.active(Pool::Pending), 0);
}
