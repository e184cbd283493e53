//! The command line.

use hop_relayd::config::{configure_node, host_of, parse_args};

fn args(v: &[&str]) -> Vec<String> {
    v.iter().map(|s| s.to_string()).collect()
}

#[test]
fn bare_invocation_defaults_to_the_path_a_tcp_bearer() {
    let c = parse_args(args(&[]));
    assert_eq!(
        c.listen.as_deref(),
        Some("0.0.0.0:9443"),
        "no bearer flags => TCP 9443 default"
    );
    assert!(c.ws.is_none());
    assert_eq!(c.db, "hop-relay.db");
    assert_eq!(c.mesh_fanout, 0);
    assert!(c.peers.is_empty());
}

#[test]
fn an_explicit_ws_suppresses_the_tcp_default() {
    let c = parse_args(args(&["--ws", "0.0.0.0:8080"]));
    assert_eq!(c.ws.as_deref(), Some("0.0.0.0:8080"));
    assert!(c.listen.is_none(), "an explicit --ws leaves --listen unset");
}

#[test]
fn every_flag_parses_and_repeated_peer_accumulates() {
    let c = parse_args(args(&[
        "--listen",
        "1.2.3.4:1",
        "--ws",
        "5.6.7.8:2",
        "--db",
        "/tmp/x.db",
        "--identity-file",
        "/k",
        "--firestore",
        "proj",
        "--region",
        "us",
        "--advertise",
        "wss://us.relay/",
        "--mesh-fanout",
        "3",
        "--peer",
        "a:1",
        "--peer",
        "b:2",
    ]));
    assert_eq!(c.listen.as_deref(), Some("1.2.3.4:1"));
    assert_eq!(c.ws.as_deref(), Some("5.6.7.8:2"));
    assert_eq!(c.db, "/tmp/x.db");
    assert_eq!(c.identity_file.as_deref(), Some("/k"));
    assert_eq!(c.firestore.as_deref(), Some("proj"));
    assert_eq!(c.region.as_deref(), Some("us"));
    assert_eq!(c.advertise.as_deref(), Some("wss://us.relay/"));
    assert_eq!(c.mesh_fanout, 3);
    assert_eq!(c.peers, vec!["a:1".to_string(), "b:2".to_string()]);
    assert!(c.ignored.is_empty());
}

#[test]
fn a_bad_mesh_fanout_is_zero_and_unknown_flags_are_ignored() {
    let c = parse_args(args(&["--mesh-fanout", "notanumber", "--bogus", "--listen", "x:9"]));
    assert_eq!(c.mesh_fanout, 0, "unparseable fan-out => 0 (off)");
    assert_eq!(
        c.listen.as_deref(),
        Some("x:9"),
        "parsing continues past an unknown flag"
    );
    assert_eq!(c.ignored, vec!["--bogus".to_string()]);
}

#[test]
fn a_flag_without_its_argument() {
    let c = parse_args(args(&["--ws", "a:1", "--ws"]));
    assert_eq!(c.ws, None, "the later flag takes the place of the earlier one");
    assert_eq!(c.listen.as_deref(), Some("0.0.0.0:9443"));
    assert_eq!(parse_args(args(&["--db", "x", "--db"])).db, "x");
    assert_eq!(parse_args(args(&["--mesh-fanout", "3", "--mesh-fanout"])).mesh_fanout, 0);
    assert!(parse_args(args(&["--peer"])).peers.is_empty());
    // A flag takes what is behind it, whatever that looks like.
    let c = parse_args(args(&["--listen", "--ws", "x:1"]));
    assert_eq!(c.listen.as_deref(), Some("--ws"));
    assert_eq!(c.ignored, vec!["x:1".to_string()]);
}

#[test]
fn fanouts_are_read_as_numbers() {
    let fanout = |v: &str| parse_args(args(&["--mesh-fanout", v])).mesh_fanout;
    assert_eq!(fanout("+7"), 7);
    assert_eq!(fanout("-7"), 0);
    assert_eq!(fanout("18446744073709551616"), 0);
    assert_eq!(fanout("007"), 7);
}

#[test]
fn host_of_extracts_the_identify_name_from_a_ws_url() {
    assert_eq!(
        host_of("wss://us-central1.relay.hopme.sh/"),
        "us-central1.relay.hopme.sh"
    );
    assert_eq!(host_of("ws://eu.relay.hopme.sh:8080/x"), "eu.relay.hopme.sh:8080");
    assert_eq!(host_of("wss://plainhost"), "plainhost");
    assert_eq!(
        host_of("relay.example.com/path"),
        "relay.example.com",
        "no scheme: still strips the path"
    );
    assert_eq!(host_of("bare"), "bare");
}

#[test]
fn hosts_at_the_edges() {
    assert_eq!(host_of(""), "");
    assert_eq!(host_of("wss://"), "");
    assert_eq!(host_of("wss:///x"), "");
    assert_eq!(host_of("https://x/y"), "https:");
    assert_eq!(host_of("wss://ws://x"), "ws:");
    assert_eq!(host_of("ws://ünïcode.sh/p/q"), "ünïcode.sh");
}

#[test]
fn configure_node_sets_the_identify_name_from_the_advertise_host() {
    let node = configure_node(Some("wss://eu-west1.relay.hopme.sh/"));
    assert_eq!(
        node.name.as_deref(),
        Some("eu-west1.relay.hopme.sh"),
        "identify name is the advertise host"
    );
    assert_eq!((node.route_capacity, node.max_relayed), (200_000, 8192));
    let node2 = configure_node(None);
    assert_eq!(node2.name, None, "no --advertise => no identify name");
}
