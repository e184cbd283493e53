//! The raw-TCP bearer.

use hop_relayd::frame::{
    declared_len, encode_frame, frame_len_ok, serve_tcp, TcpAction, TcpEvent, TcpPhase,
    FRAME_TIMEOUT_MS, MAX_FRAME_BYTES,
};

#[derive(Debug, PartialEq)]
enum Told {
    Up,
    Data(Vec<u8>),
    Down,
}

/// Runs a connection over `stream`, with a driver that takes `patience` things and is gone after
/// that; returns what the driver was told.
fn run(stream: &[u8], patience: usize) -> Vec<Told> {
    run_until(stream, patience, false)
}

/// The same, where the peer does not close after `stream` but is `silent`. Where it may be silent
/// for ever, that is as far as the run goes.
fn run_until(stream: &[u8], patience: usize, silent: bool) -> Vec<Told> {
    let mut told = Vec::new();
    let mut rest = stream;
    let mut phase = TcpPhase::Opening;
    let mut tell = |what: Told| {
        if told.len() < patience {
            told.push(what);
            true
        } else {
            false
        }
    };
    let mut ev = TcpEvent::Sent(tell(Told::Up));
    loop {
        ev = match serve_tcp(&mut phase, ev) {
            TcpAction::Read(n, limit) => {
                if rest.len() >= n {
                    let (got, left) = rest.split_at(n);
                    rest = left;
                    TcpEvent::Read(Some(got.to_vec()))
                } else if !silent {
                    TcpEvent::Read(None)
                } else if limit == Some(FRAME_TIMEOUT_MS) {
                    TcpEvent::TimedOut
                } else {
                    return told;
                }
            }
            TcpAction::Deliver(frame) => TcpEvent::Sent(tell(Told::Data(frame))),
            TcpAction::ReportDown => TcpEvent::Sent(tell(Told::Down)),
            TcpAction::Stop => break,
        };
    }
    assert_eq!(phase, TcpPhase::Over);
    told
}

fn framed(payload: &[u8]) -> Vec<u8> {
    let mut v = (payload.len() as u32).to_be_bytes().to_vec();
    v.extend_from_slice(payload);
    v
}

#[test]
fn frame_cap_rejects_oversized_and_accepts_at_the_bound() {
    assert!(frame_len_ok(0));
    assert!(frame_len_ok(MAX_FRAME_BYTES), "exactly at the cap is accepted");
    assert!(!frame_len_ok(MAX_FRAME_BYTES + 1), "one byte over the cap is rejected");
    assert!(!frame_len_ok(64 << 20), "a 64 MiB frame is rejected");
    assert_eq!(MAX_FRAME_BYTES, 1 << 20);
}

#[test]
fn serve_tcp_delivers_length_framed_payloads_in_order() {
    let mut stream = framed(b"hello");
    stream.extend(framed(b"world!!"));
    assert_eq!(
        run(&stream, usize::MAX),
        vec![
            Told::Up,
            Told::Data(b"hello".to_vec()),
            Told::Data(b"world!!".to_vec()),
            Told::Down
        ],
        "payloads decoded exactly and in order, between link-up and link-down"
    );
}

#[test]
fn serve_tcp_drops_a_frame_over_the_size_cap_without_emitting_it() {
    let mut stream = (MAX_FRAME_BYTES as u32 + 1).to_be_bytes().to_vec();
    stream.extend_from_slice(b"junk");
    assert_eq!(
        run(&stream, usize::MAX),
        vec![Told::Up, Told::Down],
        "an over-cap frame is never delivered, and the connection is dropped"
    );
}

#[test]
fn serve_tcp_writer_thread_length_frames_outgoing_packets() {
    let out = encode_frame(b"payload!!");
    assert_eq!(
        u32::from_be_bytes(out[..4].try_into().unwrap()) as usize,
        9,
        "the length prefix is the payload length"
    );
    assert_eq!(&out[4..], b"payload!!", "the payload is written verbatim after the prefix");
    assert_eq!(encode_frame(b""), vec![0, 0, 0, 0]);
    let big = vec![7u8; 0x01_02_03];
    assert_eq!(encode_frame(&big)[..4], [0, 1, 2, 3]);
    assert_eq!(encode_frame(&big), framed(&big));
}

#[test]
fn declared_lengths_are_big_endian() {
    assert_eq!(declared_len(&[0, 0, 0, 9]), 9);
    assert_eq!(declared_len(&[1, 2, 3, 4]), 0x01_02_03_04);
    assert_eq!(declared_len(&[255, 255, 255, 255]), u32::MAX as usize);
}

#[test]
fn a_stream_that_ends_within_a_frame_delivers_what_came_before() {
    let mut stream = framed(b"one");
    stream.extend(framed(b""));
    stream.extend_from_slice(&framed(b"cut off")[..8]);
    assert_eq!(
        run(&stream, usize::MAX),
        vec![Told::Up, Told::Data(b"one".to_vec()), Told::Data(Vec::new()), Told::Down]
    );
    assert_eq!(run(&[0, 0], usize::MAX), vec![Told::Up, Told::Down]);
}

#[test]
fn a_frame_at_the_cap_is_delivered() {
    let payload = vec![1u8; MAX_FRAME_BYTES];
    assert_eq!(
        run(&framed(&payload), usize::MAX),
        vec![Told::Up, Told::Data(payload), Told::Down]
    );
}

#[test]
fn a_peer_that_sends_nothing_or_stops_within_a_frame_is_let_go() {
    assert_eq!(run_until(&[], usize::MAX, true), vec![Told::Up, Told::Down]);
    let whole = framed(b"cut off");
    for n in 1..whole.len() {
        assert_eq!(
            run_until(&whole[..n], usize::MAX, true),
            vec![Told::Up, Told::Down],
            "silent after {n} bytes"
        );
    }
    let mut stream = framed(b"one");
    stream.extend_from_slice(&whole[..8]);
    assert_eq!(
        run_until(&stream, usize::MAX, true),
        vec![Told::Up, Told::Data(b"one".to_vec()), Told::Down]
    );
}

#[test]
fn a_peer_may_be_silent_between_two_frames() {
    assert_eq!(
        run_until(&framed(b"one"), usize::MAX, true),
        vec![Told::Up, Told::Data(b"one".to_vec())]
    );
}

#[test]
fn a_link_that_the_driver_never_heard_of_is_not_reported_down() {
    assert_eq!(run(&framed(b"x"), 0), vec![]);
}

#[test]
fn a_driver_that_goes_away_ends_the_connection() {
    let mut stream = framed(b"one");
    stream.extend(framed(b"two"));
    // It takes the link and the first frame; of the second and of the end it hears nothing.
    assert_eq!(run(&stream, 2), vec![Told::Up, Told::Data(b"one".to_vec())]);
}
