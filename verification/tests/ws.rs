//! The WebSocket bearer.

use std::collections::VecDeque;

use hop_relayd::frame::MAX_FRAME_BYTES;
use hop_relayd::lines::LineKind;
use hop_relayd::ws::{dial_peer, serve_ws, WsAction, WsEvent, WsPhase, WsSide};

/// A script for one link: what the peer sends, what the node sends, and what goes wrong.
struct Link {
    side: WsSide,
    reads: VecDeque<WsEvent>,
    outgoing: VecDeque<Vec<u8>>,
    queue_gone: bool,
    writes: VecDeque<WsEvent>,
    flushes: VecDeque<WsEvent>,
    driver_takes: usize,
}

#[derive(Debug, Default, PartialEq)]
struct Seen {
    up: bool,
    delivered: Vec<Vec<u8>>,
    written: Vec<Vec<u8>>,
    pauses: usize,
    downs: usize,
    lines: Vec<String>,
}

impl Link {
    fn new(side: WsSide) -> Self {
        Link {
            side,
            reads: VecDeque::new(),
            outgoing: VecDeque::new(),
            queue_gone: false,
            writes: VecDeque::new(),
            flushes: VecDeque::new(),
            driver_takes: usize::MAX,
        }
    }

    fn tell(&mut self) -> bool {
        if self.driver_takes > 0 {
            self.driver_takes -= 1;
            true
        } else {
            false
        }
    }

    fn run(mut self) -> Seen {
        let mut seen = Seen::default();
        let mut phase = WsPhase::Opening;
        seen.up = self.tell();
        let mut ev = WsEvent::Sent(seen.up);
        loop {
            let action = match self.side {
                WsSide::Accepted => serve_ws(&mut phase, ev),
                WsSide::Dialed => {
                    let turn = dial_peer("wss://x", 4, &mut phase, ev);
                    seen.lines.extend(turn.line.map(|l| {
                        assert_eq!(l.kind, LineKind::Event);
                        l.text
                    }));
                    turn.action
                }
            };
            ev = match action {
                WsAction::TakeOutgoing => match self.outgoing.pop_front() {
                    Some(packet) => WsEvent::Packet(packet),
                    None if self.queue_gone => WsEvent::QueueGone,
                    None => WsEvent::NoPacket,
                },
                WsAction::Write(packet) => {
                    seen.written.push(packet);
                    self.writes.pop_front().unwrap_or(WsEvent::Done)
                }
                WsAction::Flush => self.flushes.pop_front().unwrap_or(WsEvent::Done),
                WsAction::Read => self.reads.pop_front().unwrap_or(WsEvent::Failed),
                WsAction::Deliver(frame) => {
                    let taken = self.tell();
                    if taken {
                        seen.delivered.push(frame);
                    }
                    WsEvent::Sent(taken)
                }
                WsAction::Pause => {
                    seen.pauses += 1;
                    WsEvent::Awake
                }
                WsAction::ReportDown => {
                    seen.downs += 1;
                    WsEvent::Sent(self.tell())
                }
                WsAction::Stop => break,
            };
        }
        assert_eq!(phase, WsPhase::Over);
        seen
    }
}

#[test]
fn serve_ws_upgrade_bridges_binary_frames_both_ways_and_reports_down() {
    let mut link = Link::new(WsSide::Accepted);
    link.reads.push_back(WsEvent::Binary(b"ping-bytes".to_vec()));
    link.outgoing.push_back(b"pong-bytes".to_vec());
    // After that the client is gone without a closing handshake: the next read fails.
    let seen = link.run();
    assert!(seen.up);
    assert_eq!(
        seen.delivered,
        vec![b"ping-bytes".to_vec()],
        "inbound WS binary frame delivered verbatim"
    );
    assert_eq!(
        seen.written,
        vec![b"pong-bytes".to_vec()],
        "outbound packet framed back to the client"
    );
    assert_eq!(seen.downs, 1, "a hard client disconnect still reports the link down");
}

#[test]
fn serve_ws_tolerates_read_timeouts_and_breaks_when_the_out_channel_disconnects() {
    let mut link = Link::new(WsSide::Accepted);
    link.reads.extend([WsEvent::Idle, WsEvent::Idle, WsEvent::Binary(vec![1])]);
    link.reads.push_back(WsEvent::Close);
    let seen = link.run();
    assert_eq!(seen.delivered, vec![vec![1]], "a timed-out read does not tear the link down");
    assert_eq!(seen.pauses, 0);

    let mut link = Link::new(WsSide::Accepted);
    link.queue_gone = true;
    let seen = link.run();
    assert_eq!(
        seen.downs, 1,
        "dropping the link's out sender ends the WS session and reports it down"
    );
}

#[test]
fn other_messages_reach_nobody_and_keep_the_link() {
    for side in [WsSide::Accepted, WsSide::Dialed] {
        let mut link = Link::new(side);
        link.reads.extend([
            WsEvent::OtherMessage,
            WsEvent::Binary(vec![1]),
            WsEvent::OtherMessage,
            WsEvent::Binary(vec![2]),
            WsEvent::Close,
            WsEvent::Binary(vec![3]),
        ]);
        let seen = link.run();
        assert_eq!(seen.delivered, vec![vec![1], vec![2]]);
        assert_eq!(seen.downs, 1);
    }
}

#[test]
fn a_message_above_the_cap_ends_the_link_undelivered() {
    for side in [WsSide::Accepted, WsSide::Dialed] {
        for size in [MAX_FRAME_BYTES + 1, 2 * MAX_FRAME_BYTES] {
            let mut link = Link::new(side);
            link.reads.extend([
                WsEvent::Binary(vec![1; MAX_FRAME_BYTES]),
                WsEvent::Binary(vec![2; size]),
                WsEvent::Binary(vec![3]),
            ]);
            let seen = link.run();
            assert!(seen.up);
            assert_eq!(
                seen.delivered,
                vec![vec![1; MAX_FRAME_BYTES]],
                "a message at the cap is delivered, one above it is not, nor any behind it"
            );
            assert_eq!(seen.downs, 1);
        }
    }
}

#[test]
fn packets_are_written_in_order_before_anything_is_read() {
    let mut link = Link::new(WsSide::Accepted);
    link.outgoing.extend([vec![1], vec![2], vec![3]]);
    let seen = link.run();
    assert_eq!(seen.written, vec![vec![1], vec![2], vec![3]]);
}

#[test]
fn a_write_that_would_block_ends_an_accepted_link_but_not_a_dialed_one() {
    for on_flush in [false, true] {
        for side in [WsSide::Accepted, WsSide::Dialed] {
            let mut link = Link::new(side);
            link.outgoing.extend([vec![1], vec![2]]);
            if on_flush {
                link.flushes.push_back(WsEvent::WouldBlock);
            } else {
                link.writes.push_back(WsEvent::WouldBlock);
            }
            link.reads.extend([WsEvent::Binary(vec![9]), WsEvent::Close]);
            let seen = link.run();
            assert_eq!(seen.delivered.len(), (side == WsSide::Dialed) as usize);
            assert_eq!(seen.downs, 1);
        }
    }
}

#[test]
fn failed_writes_and_flushes_end_the_link() {
    for side in [WsSide::Accepted, WsSide::Dialed] {
        let mut link = Link::new(side);
        link.outgoing.extend([vec![1], vec![2]]);
        link.writes.push_back(WsEvent::Failed);
        let seen = link.run();
        assert_eq!(seen.written, vec![vec![1]]);
        assert_eq!(seen.downs, 1);

        let mut link = Link::new(side);
        link.flushes.push_back(WsEvent::Failed);
        assert_eq!(link.run().downs, 1);
    }
}

#[test]
fn a_dialed_link_is_announced_and_its_end_too() {
    let mut link = Link::new(WsSide::Dialed);
    link.reads.extend([WsEvent::Binary(vec![1]), WsEvent::Close]);
    assert_eq!(
        link.run().lines,
        vec!["peer: dialed wss://x (link 4)", "peer: link 4 to wss://x closed"]
    );
    // A link that found the driver gone when it had a frame for it ends without a word.
    let mut link = Link::new(WsSide::Dialed);
    link.driver_takes = 1;
    link.reads.push_back(WsEvent::Binary(vec![1]));
    assert_eq!(link.run().lines, vec!["peer: dialed wss://x (link 4)"]);
}

#[test]
fn an_idle_dialed_link_pauses() {
    let mut link = Link::new(WsSide::Dialed);
    link.reads.extend([WsEvent::Idle, WsEvent::Idle, WsEvent::Close]);
    let seen = link.run();
    assert_eq!(seen.pauses, 2);
    assert_eq!(seen.downs, 1);
}

#[test]
fn a_websocket_link_that_the_driver_never_heard_of_is_not_reported_down() {
    for side in [WsSide::Accepted, WsSide::Dialed] {
        let mut link = Link::new(side);
        link.driver_takes = 0;
        assert_eq!(link.run(), Seen::default());
    }
}

#[test]
fn only_an_accepted_link_tries_to_report_down_to_a_driver_that_is_gone() {
    for side in [WsSide::Accepted, WsSide::Dialed] {
        let mut link = Link::new(side);
        link.driver_takes = 1;
        link.reads.push_back(WsEvent::Binary(vec![1]));
        let seen = link.run();
        assert!(seen.up && seen.delivered.is_empty());
        assert_eq!(seen.downs, (side == WsSide::Accepted) as usize);
    }
}
