//! The WebSocket bearer: one thread both reads binary frames and drains what the node wants sent.
//!
//! The same turns serve a link that a peer opened to us and one that we dialed; a dialed socket
//! does not block, so there a write that would block is no failure, and an idle read pauses. A
//! message that is larger than a link frame may be ends the link, whoever opened it.

use vstd::prelude::*;

use crate::frame::MAX_FRAME_BYTES;
use crate::lines::{
    opt_line, peer_closed_line, peer_closed_text, peer_dialed_line, peer_dialed_text, LineKind,
    PublicLine,
};
use crate::text::decimal;

verus! {

/// Who opened the link.
#[derive(Clone, Copy, PartialEq, Eq, Structural, Debug)]
pub enum WsSide {
    /// A peer did; the socket blocks, with a read timeout.
    Accepted,
    /// We did; the socket does not block.
    Dialed,
}

/// Where a WebSocket link stands.
#[derive(Clone, Copy, PartialEq, Eq, Structural, Debug)]
pub enum WsPhase {
    /// The driver is being told that the link is up.
    Opening,
    /// The outgoing queue is being asked for a packet.
    Draining,
    /// A packet is being written.
    Writing,
    /// What was written is being flushed.
    Flushing,
    /// A message is being read.
    Reading,
    /// The driver is being given a frame.
    Delivering,
    /// The thread is asleep for a moment.
    Pausing,
    /// The driver is being told that the link is down.
    Closing,
    /// The link is over.
    Over,
}

/// What the link's thread does next.
#[derive(Debug)]
pub enum WsAction {
    /// Ask the outgoing queue for a packet, without waiting.
    TakeOutgoing,
    /// Write this packet as one binary message.
    Write(Vec<u8>),
    /// Flush what was written.
    Flush,
    /// Read a message.
    Read,
    /// Give the driver this frame.
    Deliver(Vec<u8>),
    /// Sleep for [`PAUSE_MS`].
    Pause,
    /// Tell the driver that the link is down.
    ReportDown,
    /// Leave.
    Stop,
}

/// What came of it.
#[derive(Debug)]
pub enum WsEvent {
    /// The driver took what it was sent, or is gone.
    Sent(bool),
    /// The outgoing queue gave a packet.
    Packet(Vec<u8>),
    /// The outgoing queue is empty.
    NoPacket,
    /// The driver has dropped the outgoing queue.
    QueueGone,
    /// A write or a flush is done.
    Done,
    /// A write or a flush would block.
    WouldBlock,
    /// A write, a flush or a read failed.
    Failed,
    /// A binary message was read.
    Binary(Vec<u8>),
    /// A close message was read.
    Close,
    /// Some other message was read: text, ping, pong.
    OtherMessage,
    /// No message came within the time for reading.
    Idle,
    /// The sleep is over.
    Awake,
}

/// How long an idle dialed link sleeps.
pub const PAUSE_MS: u64 = 10;

/// How long a read on an accepted link waits for a message.
pub const READ_TIMEOUT_MS: u64 = 100;

/// Does `ev` answer what a link in `phase` is doing?
pub open spec fn ws_answers(phase: WsPhase, ev: WsEvent) -> bool {
    match phase {
        WsPhase::Opening | WsPhase::Delivering | WsPhase::Closing => ev is Sent,
        WsPhase::Draining => ev is Packet || ev is NoPacket || ev is QueueGone,
        WsPhase::Writing | WsPhase::Flushing => ev is Done || ev is WouldBlock || ev is Failed,
        WsPhase::Reading => ev is Binary || ev is Close || ev is OtherMessage || ev is Idle
            || ev is Failed,
        WsPhase::Pausing => ev is Awake,
        WsPhase::Over => false,
    }
}

/// Is the message small enough for a link frame?
pub open spec fn fits(bytes: Vec<u8>) -> bool {
    bytes@.len() <= MAX_FRAME_BYTES
}

/// What a link in `phase` does when `ev` comes.
pub open spec fn ws_next(side: WsSide, phase: WsPhase, ev: WsEvent) -> (WsPhase, WsAction) {
    let dialed = side == WsSide::Dialed;
    match (phase, ev) {
        (WsPhase::Opening, WsEvent::Sent(true)) => (WsPhase::Draining, WsAction::TakeOutgoing),
        // A link that the driver never heard of is not reported down either.
        (WsPhase::Opening, _) => (WsPhase::Over, WsAction::Stop),
        (WsPhase::Draining, WsEvent::Packet(bytes)) => (WsPhase::Writing, WsAction::Write(bytes)),
        (WsPhase::Draining, WsEvent::NoPacket) => (WsPhase::Flushing, WsAction::Flush),
        (WsPhase::Writing, WsEvent::Done) => (WsPhase::Draining, WsAction::TakeOutgoing),
        (WsPhase::Writing, WsEvent::WouldBlock) if dialed => (
            WsPhase::Draining,
            WsAction::TakeOutgoing,
        ),
        (WsPhase::Flushing, WsEvent::Done) => (WsPhase::Reading, WsAction::Read),
        (WsPhase::Flushing, WsEvent::WouldBlock) if dialed => (WsPhase::Reading, WsAction::Read),
        (WsPhase::Reading, WsEvent::Binary(bytes)) => if fits(bytes) {
            (WsPhase::Delivering, WsAction::Deliver(bytes))
        } else {
            (WsPhase::Closing, WsAction::ReportDown)
        },
        (WsPhase::Reading, WsEvent::OtherMessage) => (WsPhase::Draining, WsAction::TakeOutgoing),
        (WsPhase::Reading, WsEvent::Idle) => if dialed {
            (WsPhase::Pausing, WsAction::Pause)
        } else {
            (WsPhase::Draining, WsAction::TakeOutgoing)
        },
        (WsPhase::Delivering, WsEvent::Sent(true)) => (WsPhase::Draining, WsAction::TakeOutgoing),
        // With the driver gone there is nobody to tell; a dialed link does not try.
        (WsPhase::Delivering, _) if dialed => (WsPhase::Over, WsAction::Stop),
        (WsPhase::Pausing, _) => (WsPhase::Draining, WsAction::TakeOutgoing),
        (WsPhase::Closing, _) => (WsPhase::Over, WsAction::Stop),
        _ => (WsPhase::Closing, WsAction::ReportDown),
    }
}

/// One turn of a WebSocket link: what comes after `ev`.
fn turn(side: WsSide, phase: &mut WsPhase, ev: WsEvent) -> (action: WsAction)
    requires
        ws_answers(*old(phase), ev),
    ensures
        (*final(phase), action) == ws_next(side, *old(phase), ev),
{
    let dialed: bool = side == WsSide::Dialed;
    match (*phase, ev) {
        (WsPhase::Opening, WsEvent::Sent(ok)) => {
            if ok {
                *phase = WsPhase::Draining;
                WsAction::TakeOutgoing
            } else {
                *phase = WsPhase::Over;
                WsAction::Stop
            }
        },
        (WsPhase::Draining, WsEvent::Packet(bytes)) => {
            *phase = WsPhase::Writing;
            WsAction::Write(bytes)
        },
        (WsPhase::Draining, WsEvent::NoPacket) => {
            *phase = WsPhase::Flushing;
            WsAction::Flush
        },
        (WsPhase::Writing, WsEvent::Done) => {
            *phase = WsPhase::Draining;
            WsAction::TakeOutgoing
        },
        (WsPhase::Writing, WsEvent::WouldBlock) => {
            if dialed {
                *phase = WsPhase::Draining;
                WsAction::TakeOutgoing
            } else {
                *phase = WsPhase::Closing;
                WsAction::ReportDown
            }
        },
        (WsPhase::Flushing, WsEvent::Done) => {
            *phase = WsPhase::Reading;
            WsAction::Read
        },
        (WsPhase::Flushing, WsEvent::WouldBlock) => {
            if dialed {
                *phase = WsPhase::Reading;
                WsAction::Read
            } else {
                *phase = WsPhase::Closing;
                WsAction::ReportDown
            }
        },
        (WsPhase::Reading, WsEvent::Binary(bytes)) => {
            if bytes.len() <= MAX_FRAME_BYTES {
                *phase = WsPhase::Delivering;
                WsAction::Deliver(bytes)
            } else {
                *phase = WsPhase::Closing;
                WsAction::ReportDown
            }
        },
        (WsPhase::Reading, WsEvent::OtherMessage) => {
            *phase = WsPhase::Draining;
            WsAction::TakeOutgoing
        },
        (WsPhase::Reading, WsEvent::Idle) => {
            if dialed {
                *phase = WsPhase::Pausing;
                WsAction::Pause
            } else {
                *phase = WsPhase::Draining;
                WsAction::TakeOutgoing
            }
        },
        (WsPhase::Delivering, WsEvent::Sent(ok)) => {
            if ok {
                *phase = WsPhase::Draining;
                WsAction::TakeOutgoing
            } else if dialed {
                *phase = WsPhase::Over;
                WsAction::Stop
            } else {
                *phase = WsPhase::Closing;
                WsAction::ReportDown
            }
        },
        (WsPhase::Pausing, _) => {
            *phase = WsPhase::Draining;
            WsAction::TakeOutgoing
        },
        (WsPhase::Closing, _) => {
            *phase = WsPhase::Over;
            WsAction::Stop
        },
        _ => {
            *phase = WsPhase::Closing;
            WsAction::ReportDown
        },
    }
}

/// One turn of a link that a peer opened by a WebSocket upgrade. It starts in
/// [`WsPhase::Opening`], with the driver being told that the link is up.
pub fn serve_ws(phase: &mut WsPhase, ev: WsEvent) -> (action: WsAction)
    requires
        ws_answers(*old(phase), ev),
    ensures
        (*final(phase), action) == ws_next(WsSide::Accepted, *old(phase), ev),
{
    turn(WsSide::Accepted, phase, ev)
}

/// What a turn of a dialed link comes to.
#[derive(Debug)]
pub struct DialTurn {
    /// What the link's thread does next.
    pub action: WsAction,
    /// A line for everybody.
    pub line: Option<PublicLine>,
}

/// The public line on a link to `url` that we dialed: there is one once the driver has taken it,
/// and one once the driver has been told that it is down.
pub open spec fn dial_line(url: Seq<char>, link: u64, phase: WsPhase, ev: WsEvent) -> Option<
    (LineKind, Seq<char>),
> {
    match (phase, ev) {
        (WsPhase::Opening, WsEvent::Sent(true)) => Some(
            (LineKind::Event, peer_dialed_text(url, link)),
        ),
        (WsPhase::Closing, _) => Some((LineKind::Event, peer_closed_text(url, link))),
        _ => None,
    }
}

/// One turn of a link to `url` that we dialed. It starts in [`WsPhase::Opening`], with the driver
/// being told that the link is up.
pub fn dial_peer(url: &str, link: u64, phase: &mut WsPhase, ev: WsEvent) -> (res: DialTurn)
    requires
        ws_answers(*old(phase), ev),
    ensures
        (*final(phase), res.action) == ws_next(WsSide::Dialed, *old(phase), ev),
        opt_line(res.line) == dial_line(url@, link, *old(phase), ev),
{
    let line = match (*phase, &ev) {
        (WsPhase::Opening, WsEvent::Sent(true)) => Some(peer_dialed_line(url, link)),
        (WsPhase::Closing, _) => Some(peer_closed_line(url, link)),
        _ => None,
    };
    DialTurn { action: turn(WsSide::Dialed, phase, ev), line }
}

/// The `i`-th event answers what the link is doing, and the link takes its turn.
pub open spec fn ws_turn(
    side: WsSide,
    phases: Seq<WsPhase>,
    evs: Seq<WsEvent>,
    acts: Seq<WsAction>,
    i: int,
) -> bool {
    ws_answers(phases[i], evs[i]) && (phases[i + 1], acts[i]) == ws_next(side, phases[i], evs[i])
}

/// `phases` are where a link stands before, between and after the events `evs`, and `acts` what
/// it does about each.
pub open spec fn ws_run(
    side: WsSide,
    phases: Seq<WsPhase>,
    evs: Seq<WsEvent>,
    acts: Seq<WsAction>,
) -> bool {
    &&& phases.len() == evs.len() + 1
    &&& acts.len() == evs.len()
    &&& phases[0] == WsPhase::Opening
    &&& forall|i: int| 0 <= i < evs.len() ==> #[trigger] ws_turn(side, phases, evs, acts, i)
}

/// The binary messages that were read.
pub open spec fn binaries_read(evs: Seq<WsEvent>) -> Seq<Vec<u8>>
    decreases evs.len(),
{
    if evs.len() == 0 {
        Seq::empty()
    } else {
        let before = binaries_read(evs.drop_last());
        match evs.last() {
            WsEvent::Binary(bytes) => before.push(bytes),
            _ => before,
        }
    }
}

/// Those of `messages` that are small enough for a link frame.
pub open spec fn fitting(messages: Seq<Vec<u8>>) -> Seq<Vec<u8>>
    decreases messages.len(),
{
    if messages.len() == 0 {
        Seq::empty()
    } else if fits(messages.last()) {
        fitting(messages.drop_last()).push(messages.last())
    } else {
        fitting(messages.drop_last())
    }
}

/// The packets that the outgoing queue gave.
pub open spec fn packets_taken(evs: Seq<WsEvent>) -> Seq<Vec<u8>>
    decreases evs.len(),
{
    if evs.len() == 0 {
        Seq::empty()
    } else {
        let before = packets_taken(evs.drop_last());
        match evs.last() {
            WsEvent::Packet(bytes) => before.push(bytes),
            _ => before,
        }
    }
}

/// The frames that the driver was given.
pub open spec fn frames_delivered(acts: Seq<WsAction>) -> Seq<Vec<u8>>
    decreases acts.len(),
{
    if acts.len() == 0 {
        Seq::empty()
    } else {
        let before = frames_delivered(acts.drop_last());
        match acts.last() {
            WsAction::Deliver(bytes) => before.push(bytes),
            _ => before,
        }
    }
}

/// The packets that were written.
pub open spec fn packets_written(acts: Seq<WsAction>) -> Seq<Vec<u8>>
    decreases acts.len(),
{
    if acts.len() == 0 {
        Seq::empty()
    } else {
        let before = packets_written(acts.drop_last());
        match acts.last() {
            WsAction::Write(bytes) => before.push(bytes),
            _ => before,
        }
    }
}

/// How often the driver was told that the link is down.
pub open spec fn downs_reported(acts: Seq<WsAction>) -> nat
    decreases acts.len(),
{
    if acts.len() == 0 {
        0
    } else {
        downs_reported(acts.drop_last()) + if acts.last() is ReportDown {
            1nat
        } else {
            0nat
        }
    }
}

/// The link bridges both ways, verbatim and in order: the driver is given exactly the binary
/// messages that were read and are small enough, and exactly the packets that the outgoing queue
/// gave are written.
pub proof fn law_bridges_both_ways(
    side: WsSide,
    phases: Seq<WsPhase>,
    evs: Seq<WsEvent>,
    acts: Seq<WsAction>,
)
    requires
        ws_run(side, phases, evs, acts),
    ensures
        frames_delivered(acts) == fitting(binaries_read(evs)),
        packets_written(acts) == packets_taken(evs),
{
    lemma_bridges_so_far(side, phases, evs, acts, evs.len() as int);
    assert(evs.take(evs.len() as int) =~= evs);
    assert(acts.take(evs.len() as int) =~= acts);
}

proof fn lemma_bridges_so_far(
    side: WsSide,
    phases: Seq<WsPhase>,
    evs: Seq<WsEvent>,
    acts: Seq<WsAction>,
    n: int,
)
    requires
        ws_run(side, phases, evs, acts),
        0 <= n <= evs.len(),
    ensures
        frames_delivered(acts.take(n)) == fitting(binaries_read(evs.take(n))),
        packets_written(acts.take(n)) == packets_taken(evs.take(n)),
    decreases n,
{
    if n > 0 {
        let i = n - 1;
        lemma_bridges_so_far(side, phases, evs, acts, i);
        assert(ws_turn(side, phases, evs, acts, i));
        assert(evs.take(n).drop_last() =~= evs.take(i));
        assert(evs.take(n).last() == evs[i]);
        assert(acts.take(n).drop_last() =~= acts.take(i));
        assert(acts.take(n).last() == acts[i]);
        let (before, after) = (binaries_read(evs.take(i)), binaries_read(evs.take(n)));
        if evs[i] is Binary {
            assert(after.drop_last() =~= before);
        }
    } else {
        assert(frames_delivered(acts.take(n)) =~= Seq::<Vec<u8>>::empty());
        assert(fitting(binaries_read(evs.take(n))) =~= Seq::<Vec<u8>>::empty());
    }
}

/// No frame that the driver is given is larger than [`MAX_FRAME_BYTES`], whoever opened the link.
pub proof fn law_every_frame_fits(
    side: WsSide,
    phases: Seq<WsPhase>,
    evs: Seq<WsEvent>,
    acts: Seq<WsAction>,
)
    requires
        ws_run(side, phases, evs, acts),
    ensures
        forall|i: int|
            0 <= i < frames_delivered(acts).len() ==> (#[trigger] frames_delivered(acts)[i])@.len()
                <= MAX_FRAME_BYTES,
{
    law_bridges_both_ways(side, phases, evs, acts);
    lemma_fitting_fit(binaries_read(evs));
}

proof fn lemma_fitting_fit(messages: Seq<Vec<u8>>)
    ensures
        forall|i: int| 0 <= i < fitting(messages).len() ==> fits(#[trigger] fitting(messages)[i]),
    decreases messages.len(),
{
    if messages.len() > 0 {
        let rest = fitting(messages.drop_last());
        lemma_fitting_fit(messages.drop_last());
        assert forall|i: int| 0 <= i < fitting(messages).len() implies fits(
            #[trigger] fitting(messages)[i],
        ) by {
            if i < rest.len() {
                assert(fitting(messages)[i] == rest[i]);
            }
        }
    }
}

/// A message that is larger than [`MAX_FRAME_BYTES`] ends the link: nothing that comes behind it
/// is delivered either, for it is the last that is read.
pub proof fn law_an_oversized_message_ends_the_link(
    side: WsSide,
    phases: Seq<WsPhase>,
    evs: Seq<WsEvent>,
    acts: Seq<WsAction>,
    i: int,
)
    requires
        ws_run(side, phases, evs, acts),
        0 <= i < evs.len(),
        evs[i] matches WsEvent::Binary(bytes) && bytes@.len() > MAX_FRAME_BYTES,
    ensures
        acts[i] is ReportDown,
        i + 1 < evs.len() ==> i + 2 == evs.len() && acts[i + 1] is Stop,
{
    assert(ws_turn(side, phases, evs, acts, i));
    if i + 1 < evs.len() {
        assert(ws_turn(side, phases, evs, acts, i + 1));
        if i + 2 < evs.len() {
            assert(ws_turn(side, phases, evs, acts, i + 2));
        }
    }
}

/// Once a link is over, the driver has been told exactly once that it is down, if it was told
/// that it is up; else never. The one exception is a dialed link that found the driver gone when
/// it had a frame for it.
pub proof fn law_down_exactly_once(
    side: WsSide,
    phases: Seq<WsPhase>,
    evs: Seq<WsEvent>,
    acts: Seq<WsAction>,
)
    requires
        ws_run(side, phases, evs, acts),
        phases.last() is Over,
    ensures
        downs_reported(acts) == if evs[0] == WsEvent::Sent(true) && !(side is Dialed
            && phases[evs.len() - 1] is Delivering) {
            1nat
        } else {
            0nat
        },
{
    let n = evs.len() as int;
    assert(ws_turn(side, phases, evs, acts, 0));
    assert(ws_turn(side, phases, evs, acts, n - 1));
    lemma_downs_so_far(side, phases, evs, acts, n - 1);
    assert(acts.drop_last() =~= acts.take(n - 1));
}

proof fn lemma_downs_so_far(
    side: WsSide,
    phases: Seq<WsPhase>,
    evs: Seq<WsEvent>,
    acts: Seq<WsAction>,
    n: int,
)
    requires
        ws_run(side, phases, evs, acts),
        0 <= n < evs.len(),
    ensures
        n == 0 <==> phases[n] is Opening,
        phases[n] !is Over,
        n > 0 ==> evs[0] == WsEvent::Sent(true),
        downs_reported(acts.take(n)) == if phases[n] is Closing {
            1nat
        } else {
            0nat
        },
    decreases n,
{
    assert(downs_reported(acts.take(0)) == 0);
    assert(ws_turn(side, phases, evs, acts, n));
    if n > 0 {
        let i = n - 1;
        lemma_downs_so_far(side, phases, evs, acts, i);
        assert(ws_turn(side, phases, evs, acts, i));
        assert(acts.take(n).drop_last() =~= acts.take(i));
        assert(acts.take(n).last() == acts[i]);
    }
}

/// A read that found nothing in time, and a message that is not binary, leave the link up.
pub proof fn law_idle_and_control_keep_the_link(side: WsSide, ev: WsEvent)
    requires
        ev is Idle || ev is OtherMessage,
    ensures
        ws_next(side, WsPhase::Reading, ev).0 is Draining || ws_next(
            side,
            WsPhase::Reading,
            ev,
        ).0 is Pausing,
        ws_next(side, WsPhase::Pausing, WsEvent::Awake) == (
            WsPhase::Draining,
            WsAction::TakeOutgoing,
        ),
{
}

/// A link whose outgoing queue the driver has dropped is closed and reported down.
pub proof fn law_a_dropped_queue_ends_the_link(side: WsSide)
    ensures
        ws_next(side, WsPhase::Draining, WsEvent::QueueGone) == (
            WsPhase::Closing,
            WsAction::ReportDown,
        ),
{
}

/// Nothing is left waiting while the link reads: before each read the outgoing queue was empty,
/// and what had been written was flushed.
pub proof fn law_drained_and_flushed_before_reading(
    side: WsSide,
    phases: Seq<WsPhase>,
    evs: Seq<WsEvent>,
    acts: Seq<WsAction>,
    i: int,
)
    requires
        ws_run(side, phases, evs, acts),
        0 <= i < acts.len(),
        acts[i] is Read,
    ensures
        i >= 2,
        acts[i - 1] is Flush,
        evs[i - 1] is NoPacket,
{
    assert(ws_turn(side, phases, evs, acts, i));
    assert(i >= 1);
    assert(ws_turn(side, phases, evs, acts, i - 1));
}

/// What a link does about each thing, whoever opened it: a packet from the queue is written as it
/// is, and the queue asked again; only an empty queue leads to a flush, and that to a read; a
/// binary message of at most a mebibyte is given to the driver as it is; and what is wrong ends the
/// link, of which the driver is told.
pub proof fn law_what_a_link_does_next(side: WsSide, bytes: Vec<u8>)
    ensures
        ws_next(side, WsPhase::Opening, WsEvent::Sent(true)) == (
            WsPhase::Draining,
            WsAction::TakeOutgoing,
        ),
        ws_next(side, WsPhase::Opening, WsEvent::Sent(false)) == (WsPhase::Over, WsAction::Stop),
        ws_next(side, WsPhase::Draining, WsEvent::Packet(bytes)) == (
            WsPhase::Writing,
            WsAction::Write(bytes),
        ),
        ws_next(side, WsPhase::Draining, WsEvent::NoPacket) == (WsPhase::Flushing, WsAction::Flush),
        ws_next(side, WsPhase::Draining, WsEvent::QueueGone) == (
            WsPhase::Closing,
            WsAction::ReportDown,
        ),
        ws_next(side, WsPhase::Writing, WsEvent::Done) == (
            WsPhase::Draining,
            WsAction::TakeOutgoing,
        ),
        ws_next(side, WsPhase::Writing, WsEvent::Failed) == (
            WsPhase::Closing,
            WsAction::ReportDown,
        ),
        ws_next(side, WsPhase::Flushing, WsEvent::Done) == (WsPhase::Reading, WsAction::Read),
        ws_next(side, WsPhase::Flushing, WsEvent::Failed) == (
            WsPhase::Closing,
            WsAction::ReportDown,
        ),
        bytes@.len() <= 1_048_576 ==> ws_next(side, WsPhase::Reading, WsEvent::Binary(bytes)) == (
            WsPhase::Delivering,
            WsAction::Deliver(bytes),
        ),
        bytes@.len() > 1_048_576 ==> ws_next(side, WsPhase::Reading, WsEvent::Binary(bytes)) == (
            WsPhase::Closing,
            WsAction::ReportDown,
        ),
        ws_next(side, WsPhase::Reading, WsEvent::OtherMessage) == (
            WsPhase::Draining,
            WsAction::TakeOutgoing,
        ),
        ws_next(side, WsPhase::Reading, WsEvent::Close) == (WsPhase::Closing, WsAction::ReportDown),
        ws_next(side, WsPhase::Reading, WsEvent::Failed) == (WsPhase::Closing, WsAction::ReportDown),
        ws_next(side, WsPhase::Delivering, WsEvent::Sent(true)) == (
            WsPhase::Draining,
            WsAction::TakeOutgoing,
        ),
        ws_next(side, WsPhase::Pausing, WsEvent::Awake) == (
            WsPhase::Draining,
            WsAction::TakeOutgoing,
        ),
        forall|ok: bool| #[trigger]
            ws_next(side, WsPhase::Closing, WsEvent::Sent(ok)) == (WsPhase::Over, WsAction::Stop),
{
}

/// What sets a dialed link apart from an accepted one: a write or a flush that would block is no
/// failure, an idle read pauses, and a driver that is gone is not told of the end. An accepted link
/// ends on such a write or flush, reads on at once, and still reports its end.
pub proof fn law_what_sets_a_dialed_link_apart(side: WsSide)
    ensures
        ws_next(side, WsPhase::Writing, WsEvent::WouldBlock) == if side is Dialed {
            (WsPhase::Draining, WsAction::TakeOutgoing)
        } else {
            (WsPhase::Closing, WsAction::ReportDown)
        },
        ws_next(side, WsPhase::Flushing, WsEvent::WouldBlock) == if side is Dialed {
            (WsPhase::Reading, WsAction::Read)
        } else {
            (WsPhase::Closing, WsAction::ReportDown)
        },
        ws_next(side, WsPhase::Reading, WsEvent::Idle) == if side is Dialed {
            (WsPhase::Pausing, WsAction::Pause)
        } else {
            (WsPhase::Draining, WsAction::TakeOutgoing)
        },
        ws_next(side, WsPhase::Delivering, WsEvent::Sent(false)) == if side is Dialed {
            (WsPhase::Over, WsAction::Stop)
        } else {
            (WsPhase::Closing, WsAction::ReportDown)
        },
{
}

/// A link takes every answer that can come to what it does.
pub proof fn law_a_link_takes_its_answers(ev: WsEvent)
    ensures
        ws_answers(WsPhase::Opening, ev) <==> ev is Sent,
        ws_answers(WsPhase::Draining, ev) <==> ev is Packet || ev is NoPacket || ev is QueueGone,
        ws_answers(WsPhase::Writing, ev) <==> ev is Done || ev is WouldBlock || ev is Failed,
        ws_answers(WsPhase::Flushing, ev) <==> ev is Done || ev is WouldBlock || ev is Failed,
        ws_answers(WsPhase::Reading, ev) <==> ev is Binary || ev is Close || ev is OtherMessage || ev
            is Idle || ev is Failed,
        ws_answers(WsPhase::Delivering, ev) <==> ev is Sent,
        ws_answers(WsPhase::Pausing, ev) <==> ev is Awake,
        ws_answers(WsPhase::Closing, ev) <==> ev is Sent,
{
}

/// Everybody is told of a dialed link once the driver has taken it, and once more when it is over:
/// its own address and number are named, and at no other time is anything said.
pub proof fn law_a_dialed_link_is_told_of(url: Seq<char>, link: u64, phase: WsPhase, ev: WsEvent)
    ensures
        dial_line(url, link, phase, ev) is Some <==> phase is Closing || (phase is Opening && ev
            == WsEvent::Sent(true)),
        phase is Opening && ev == WsEvent::Sent(true) ==> dial_line(url, link, phase, ev) == Some(
            (
                LineKind::Event,
                "peer: dialed "@ + url + " (link "@ + decimal(link as nat) + ")"@,
            ),
        ),
        phase is Closing ==> dial_line(url, link, phase, ev) == Some(
            (
                LineKind::Event,
                "peer: link "@ + decimal(link as nat) + " to "@ + url + " closed"@,
            ),
        ),
{
}

/// One turn of a link, of the calls themselves: an accepted and a dialed link do the same about a
/// packet, a message and the driver's answers, and differ where the socket would block, where
/// nothing comes, and where the driver is gone.
pub proof fn law_links_take_their_turns(
    accepted: &mut WsPhase,
    dialed: &mut WsPhase,
    url: &str,
    link: u64,
    ev: WsEvent,
    action: WsAction,
    turn: DialTurn,
)
    requires
        ws_answers(*old(accepted), ev),
        *old(dialed) == *old(accepted),
        call_ensures(serve_ws, (accepted, ev), action),
        call_ensures(dial_peer, (url, link, dialed, ev), turn),
    ensures
        ev matches WsEvent::Packet(bytes) ==> action == WsAction::Write(bytes) && turn.action
            == WsAction::Write(bytes) && *final(accepted) is Writing && *final(dialed) is Writing,
        ev matches WsEvent::Binary(bytes) ==> (if bytes@.len() <= 1_048_576 {
            action == WsAction::Deliver(bytes) && turn.action == WsAction::Deliver(bytes) && *final(accepted) is Delivering && *final(dialed) is Delivering
        } else {
            action is ReportDown && turn.action is ReportDown && *final(accepted) is Closing
                && *final(dialed) is Closing
        }),
        ev is WouldBlock ==> action is ReportDown && *final(accepted) is Closing && (*final(dialed)
            is Draining || *final(dialed) is Reading),
        ev is Idle ==> action is TakeOutgoing && *final(accepted) is Draining && turn.action is Pause
            && *final(dialed) is Pausing,
        ev == WsEvent::Sent(false) && *old(accepted) is Delivering ==> action is ReportDown
            && *final(accepted) is Closing && turn.action is Stop && *final(dialed) is Over,
        !(ev is WouldBlock || ev is Idle || ev == WsEvent::Sent(false)) ==> turn.action == action
            && *final(dialed) == *final(accepted),
        turn.line is Some <==> *old(dialed) is Closing || (*old(dialed) is Opening && ev
            == WsEvent::Sent(true)),
        *old(dialed) is Closing ==> turn.line->0.text@ == "peer: link "@ + decimal(link as nat)
            + " to "@ + url@ + " closed"@,
        *old(dialed) is Opening && ev == WsEvent::Sent(true) ==> turn.line->0.text@
            == "peer: dialed "@ + url@ + " (link "@ + decimal(link as nat) + ")"@,
{
}

} // verus!
