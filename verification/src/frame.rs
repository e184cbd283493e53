//! The raw-TCP bearer: link packets behind a 4-byte big-endian length, and the reading side of a
//! connection.
//!
//! Between two frames a peer may be silent for as long as it likes. But one that has not begun to
//! send a frame some time after connecting, or does not finish one in time, is let go: it would
//! else hold a connection for nothing.

use vstd::prelude::*;

verus! {

/// The largest frame that either bearer accepts.
pub const MAX_FRAME_BYTES: usize = 1_048_576;

/// How long a peer may take to begin its first frame, and again for each part of a frame that it
/// has begun.
pub const FRAME_TIMEOUT_MS: u64 = 30_000;

/// Is a frame of `n` bytes accepted?
pub fn frame_len_ok(n: usize) -> (ok: bool)
    ensures
        ok == (n <= MAX_FRAME_BYTES),
{
    n <= MAX_FRAME_BYTES
}

/// `n`, which is below 2^32, as four bytes with the highest first.
pub open spec fn be_bytes(n: nat) -> Seq<u8> {
    seq![
        (n / 16_777_216) as u8,
        (n / 65_536 % 256) as u8,
        (n / 256 % 256) as u8,
        (n % 256) as u8,
    ]
}

/// The number that four bytes stand for, the highest first.
pub open spec fn be_value(b: Seq<u8>) -> nat {
    (b[0] * 16_777_216 + b[1] * 65_536 + b[2] * 256 + b[3]) as nat
}

/// The wire form of one link packet: its length, modulo 2^32, and its bytes.
pub open spec fn framed(payload: Seq<u8>) -> Seq<u8> {
    be_bytes(payload.len() % 0x1_0000_0000) + payload
}

/// The wire form of packets that are sent one after another.
pub open spec fn framed_all(payloads: Seq<Seq<u8>>) -> Seq<u8>
    decreases payloads.len(),
{
    if payloads.len() == 0 {
        Seq::empty()
    } else {
        framed_all(payloads.drop_last()) + framed(payloads.last())
    }
}

/// The packets that a byte stream carries, up to where it ends or declares a frame that is too
/// large.
pub open spec fn frames_of(stream: Seq<u8>) -> Seq<Seq<u8>>
    decreases stream.len(),
{
    if stream.len() < 4 {
        Seq::empty()
    } else {
        let n: int = be_value(stream.take(4)) as int;
        if n > MAX_FRAME_BYTES || stream.len() < 4 + n {
            Seq::empty()
        } else {
            seq![stream.subrange(4, 4 + n)] + frames_of(stream.skip(4 + n))
        }
    }
}

/// The wire form of `payload`.
pub fn encode_frame(payload: &[u8]) -> (out: Vec<u8>)
    ensures
        out@ == framed(payload@),
{
    let n: u64 = (payload.len() as u64) % 0x1_0000_0000;
    let mut out: Vec<u8> = Vec::new();
    out.push((n / 16_777_216) as u8);
    out.push((n / 65_536 % 256) as u8);
    out.push((n / 256 % 256) as u8);
    out.push((n % 256) as u8);
    out.extend_from_slice(payload);
    assert(out@ =~= framed(payload@));
    out
}

/// The length that four bytes declare.
pub fn declared_len(prefix: &[u8]) -> (n: usize)
    requires
        prefix@.len() == 4,
    ensures
        n == be_value(prefix@),
{
    let n: u64 = (prefix[0] as u64) * 16_777_216 + (prefix[1] as u64) * 65_536 + (prefix[2] as u64)
        * 256 + (prefix[3] as u64);
    n as usize
}

/// Where a raw-TCP connection stands.
#[derive(Clone, Copy, PartialEq, Eq, Structural, Debug)]
pub enum TcpPhase {
    /// The driver is being told that the link is up.
    Opening,
    /// The first byte of the first frame's length is being read.
    First,
    /// The first byte of a later frame's length is being read.
    Between,
    /// The three bytes of a length that follow this one are being read.
    Prefix(u8),
    /// This many bytes of a frame are being read.
    Body(usize),
    /// The driver is being given a frame.
    Delivering,
    /// The driver is being told that the link is down.
    Closing,
    /// The connection is over.
    Over,
}

/// What the connection's thread does next.
#[derive(Debug)]
pub enum TcpAction {
    /// Read exactly this many bytes off the socket, in at most so many milliseconds in all, where
    /// there is a limit.
    Read(usize, Option<u64>),
    /// Give the driver this frame.
    Deliver(Vec<u8>),
    /// Tell the driver that the link is down.
    ReportDown,
    /// Leave.
    Stop,
}

/// What came of it.
#[derive(Debug)]
pub enum TcpEvent {
    /// The driver took what it was sent, or is gone.
    Sent(bool),
    /// The bytes that were read; `None` where the stream ended or failed first.
    Read(Option<Vec<u8>>),
    /// The bytes did not come in time.
    TimedOut,
}

/// How many bytes a connection in `phase` is reading.
pub open spec fn asked(phase: TcpPhase) -> nat {
    match phase {
        TcpPhase::First | TcpPhase::Between => 1,
        TcpPhase::Prefix(_) => 3,
        TcpPhase::Body(n) => n as nat,
        _ => 0,
    }
}

/// Does `ev` answer what a connection in `phase` is doing?
pub open spec fn tcp_answers(phase: TcpPhase, ev: TcpEvent) -> bool {
    match phase {
        TcpPhase::Opening | TcpPhase::Delivering | TcpPhase::Closing => ev is Sent,
        TcpPhase::First | TcpPhase::Between | TcpPhase::Prefix(_) | TcpPhase::Body(_) => match ev {
            TcpEvent::Read(Some(got)) => got@.len() == asked(phase),
            TcpEvent::Read(None) => true,
            TcpEvent::TimedOut => phase !is Between,
            TcpEvent::Sent(_) => false,
        },
        TcpPhase::Over => false,
    }
}

/// What a connection does that has read the length `prefix`.
pub open spec fn after_prefix(prefix: Seq<u8>) -> (TcpPhase, TcpAction) {
    let n = be_value(prefix);
    if n <= MAX_FRAME_BYTES {
        (TcpPhase::Body(n as usize), TcpAction::Read(n as usize, Some(FRAME_TIMEOUT_MS)))
    } else {
        (TcpPhase::Closing, TcpAction::ReportDown)
    }
}

/// What a connection in `phase` does when `ev` comes.
pub open spec fn tcp_next(phase: TcpPhase, ev: TcpEvent) -> (TcpPhase, TcpAction) {
    match (phase, ev) {
        // A link that the driver never heard of is not reported down either.
        (TcpPhase::Opening, TcpEvent::Sent(ok)) => if ok {
            (TcpPhase::First, TcpAction::Read(1, Some(FRAME_TIMEOUT_MS)))
        } else {
            (TcpPhase::Over, TcpAction::Stop)
        },
        (TcpPhase::First | TcpPhase::Between, TcpEvent::Read(Some(got))) => (
            TcpPhase::Prefix(got@[0]),
            TcpAction::Read(3, Some(FRAME_TIMEOUT_MS)),
        ),
        (TcpPhase::Prefix(first), TcpEvent::Read(Some(got))) => after_prefix(seq![first] + got@),
        (TcpPhase::Body(_), TcpEvent::Read(Some(frame))) => (
            TcpPhase::Delivering,
            TcpAction::Deliver(frame),
        ),
        (TcpPhase::Delivering, TcpEvent::Sent(true)) => (
            TcpPhase::Between,
            TcpAction::Read(1, None),
        ),
        (TcpPhase::Closing, _) => (TcpPhase::Over, TcpAction::Stop),
        _ => (TcpPhase::Closing, TcpAction::ReportDown),
    }
}

/// One turn of a raw-TCP connection: what comes after `ev`. It starts in
/// [`TcpPhase::Opening`], with the driver being told that the link is up.
pub fn serve_tcp(phase: &mut TcpPhase, ev: TcpEvent) -> (action: TcpAction)
    requires
        tcp_answers(*old(phase), ev),
    ensures
        (*final(phase), action) == tcp_next(*old(phase), ev),
{
    match (*phase, ev) {
        (TcpPhase::Opening, TcpEvent::Sent(ok)) => {
            if ok {
                *phase = TcpPhase::First;
                TcpAction::Read(1, Some(FRAME_TIMEOUT_MS))
            } else {
                *phase = TcpPhase::Over;
                TcpAction::Stop
            }
        },
        (TcpPhase::First | TcpPhase::Between, TcpEvent::Read(Some(got))) => {
            *phase = TcpPhase::Prefix(got[0]);
            TcpAction::Read(3, Some(FRAME_TIMEOUT_MS))
        },
        (TcpPhase::Prefix(first), TcpEvent::Read(Some(got))) => {
            let mut prefix: Vec<u8> = Vec::new();
            prefix.push(first);
            prefix.extend_from_slice(got.as_slice());
            assert(prefix@ =~= seq![first] + got@);
            let n: usize = declared_len(prefix.as_slice());
            if frame_len_ok(n) {
                *phase = TcpPhase::Body(n);
                TcpAction::Read(n, Some(FRAME_TIMEOUT_MS))
            } else {
                *phase = TcpPhase::Closing;
                TcpAction::ReportDown
            }
        },
        (TcpPhase::Body(_), TcpEvent::Read(Some(frame))) => {
            *phase = TcpPhase::Delivering;
            TcpAction::Deliver(frame)
        },
        (TcpPhase::Delivering, TcpEvent::Sent(true)) => {
            *phase = TcpPhase::Between;
            TcpAction::Read(1, None)
        },
        (TcpPhase::Closing, _) => {
            *phase = TcpPhase::Over;
            TcpAction::Stop
        },
        _ => {
            *phase = TcpPhase::Closing;
            TcpAction::ReportDown
        },
    }
}

/// `phases` are where a connection stands before, between and after the events `evs`, and `acts`
/// what it does about each.
pub open spec fn tcp_run(phases: Seq<TcpPhase>, evs: Seq<TcpEvent>, acts: Seq<TcpAction>) -> bool {
    &&& phases.len() == evs.len() + 1
    &&& acts.len() == evs.len()
    &&& phases[0] == TcpPhase::Opening
    &&& forall|i: int| 0 <= i < evs.len() ==> #[trigger] tcp_turn(phases, evs, acts, i)
}

/// The `i`-th event answers what the connection is doing, and the connection takes its turn.
pub open spec fn tcp_turn(
    phases: Seq<TcpPhase>,
    evs: Seq<TcpEvent>,
    acts: Seq<TcpAction>,
    i: int,
) -> bool {
    tcp_answers(phases[i], evs[i]) && (phases[i + 1], acts[i]) == tcp_next(phases[i], evs[i])
}

/// All bytes that came off the socket.
pub open spec fn bytes_read(evs: Seq<TcpEvent>) -> Seq<u8>
    decreases evs.len(),
{
    if evs.len() == 0 {
        Seq::empty()
    } else {
        bytes_read(evs.drop_last()) + match evs.last() {
            TcpEvent::Read(Some(got)) => got@,
            _ => Seq::empty(),
        }
    }
}

/// The frames that the driver was given.
pub open spec fn frames_delivered(acts: Seq<TcpAction>) -> Seq<Seq<u8>>
    decreases acts.len(),
{
    if acts.len() == 0 {
        Seq::empty()
    } else {
        let before = frames_delivered(acts.drop_last());
        match acts.last() {
            TcpAction::Deliver(frame) => before.push(frame@),
            _ => before,
        }
    }
}

/// How often the driver was told that the link is down.
pub open spec fn downs_reported(acts: Seq<TcpAction>) -> nat
    decreases acts.len(),
{
    if acts.len() == 0 {
        0
    } else {
        downs_reported(acts.drop_last()) + if acts.last() is ReportDown {
            1nat
        } else {
            0nat
        }
    }
}

/// Is every packet small enough to be accepted?
pub open spec fn all_fit(payloads: Seq<Seq<u8>>) -> bool {
    forall|i: int| 0 <= i < payloads.len() ==> (#[trigger] payloads[i]).len() <= MAX_FRAME_BYTES
}

proof fn lemma_be_round_trip(n: nat)
    requires
        n < 0x1_0000_0000,
    ensures
        be_value(be_bytes(n)) == n,
{
    assert(n / 65_536 == (n / 65_536) / 256 * 256 + n / 65_536 % 256);
    assert(n / 256 == (n / 256) / 256 * 256 + n / 256 % 256);
    assert(n / 65_536 / 256 == n / 16_777_216);
    assert(n / 256 / 256 == n / 65_536);
}

proof fn lemma_be_bytes_of_value(b: Seq<u8>)
    requires
        b.len() == 4,
    ensures
        be_bytes(be_value(b)) == b,
        be_value(b) < 0x1_0000_0000,
{
    let n = be_value(b);
    assert(n / 16_777_216 == b[0]);
    assert(n / 65_536 == b[0] * 256 + b[1]);
    assert(n / 256 == (b[0] * 256 + b[1]) * 256 + b[2]);
    assert(be_bytes(n) =~= b);
}

proof fn lemma_first_frame(payload: Seq<u8>, rest: Seq<u8>)
    requires
        payload.len() <= MAX_FRAME_BYTES,
    ensures
        frames_of(framed(payload) + rest) == seq![payload] + frames_of(rest),
{
    let s = framed(payload) + rest;
    let n: int = payload.len() as int;
    lemma_be_round_trip(payload.len());
    assert(s.take(4) =~= be_bytes(payload.len()));
    assert(s.subrange(4, 4 + n) =~= payload);
    assert(s.skip(4 + n) =~= rest);
}

/// What is framed is read back: a stream that begins with the wire form of packets carries those
/// packets, and then what the rest of it carries.
pub proof fn law_framing_round_trip(payloads: Seq<Seq<u8>>, rest: Seq<u8>)
    requires
        all_fit(payloads),
    ensures
        frames_of(framed_all(payloads) + rest) == payloads + frames_of(rest),
    decreases payloads.len(),
{
    if payloads.len() == 0 {
        assert(framed_all(payloads) + rest =~= rest);
        assert(payloads + frames_of(rest) =~= frames_of(rest));
    } else {
        let (init, last) = (payloads.drop_last(), payloads.last());
        law_framing_round_trip(init, framed(last) + rest);
        lemma_first_frame(last, rest);
        assert(framed_all(payloads) + rest =~= framed_all(init) + (framed(last) + rest));
        assert(payloads + frames_of(rest) =~= init + (seq![last] + frames_of(rest)));
    }
}

/// A length prefix above the cap ends the stream: neither the frame nor anything behind it is
/// delivered.
pub proof fn law_oversized_frame_ends_the_stream(prefix: Seq<u8>, rest: Seq<u8>)
    requires
        prefix.len() == 4,
        be_value(prefix) > MAX_FRAME_BYTES,
    ensures
        frames_of(prefix + rest) == Seq::<Seq<u8>>::empty(),
{
    assert((prefix + rest).take(4) =~= prefix);
}

/// No more than the cap is ever read, and so set aside for, at once: a frame that declares more is
/// refused before a byte of it is read.
pub proof fn law_nothing_above_the_cap_is_read(phase: TcpPhase, ev: TcpEvent, first: u8)
    requires
        tcp_answers(phase, ev),
    ensures
        tcp_next(phase, ev).1 matches TcpAction::Read(n, _) ==> n <= MAX_FRAME_BYTES,
        phase == TcpPhase::Prefix(first) ==> (ev matches TcpEvent::Read(Some(got)) ==> (be_value(
            seq![first] + got@,
        ) > MAX_FRAME_BYTES ==> tcp_next(phase, ev) == (
            TcpPhase::Closing,
            TcpAction::ReportDown,
        ))),
{
}

/// A peer that sends nothing, or stops within a frame, is let go in time: every read has a limit
/// but the one between two frames, before which a frame was delivered; and a read that takes
/// longer ends the connection.
pub proof fn law_a_silent_peer_is_let_go(phase: TcpPhase, ev: TcpEvent)
    requires
        tcp_answers(phase, ev),
    ensures
        tcp_next(phase, ev).1 matches TcpAction::Read(_, limit) ==> limit == Some(FRAME_TIMEOUT_MS)
            || (limit is None && phase is Delivering && tcp_next(phase, ev).0 is Between),
        ev is TimedOut ==> tcp_next(phase, ev) == (
            TcpPhase::Closing,
            TcpAction::ReportDown,
        ),
        tcp_next(phase, ev).0 !is Between ==> (tcp_next(phase, ev).1 is Read ==> tcp_answers(
            tcp_next(phase, ev).0,
            TcpEvent::TimedOut,
        )),
{
}

/// Has every read that failed found fewer than the bytes it asked for, `tail`, before the stream
/// ended or its time was over?
pub open spec fn reads_cut_short(
    phases: Seq<TcpPhase>,
    evs: Seq<TcpEvent>,
    tail: Seq<u8>,
) -> bool {
    forall|i: int|
        0 <= i < evs.len() && (evs[i] is TimedOut || evs[i] == TcpEvent::Read(None)) ==> tail.len()
            < asked(#[trigger] phases[i])
}

/// Did the driver take the link and every frame?
pub open spec fn driver_took_all(phases: Seq<TcpPhase>, evs: Seq<TcpEvent>) -> bool {
    forall|i: int|
        0 <= i < evs.len() && ((#[trigger] phases[i]) is Opening || phases[i] is Delivering)
            ==> evs[i] == TcpEvent::Sent(true)
}

/// What has been read is the delivered frames and a rest that depends on where the reading
/// stands. Once it is over, the rest and what was left unread carry no frame.
proof fn lemma_run_so_far(
    phases: Seq<TcpPhase>,
    evs: Seq<TcpEvent>,
    acts: Seq<TcpAction>,
    tail: Seq<u8>,
    n: int,
) -> (rest: Seq<u8>)
    requires
        tcp_run(phases, evs, acts),
        0 <= n <= evs.len(),
    ensures
        all_fit(frames_delivered(acts.take(n))),
        bytes_read(evs.take(n)) == framed_all(frames_delivered(acts.take(n))) + rest,
        phases[n] is Opening || phases[n] is First || phases[n] is Between || phases[n]
            is Delivering ==> rest.len() == 0,
        phases[n] matches TcpPhase::Prefix(first) ==> rest == seq![first],
        phases[n] matches TcpPhase::Body(m) ==> rest == be_bytes(m as nat) && m <= MAX_FRAME_BYTES,
        (phases[n] is Closing || phases[n] is Over) && reads_cut_short(phases, evs, tail)
            && driver_took_all(phases, evs) ==> frames_of(rest + tail) == Seq::<Seq<u8>>::empty(),
    decreases n,
{
    if n == 0 {
        assert(bytes_read(evs.take(0)) =~= framed_all(frames_delivered(acts.take(0)))
            + Seq::<u8>::empty());
        Seq::empty()
    } else {
        let i = n - 1;
        let rest = lemma_run_so_far(phases, evs, acts, tail, i);
        let (phase, ev, act) = (phases[i], evs[i], acts[i]);
        assert(tcp_turn(phases, evs, acts, i));
        assert(evs.take(n).drop_last() =~= evs.take(i));
        assert(evs.take(n).last() == ev);
        assert(acts.take(n).drop_last() =~= acts.take(i));
        assert(acts.take(n).last() == act);
        let got = match ev {
            TcpEvent::Read(Some(got)) => got@,
            _ => Seq::empty(),
        };
        let (done, now) = (frames_delivered(acts.take(i)), frames_delivered(acts.take(n)));
        if act is Deliver {
            assert(now.drop_last() =~= done);
            assert(framed(got) =~= rest + got);
            assert(bytes_read(evs.take(n)) =~= framed_all(now) + Seq::<u8>::empty());
            Seq::empty()
        } else {
            assert(bytes_read(evs.take(n)) =~= framed_all(now) + (rest + got));
            assert(rest.len() == 0 && got.len() == 1 ==> rest + got =~= seq![got[0]]);
            assert(got.len() == 0 ==> rest + got =~= rest);
            if phase is Prefix && got.len() == 3 {
                lemma_be_bytes_of_value(rest + got);
                if be_value(rest + got) > MAX_FRAME_BYTES {
                    law_oversized_frame_ends_the_stream(rest + got, tail);
                }
            }
            if let TcpPhase::Body(m) = phase {
                lemma_be_round_trip(m as nat);
                assert((rest + tail).take(4) =~= rest);
            }
            rest + got
        }
    }
}

/// However the reads fall, the driver is given the frames that the bytes off the socket carry, in
/// order and verbatim: between two frames exactly those, and at no time any other. None is above
/// the cap.
pub proof fn law_frames_are_delivered_in_order(
    phases: Seq<TcpPhase>,
    evs: Seq<TcpEvent>,
    acts: Seq<TcpAction>,
)
    requires
        tcp_run(phases, evs, acts),
    ensures
        all_fit(frames_delivered(acts)),
        frames_delivered(acts).is_prefix_of(frames_of(bytes_read(evs))),
        phases.last() is First || phases.last() is Between || phases.last() is Delivering
            ==> frames_delivered(acts) == frames_of(bytes_read(evs)),
{
    let n = evs.len() as int;
    let rest = lemma_run_so_far(phases, evs, acts, Seq::empty(), n);
    assert(evs.take(n) =~= evs);
    assert(acts.take(n) =~= acts);
    law_framing_round_trip(frames_delivered(acts), rest);
    assert(frames_delivered(acts) =~= frames_of(bytes_read(evs)).take(
        frames_delivered(acts).len() as int,
    ));
    if rest.len() == 0 {
        assert(frames_delivered(acts) + frames_of(rest) =~= frames_delivered(acts));
    }
}

/// Once a connection is over, and the driver took the link and every frame, it has been given all
/// frames that the whole stream carries: what was read, and the `tail` that a read which failed
/// found and that was too short for it.
pub proof fn law_the_whole_stream_is_delivered(
    phases: Seq<TcpPhase>,
    evs: Seq<TcpEvent>,
    acts: Seq<TcpAction>,
    tail: Seq<u8>,
)
    requires
        tcp_run(phases, evs, acts),
        phases.last() is Closing || phases.last() is Over,
        driver_took_all(phases, evs),
        reads_cut_short(phases, evs, tail),
    ensures
        frames_delivered(acts) == frames_of(bytes_read(evs) + tail),
{
    let n = evs.len() as int;
    let rest = lemma_run_so_far(phases, evs, acts, tail, n);
    assert(evs.take(n) =~= evs);
    assert(acts.take(n) =~= acts);
    let done = frames_delivered(acts);
    law_framing_round_trip(done, rest + tail);
    assert(bytes_read(evs) + tail =~= framed_all(done) + (rest + tail));
    assert(done + frames_of(rest + tail) =~= done);
}

/// Once a connection is over, the driver has been told exactly once that the link is down, if it
/// was told that it is up; else never.
pub proof fn law_down_exactly_once(
    phases: Seq<TcpPhase>,
    evs: Seq<TcpEvent>,
    acts: Seq<TcpAction>,
)
    requires
        tcp_run(phases, evs, acts),
        phases.last() is Over,
    ensures
        downs_reported(acts) == if evs[0] == TcpEvent::Sent(true) {
            1nat
        } else {
            0nat
        },
{
    lemma_downs_so_far(phases, evs, acts, evs.len() as int);
    assert(acts.take(evs.len() as int) =~= acts);
    assert(tcp_turn(phases, evs, acts, 0));
}

proof fn lemma_downs_so_far(
    phases: Seq<TcpPhase>,
    evs: Seq<TcpEvent>,
    acts: Seq<TcpAction>,
    n: int,
)
    requires
        tcp_run(phases, evs, acts),
        0 <= n <= evs.len(),
    ensures
        n == 0 <==> phases[n] is Opening,
        n > 0 && evs[0] == TcpEvent::Sent(false) ==> n == 1 && phases[1] is Over && downs_reported(
            acts.take(n),
        ) == 0,
        n > 0 && evs[0] == TcpEvent::Sent(true) ==> downs_reported(acts.take(n)) == if phases[n]
            is Closing || phases[n] is Over {
            1nat
        } else {
            0nat
        },
    decreases n,
{
    if n > 0 {
        let i = n - 1;
        lemma_downs_so_far(phases, evs, acts, i);
        assert(tcp_turn(phases, evs, acts, i));
        assert(tcp_turn(phases, evs, acts, 0));
        assert(downs_reported(acts.take(0)) == 0);
        assert(acts.take(n).drop_last() =~= acts.take(i));
        assert(acts.take(n).last() == acts[i]);
    }
}

/// The wire form of a packet, in numbers: the packet verbatim behind four bytes that spell its
/// length, the highest first; the length of any packet below 2^32 bytes is read back off them.
pub proof fn law_a_packet_is_sent_behind_its_length(
    payload: &[u8],
    out: Vec<u8>,
    prefix: &[u8],
    n: usize,
)
    requires
        call_ensures(encode_frame, (payload,), out),
        prefix@ == out@.take(4),
        call_ensures(declared_len, (prefix,), n),
    ensures
        out@.len() == payload@.len() + 4,
        out@.skip(4) == payload@,
        payload@.len() < 0x1_0000_0000 ==> out@[0] * 16_777_216 + out@[1] * 65_536 + out@[2] * 256
            + out@[3] == payload@.len(),
        payload@.len() < 0x1_0000_0000 ==> n == payload@.len(),
{
    let len = payload@.len();
    lemma_be_round_trip(len % 0x1_0000_0000);
    assert(out@.take(4) =~= be_bytes(len % 0x1_0000_0000));
    assert(out@.skip(4) =~= payload@);
    assert(prefix@[0] == out@[0] && prefix@[1] == out@[1] && prefix@[2] == out@[2] && prefix@[3]
        == out@[3]);
}

/// A length is read off its four bytes, the highest first, and a mebibyte is the largest frame that
/// is accepted.
pub proof fn law_lengths_in_numbers(prefix: &[u8], n: usize, m: usize, ok: bool)
    requires
        prefix@.len() == 4,
        call_ensures(declared_len, (prefix,), n),
        call_ensures(frame_len_ok, (m,), ok),
    ensures
        n == prefix@[0] * 16_777_216 + prefix@[1] * 65_536 + prefix@[2] * 256 + prefix@[3],
        ok <==> m <= 1_048_576,
{
}

/// What a connection waits for, part by part: the first byte of a frame's length, its three others,
/// then as many bytes as they declare together, which are given to the driver as they came; and
/// then the next frame. Each but the wait between two frames lasts thirty seconds at most.
pub proof fn law_how_a_frame_is_read(phase: TcpPhase, got: Vec<u8>)
    requires
        tcp_answers(phase, TcpEvent::Read(Some(got))),
    ensures
        ({
            let next = tcp_next(phase, TcpEvent::Read(Some(got)));
            &&& phase is First || phase is Between ==> got@.len() == 1 && next == (
                TcpPhase::Prefix(got@[0]),
                TcpAction::Read(3, Some(30_000)),
            )
            &&& phase matches TcpPhase::Prefix(first) ==> {
                let n = first * 16_777_216 + got@[0] * 65_536 + got@[1] * 256 + got@[2];
                &&& got@.len() == 3
                &&& n <= 1_048_576 ==> next == (
                    TcpPhase::Body(n as usize),
                    TcpAction::Read(n as usize, Some(30_000)),
                )
                &&& n > 1_048_576 ==> next == (TcpPhase::Closing, TcpAction::ReportDown)
            }
            &&& phase matches TcpPhase::Body(n) ==> got@.len() == n && next == (
                TcpPhase::Delivering,
                TcpAction::Deliver(got),
            )
        }),
{
}

/// When a connection begins, goes on and ends: it reads its first frame once the driver took the
/// link, the next once the driver took a frame, and ends where the driver is gone, a read failed or
/// took too long. The driver hears of the end unless it never took the link.
pub proof fn law_when_a_connection_goes_on(phase: TcpPhase)
    ensures
        tcp_next(TcpPhase::Opening, TcpEvent::Sent(true)) == (
            TcpPhase::First,
            TcpAction::Read(1, Some(30_000)),
        ),
        tcp_next(TcpPhase::Opening, TcpEvent::Sent(false)) == (TcpPhase::Over, TcpAction::Stop),
        tcp_next(TcpPhase::Delivering, TcpEvent::Sent(true)) == (
            TcpPhase::Between,
            TcpAction::Read(1, None),
        ),
        tcp_next(TcpPhase::Delivering, TcpEvent::Sent(false)) == (
            TcpPhase::Closing,
            TcpAction::ReportDown,
        ),
        phase is First || phase is Between || phase is Prefix || phase is Body ==> tcp_next(
            phase,
            TcpEvent::Read(None),
        ) == (TcpPhase::Closing, TcpAction::ReportDown) && tcp_next(phase, TcpEvent::TimedOut) == (
            TcpPhase::Closing,
            TcpAction::ReportDown,
        ),
        forall|ok: bool| #[trigger]
            tcp_next(TcpPhase::Closing, TcpEvent::Sent(ok)) == (TcpPhase::Over, TcpAction::Stop),
{
}

/// A connection takes every answer that can come: whether the driver took what it was sent, and of
/// a read the bytes, that there are none, or, where it has a limit, that they did not come in time.
pub proof fn law_a_connection_takes_its_answers(n: usize, first: u8, got: Vec<u8>, ok: bool)
    ensures
        tcp_answers(TcpPhase::Opening, TcpEvent::Sent(ok)),
        tcp_answers(TcpPhase::Delivering, TcpEvent::Sent(ok)),
        tcp_answers(TcpPhase::Closing, TcpEvent::Sent(ok)),
        tcp_answers(TcpPhase::First, TcpEvent::Read(Some(got))) <==> got@.len() == 1,
        tcp_answers(TcpPhase::Between, TcpEvent::Read(Some(got))) <==> got@.len() == 1,
        tcp_answers(TcpPhase::Prefix(first), TcpEvent::Read(Some(got))) <==> got@.len() == 3,
        tcp_answers(TcpPhase::Body(n), TcpEvent::Read(Some(got))) <==> got@.len() == n,
        forall|phase: TcpPhase|
            phase is First || phase is Between || phase is Prefix || phase is Body ==> #[trigger]
            tcp_answers(phase, TcpEvent::Read(None)),
        forall|phase: TcpPhase| #[trigger]
            tcp_answers(phase, TcpEvent::TimedOut) <==> phase is First || phase is Prefix || phase
                is Body,
{
}

/// One turn of a connection, of the call itself: four bytes of length in two reads, then as many
/// bytes as they declare, given to the driver as they came; and the end, where there are none.
pub proof fn law_a_connection_takes_its_turn(phase: &mut TcpPhase, ev: TcpEvent, action: TcpAction)
    requires
        tcp_answers(*old(phase), ev),
        call_ensures(serve_tcp, (phase, ev), action),
    ensures
        *old(phase) is Opening && ev == TcpEvent::Sent(true) ==> *final(phase) is First && action
            == TcpAction::Read(1, Some(30_000)),
        *old(phase) is Opening && ev == TcpEvent::Sent(false) ==> *final(phase) is Over && action
            is Stop,
        ev matches TcpEvent::Read(Some(got)) ==> {
            &&& *old(phase) is First || *old(phase) is Between ==> *final(phase)
                == TcpPhase::Prefix(got@[0]) && action == TcpAction::Read(3, Some(30_000))
            &&& *old(phase) matches TcpPhase::Prefix(first) ==> {
                let n = first * 16_777_216 + got@[0] * 65_536 + got@[1] * 256 + got@[2];
                &&& n <= 1_048_576 ==> *final(phase) == TcpPhase::Body(n as usize) && action
                    == TcpAction::Read(n as usize, Some(30_000))
                &&& n > 1_048_576 ==> *final(phase) is Closing && action is ReportDown
            }
            &&& *old(phase) is Body ==> *final(phase) is Delivering && action
                == TcpAction::Deliver(got)
        },
        *old(phase) is Delivering && ev == TcpEvent::Sent(true) ==> *final(phase) is Between
            && action == TcpAction::Read(1, None),
        *old(phase) is Delivering && ev == TcpEvent::Sent(false) ==> *final(phase) is Closing
            && action is ReportDown,
        ev is TimedOut || ev == TcpEvent::Read(None) ==> *final(phase) is Closing && action
            is ReportDown,
        *old(phase) is Closing ==> *final(phase) is Over && action is Stop,
{
    if let TcpEvent::Read(Some(got)) = ev {
        law_how_a_frame_is_read(*old(phase), got);
    }
    law_when_a_connection_goes_on(*old(phase));
}

} // verus!
