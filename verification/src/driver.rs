//! The driver: the one thread that owns the node, and what it does about each event.
//!
//! The node itself is called outside; here is decided which call each event leads to, which
//! links have a writer, whose budget a frame is charged to, and what is said in the log.

use std::collections::HashMap;

use vstd::prelude::*;
use vstd::string::*;

use crate::identity::short_text;
use crate::keys::{BundleId, PubKeyBytes};
use crate::lines::{
    conn_down_line, conn_down_text, conn_up_line, conn_up_text, dst_text, ingest_line, opt_line,
    peer_connected_line, peer_connected_text, peer_left_line, peer_left_text, role_text, sigterm_line,
    sigterm_text, stats_line, stats_text, IngestDst, LineKind, PublicLine, Role,
};
use crate::rate::{
    address_of_link, budget_of, charged, charged_keeping, law_what_a_frame_is_charged,
    peer_data_allowed, peer_rate_key, swept,
    window_over, PeerRates, RateMap, MAX_PEER_RATE_KEYS,
};
use crate::table::Table;
use crate::text::{decimal, opt_string, texts};

verus! {

/// How long the driver waits for an event before it lets the node's clock tick.
pub const RECV_TIMEOUT_MS: u64 = 1_000;

/// How long the durable store may take to drain on leaving.
pub const FLUSH_TIMEOUT_SECS: u64 = 8;

/// How often the totals are put out.
pub const STATS_INTERVAL_MS: u64 = 10_000;

/// Something for the driver to deal with. `W` is how a link's writer is reached.
#[derive(Debug)]
pub enum Ev<W> {
    /// A link came up, with its writer.
    Up(u64, Role, W),
    /// A frame arrived on a link.
    Data(u64, Vec<u8>),
    /// A link went down.
    Down(u64),
    /// A bundle came out of the durable store.
    Ingest(Vec<u8>),
}

/// A call on the node.
#[derive(Debug)]
pub enum NodeCall {
    /// A link is there.
    Connected(u64, Role),
    /// A frame on a link.
    Data(u64, Vec<u8>),
    /// A link is gone.
    Disconnected(u64),
    /// A bundle to store and forward.
    Ingest(Vec<u8>),
}

/// What an event leads to.
#[derive(Debug)]
pub struct Applied {
    /// The call on the node, if there is one.
    pub call: Option<NodeCall>,
    /// A line for everybody.
    pub public_line: Option<PublicLine>,
    /// A line for the operator alone.
    pub private_line: Option<String>,
}

/// `res` is what a bundle from the durable store leads to: `decode` tells what the bytes are, and
/// where they are no bundle nothing happens.
pub open spec fn ingested<D: Fn(&Vec<u8>) -> Option<(BundleId, IngestDst)>>(
    decode: D,
    bytes: Vec<u8>,
    res: Applied,
) -> bool {
    exists|r: Option<(BundleId, IngestDst)>| #[trigger]
        call_ensures(decode, (&bytes,), r) && res.public_line is None && match r {
            Some((id, dst)) => res.call == Some(NodeCall::Ingest(bytes)) && opt_string(
                res.private_line,
            ) == Some("ingest: msg "@ + short_text(id@) + " → dst "@ + dst_text(dst)),
            None => res.call is None && res.private_line is None,
        }
}

/// `w1` and `r1` are what becomes of the writers `w0` and the rate windows `r0` by `ev`, and
/// `res` is what it leads to.
pub open spec fn applied<W, D: Fn(&Vec<u8>) -> Option<(BundleId, IngestDst)>>(
    decode: D,
    links: Seq<(PubKeyBytes, u64)>,
    now: u64,
    w0: Map<u64, W>,
    r0: RateMap,
    ev: Ev<W>,
    w1: Map<u64, W>,
    r1: RateMap,
    res: Applied,
) -> bool {
    match ev {
        Ev::Up(link, role, out) => {
            &&& w1 == w0.insert(link, out)
            &&& r1 == r0
            &&& res.call == Some(NodeCall::Connected(link, role))
            &&& opt_line(res.public_line) == Some((LineKind::Event, conn_up_text(link, role)))
            &&& res.private_line is None
        },
        Ev::Data(link, bytes) => {
            &&& w1 == w0
            &&& charged(r0, address_of_link(links, link), now, r1, res.call is Some)
            &&& res.call is Some ==> res.call == Some(NodeCall::Data(link, bytes))
            &&& res.public_line is None
            &&& res.private_line is None
        },
        Ev::Down(link) => {
            &&& w1 == w0.remove(link)
            &&& r1 == r0
            &&& res.call == Some(NodeCall::Disconnected(link))
            &&& opt_line(res.public_line) == Some((LineKind::Event, conn_down_text(link)))
            &&& res.private_line is None
        },
        Ev::Ingest(bytes) => {
            &&& w1 == w0
            &&& r1 == r0
            &&& ingested(decode, bytes, res)
        },
    }
}

/// Deals with one event: keeps the table of writers, charges a frame to whoever sent it, and says
/// which call on the node follows. A frame over its sender's budget is dropped without a word.
///
/// `links` holds each authenticated address with its link; `decode` gives the id and destination
/// of a bundle from its bytes.
pub fn apply_event<W, D: Fn(&Vec<u8>) -> Option<(BundleId, IngestDst)>>(
    writers: &mut HashMap<u64, W>,
    rates: &mut PeerRates,
    links: &[(PubKeyBytes, u64)],
    ev: Ev<W>,
    now: u64,
    decode: D,
) -> (res: Applied)
    requires
        old(rates).wf(),
        forall|b: &Vec<u8>| call_requires(decode, (b,)),
    ensures
        final(rates).wf(),
        applied(
            decode,
            links@,
            now,
            old(writers)@,
            old(rates)@,
            ev,
            final(writers)@,
            final(rates)@,
            res,
        ),
{
    match ev {
        Ev::Up(link, role, out) => {
            writers.insert(link, out);
            Applied {
                call: Some(NodeCall::Connected(link, role)),
                public_line: Some(conn_up_line(link, role)),
                private_line: None,
            }
        },
        Ev::Data(link, bytes) => {
            let key = peer_rate_key(links, link);
            let call = if peer_data_allowed(rates, key, now) {
                Some(NodeCall::Data(link, bytes))
            } else {
                None
            };
            Applied { call, public_line: None, private_line: None }
        },
        Ev::Down(link) => {
            writers.remove(&link);
            Applied {
                call: Some(NodeCall::Disconnected(link)),
                public_line: Some(conn_down_line(link)),
                private_line: None,
            }
        },
        Ev::Ingest(bytes) => {
            let decoded = decode(&bytes);
            let ghost what = bytes;
            match decoded {
                Some((id, dst)) => {
                    let line = ingest_line(&id, &dst);
                    let res = Applied {
                        call: Some(NodeCall::Ingest(bytes)),
                        public_line: None,
                        private_line: Some(line),
                    };
                    assert(ingested(decode, what, res));
                    res
                },
                None => {
                    let res = Applied { call: None, public_line: None, private_line: None };
                    assert(ingested(decode, what, res));
                    res
                },
            }
        },
    }
}

/// Those of the packets whose link has a writer, in order.
pub open spec fn routed(links: Set<u64>, outgoing: Seq<(u64, Vec<u8>)>) -> Seq<(u64, Vec<u8>)>
    decreases outgoing.len(),
{
    if outgoing.len() == 0 {
        Seq::empty()
    } else {
        let before = routed(links, outgoing.drop_last());
        if links.contains(outgoing.last().0) {
            before.push(outgoing.last())
        } else {
            before
        }
    }
}

/// Routes the node's outgoing packets: returns what is to be sent, each packet once and in order,
/// to the writer of its link. A packet for a link without a writer is dropped. What came of the
/// sends is told to [`settle_sends`].
pub fn pump_outgoing<W>(writers: &HashMap<u64, W>, outgoing: Vec<(u64, Vec<u8>)>) -> (sends: Vec<
    (u64, Vec<u8>),
>)
    ensures
        sends@ == routed(writers@.dom(), outgoing@),
{
    let ghost out = outgoing@;
    let mut sends: Vec<(u64, Vec<u8>)> = Vec::new();
    assert(out.take(0) =~= Seq::<(u64, Vec<u8>)>::empty());
    for packet in it: outgoing
        invariant
            it.seq() == out,
            sends@ == routed(writers@.dom(), out.take(it.index() as int)),
    {
        let ghost at = it.index() as int;
        assert(packet == out[at]);
        assert(out.take(at + 1).drop_last() =~= out.take(at));
        assert(out.take(at + 1).last() == out[at]);
        if writers.contains_key(&packet.0) {
            sends.push(packet);
        }
    }
    assert(out.take(out.len() as int) =~= out);
    sends
}

/// The writers that are left, where `answers` tell for each send its link and whether the writer
/// took the packet. A writer that did not is forgotten.
pub open spec fn writers_after<W>(before: Map<u64, W>, answers: Seq<(u64, bool)>) -> Map<u64, W>
    decreases answers.len(),
{
    if answers.len() == 0 {
        before
    } else {
        let m = writers_after(before, answers.drop_last());
        let (link, taken) = answers.last();
        if taken {
            m
        } else {
            m.remove(link)
        }
    }
}

/// Forgets the writers that are gone: `answers` tell for each send its link and whether the writer
/// took the packet.
pub fn settle_sends<W>(writers: &mut HashMap<u64, W>, answers: &[(u64, bool)])
    ensures
        final(writers)@ == writers_after(old(writers)@, answers@),
{
    let ghost before = writers@;
    let mut i: usize = 0;
    assert(answers@.take(0) =~= Seq::<(u64, bool)>::empty());
    while i < answers.len()
        invariant
            i <= answers.len(),
            writers@ == writers_after(before, answers@.take(i as int)),
        decreases answers.len() - i,
    {
        assert(answers@.take(i + 1).drop_last() =~= answers@.take(i as int));
        assert(answers@.take(i + 1).last() == answers@[i as int]);
        let (link, taken) = answers[i];
        if !taken {
            writers.remove(&link);
        }
        i += 1;
    }
    assert(answers@.take(i as int) =~= answers@);
}

/// The addresses that are connected.
pub type PeerSet = Table<PubKeyBytes, ()>;

/// The views of addresses.
pub open spec fn addresses(v: Seq<PubKeyBytes>) -> Seq<Seq<u8>> {
    v.map_values(|a: PubKeyBytes| a@)
}

/// Is `v` a list of the addresses in `set`, each once?
pub open spec fn lists(v: Seq<PubKeyBytes>, set: Set<Seq<u8>>) -> bool {
    &&& addresses(v).no_duplicates()
    &&& addresses(v).to_set() == set
}

/// Who has come and who has gone.
pub struct PeerChanges {
    /// Who is connected now.
    pub current: PeerSet,
    /// Who was not before.
    pub joined: Vec<PubKeyBytes>,
    /// Who was before and is not now.
    pub left: Vec<PubKeyBytes>,
    /// The operator's lines on those who came, and then on those who went.
    pub lines: Vec<String>,
}

/// The operator's lines on those who came, and then on those who went.
pub open spec fn change_lines(joined: Seq<PubKeyBytes>, left: Seq<PubKeyBytes>) -> Seq<Seq<char>> {
    joined.map_values(|a: PubKeyBytes| peer_connected_text(a@)) + left.map_values(
        |a: PubKeyBytes| peer_left_text(a@),
    )
}

/// Words the lines on those who came, and then on those who went.
fn word_changes(joined: &Vec<PubKeyBytes>, left: &Vec<PubKeyBytes>) -> (lines: Vec<String>)
    ensures
        texts(lines@) == change_lines(joined@, left@),
{
    let mut lines: Vec<String> = Vec::new();
    let mut i: usize = 0;
    let ghost none = Seq::<PubKeyBytes>::empty();
    assert(texts(lines@) =~= change_lines(joined@.take(0), none));
    while i < joined.len()
        invariant
            i <= joined.len(),
            none.len() == 0,
            texts(lines@) == change_lines(joined@.take(i as int), none),
        decreases joined.len() - i,
    {
        let ghost had = lines@;
        lines.push(peer_connected_line(&joined[i]));
        proof {
            let text = peer_connected_text(joined@[i as int]@);
            assert(texts(lines@) =~= texts(had).push(text));
            assert(change_lines(joined@.take(i + 1), none) =~= change_lines(
                joined@.take(i as int),
                none,
            ).push(text));
        }
        i += 1;
    }
    assert(joined@.take(i as int) =~= joined@);
    let mut j: usize = 0;
    assert(left@.take(0) =~= none);
    while j < left.len()
        invariant
            j <= left.len(),
            texts(lines@) == change_lines(joined@, left@.take(j as int)),
        decreases left.len() - j,
    {
        let ghost had = lines@;
        lines.push(peer_left_line(&left[j]));
        proof {
            let text = peer_left_text(left@[j as int]@);
            assert(texts(lines@) =~= texts(had).push(text));
            assert(change_lines(joined@, left@.take(j + 1)) =~= change_lines(
                joined@,
                left@.take(j as int),
            ).push(text));
        }
        j += 1;
    }
    assert(left@.take(j as int) =~= left@);
    lines
}

/// The members of `a` that are not in `b`, each once.
fn missing_from(a: &PeerSet, b: &PeerSet) -> (res: Vec<PubKeyBytes>)
    requires
        a.wf(),
        b.wf(),
    ensures
        lists(res@, a@.dom().difference(b@.dom())),
{
    let mut res: Vec<PubKeyBytes> = Vec::new();
    let n: usize = a.len();
    let mut i: usize = 0;
    proof {
        a.lemma_order();
    }
    let ghost order = a.order();
    assert(addresses(res@) =~= Seq::empty());
    while i < n
        invariant
            a.wf(),
            b.wf(),
            i <= n,
            n == a@.len(),
            order == a.order(),
            n == order.len(),
            order.no_duplicates(),
            addresses(res@).no_duplicates(),
            forall|x: Seq<u8>| #[trigger]
                addresses(res@).contains(x) <==> (order.take(i as int).contains(x)
                    && !b@.contains_key(x)),
        decreases n - i,
    {
        let key = a.key_at(i);
        let ghost had = addresses(res@);
        let ghost x0 = key@;
        proof {
            assert(order.take(i + 1) =~= order.take(i as int).push(x0));
            assert forall|x: Seq<u8>| #[trigger]
                order.take(i + 1).contains(x) <==> (order.take(i as int).contains(x) || x == x0) by {
                lemma_push_contains(order.take(i as int), x0, x);
            }
            assert(!order.take(i as int).contains(x0)) by {
                if order.take(i as int).contains(x0) {
                    let j = choose|j: int| 0 <= j < i && order.take(i as int)[j] == x0;
                    assert(order[j] == order[i as int]);
                }
            }
        }
        if !b.contains_key(key) {
            res.push(*key);
            proof {
                assert(addresses(res@) =~= had.push(x0));
                assert forall|x: Seq<u8>| #[trigger]
                    addresses(res@).contains(x) <==> (had.contains(x) || x == x0) by {
                    lemma_push_contains(had, x0, x);
                }
                assert(addresses(res@).no_duplicates()) by {
                    assert(!had.contains(x0));
                    assert forall|p: int, q: int|
                        0 <= p < addresses(res@).len() && 0 <= q < addresses(res@).len() && p
                            != q implies addresses(res@)[p] != addresses(res@)[q] by {
                        if p < had.len() && q < had.len() {
                            assert(had[p] != had[q]);
                        } else if p < had.len() {
                            assert(had.contains(had[p]));
                        } else {
                            assert(had.contains(had[q]));
                        }
                    }
                }
            }
        }
        i += 1;
    }
    proof {
        assert(order.take(n as int) =~= order);
        assert(addresses(res@).to_set() =~= a@.dom().difference(b@.dom())) by {
            assert forall|x: Seq<u8>| a@.dom().contains(x) <==> order.contains(x) by {
                assert(order.to_set().contains(x) <==> order.contains(x));
            }
        }
    }
    res
}

proof fn lemma_push_contains<T>(s: Seq<T>, a: T, x: T)
    ensures
        s.push(a).contains(x) <==> s.contains(x) || x == a,
{
    if s.contains(x) {
        let j = choose|j: int| 0 <= j < s.len() && s[j] == x;
        assert(s.push(a)[j] == x);
    }
    if x == a {
        assert(s.push(a)[s.len() as int] == x);
    }
    if s.push(a).contains(x) {
        let j = choose|j: int| 0 <= j < s.push(a).len() && s.push(a)[j] == x;
        if j < s.len() {
            assert(s[j] == x);
        }
    }
}

/// Compares who is connected (`peers`, the node's list) with who was.
pub fn log_peer_changes(peers: &[PubKeyBytes], prev: &PeerSet) -> (res: PeerChanges)
    requires
        prev.wf(),
    ensures
        res.current.wf(),
        res.current@.dom() == addresses(peers@).to_set(),
        lists(res.joined@, addresses(peers@).to_set().difference(prev@.dom())),
        lists(res.left@, prev@.dom().difference(addresses(peers@).to_set())),
        texts(res.lines@) == change_lines(res.joined@, res.left@),
{
    let mut current: PeerSet = prev.emptied();
    let mut i: usize = 0;
    let ghost all = addresses(peers@);
    assert(current@.dom() =~= all.take(0).to_set());
    while i < peers.len()
        invariant
            i <= peers.len(),
            all == addresses(peers@),
            current.wf(),
            current@.dom() == all.take(i as int).to_set(),
        decreases peers.len() - i,
    {
        current.insert(peers[i], ());
        proof {
            assert(all.take(i + 1) =~= all.take(i as int).push(all[i as int]));
            assert forall|x: Seq<u8>| all.take(i + 1).to_set().contains(x) <==> current@.dom().contains(
                x,
            ) by {
                lemma_push_contains(all.take(i as int), all[i as int], x);
            }
            assert(current@.dom() =~= all.take(i + 1).to_set());
        }
        i += 1;
    }
    assert(all.take(i as int) =~= all);
    let joined = missing_from(&current, prev);
    let left = missing_from(prev, &current);
    let lines = word_changes(&joined, &left);
    PeerChanges { current, joined, left, lines }
}

/// The line with the totals, where it is time for one, and when the last one was put out.
pub fn maybe_emit_stats(peers: usize, held: usize, last_stats_ms: u64, now: u64) -> (res: (
    u64,
    Option<PublicLine>,
))
    ensures
        if now - last_stats_ms >= STATS_INTERVAL_MS {
            res.0 == now && opt_line(res.1) == Some(
                (LineKind::Aggregate, stats_text(peers as nat, held as nat)),
            )
        } else {
            res.0 == last_stats_ms && res.1 is None
        },
{
    if now.saturating_sub(last_stats_ms) >= STATS_INTERVAL_MS {
        (now, Some(stats_line(peers, held)))
    } else {
        (last_stats_ms, None)
    }
}

/// Where a turn of the driver stands.
#[derive(Clone, Copy, PartialEq, Eq, Structural, Debug)]
pub enum DriverPhase {
    /// The heartbeat is recorded, and it is asked whether to leave.
    Checking,
    /// The durable store is draining.
    Flushing,
    /// An event is being waited for.
    Receiving,
    /// An event or a tick is being dealt with.
    Working,
    /// The node's outgoing packets are being handed out.
    Pumping,
    /// Who is connected is being compared with who was.
    Comparing,
    /// The totals are being put out, where it is time for them.
    Totalling,
    /// The handoff worker is being given a snapshot, where it is time for one.
    Snapshotting,
    /// The driver has left.
    Over,
}

/// What the driver does next.
#[derive(Debug)]
pub enum DriverAction<W> {
    /// Record the heartbeat, and ask whether to leave.
    Check,
    /// Drain the durable store, for at most [`FLUSH_TIMEOUT_SECS`].
    Flush,
    /// Wait for an event, for at most [`RECV_TIMEOUT_MS`].
    Receive,
    /// Deal with this event, by [`apply_event`].
    Apply(Ev<W>),
    /// Let the node's clock tick.
    Tick,
    /// Hand out the node's outgoing packets, by [`pump_outgoing`] and [`settle_sends`].
    Pump,
    /// Log who came and who went, by [`log_peer_changes`].
    ComparePeers,
    /// Put out the totals, by [`maybe_emit_stats`].
    PutOutTotals,
    /// Give the handoff worker a snapshot of the node, where there is a worker and it is time.
    Snapshot,
    /// Leave, with this public line where there is one.
    Leave(Option<PublicLine>),
}

/// What came of it.
#[derive(Debug)]
pub enum DriverEvent<W> {
    /// Whether to leave.
    Shutdown(bool),
    /// Whether the durable store drained in time.
    Flushed(bool),
    /// An event.
    Got(Ev<W>),
    /// No event in time.
    Quiet,
    /// There will be no event any more.
    Closed,
    /// What was to be done is done.
    Done,
}

/// Does `ev` answer what the driver is doing?
pub open spec fn driver_answers<W>(phase: DriverPhase, ev: DriverEvent<W>) -> bool {
    match phase {
        DriverPhase::Checking => ev is Shutdown,
        DriverPhase::Flushing => ev is Flushed,
        DriverPhase::Receiving => ev is Got || ev is Quiet || ev is Closed,
        DriverPhase::Working | DriverPhase::Pumping | DriverPhase::Comparing
        | DriverPhase::Totalling | DriverPhase::Snapshotting => ev is Done,
        DriverPhase::Over => false,
    }
}

/// Where a driver in `phase` stands after `ev`.
pub open spec fn driver_phase_after<W>(phase: DriverPhase, ev: DriverEvent<W>) -> DriverPhase {
    match ev {
        DriverEvent::Shutdown(leave) => if leave {
            DriverPhase::Flushing
        } else {
            DriverPhase::Receiving
        },
        DriverEvent::Got(_) | DriverEvent::Quiet => DriverPhase::Working,
        DriverEvent::Done => match phase {
            DriverPhase::Working => DriverPhase::Pumping,
            DriverPhase::Pumping => DriverPhase::Comparing,
            DriverPhase::Comparing => DriverPhase::Totalling,
            DriverPhase::Totalling => DriverPhase::Snapshotting,
            _ => DriverPhase::Checking,
        },
        DriverEvent::Flushed(_) | DriverEvent::Closed => DriverPhase::Over,
    }
}

/// Is `action` what a driver in `phase` does about `ev`?
pub open spec fn driver_acts<W>(
    phase: DriverPhase,
    ev: DriverEvent<W>,
    action: DriverAction<W>,
) -> bool {
    match ev {
        DriverEvent::Shutdown(leave) => if leave {
            action is Flush
        } else {
            action is Receive
        },
        DriverEvent::Flushed(ok) => action matches DriverAction::Leave(line) && opt_line(line)
            == Some((LineKind::Event, sigterm_text(ok))),
        DriverEvent::Got(e) => action == DriverAction::Apply(e),
        DriverEvent::Quiet => action is Tick,
        DriverEvent::Closed => action == DriverAction::<W>::Leave(None),
        DriverEvent::Done => match phase {
            DriverPhase::Working => action is Pump,
            DriverPhase::Pumping => action is ComparePeers,
            DriverPhase::Comparing => action is PutOutTotals,
            DriverPhase::Totalling => action is Snapshot,
            _ => action is Check,
        },
    }
}

/// One step of the driver's loop: what comes after `ev`. It starts in [`DriverPhase::Checking`].
pub fn driver_step<W>(phase: &mut DriverPhase, ev: DriverEvent<W>) -> (action: DriverAction<W>)
    requires
        driver_answers(*old(phase), ev),
    ensures
        *final(phase) == driver_phase_after(*old(phase), ev),
        driver_acts(*old(phase), ev, action),
{
    match ev {
        DriverEvent::Shutdown(leave) => {
            if leave {
                *phase = DriverPhase::Flushing;
                DriverAction::Flush
            } else {
                *phase = DriverPhase::Receiving;
                DriverAction::Receive
            }
        },
        DriverEvent::Flushed(ok) => {
            *phase = DriverPhase::Over;
            DriverAction::Leave(Some(sigterm_line(ok)))
        },
        DriverEvent::Got(e) => {
            *phase = DriverPhase::Working;
            DriverAction::Apply(e)
        },
        DriverEvent::Quiet => {
            *phase = DriverPhase::Working;
            DriverAction::Tick
        },
        DriverEvent::Closed => {
            *phase = DriverPhase::Over;
            DriverAction::Leave(None)
        },
        DriverEvent::Done => match *phase {
            DriverPhase::Working => {
                *phase = DriverPhase::Pumping;
                DriverAction::Pump
            },
            DriverPhase::Pumping => {
                *phase = DriverPhase::Comparing;
                DriverAction::ComparePeers
            },
            DriverPhase::Comparing => {
                *phase = DriverPhase::Totalling;
                DriverAction::PutOutTotals
            },
            DriverPhase::Totalling => {
                *phase = DriverPhase::Snapshotting;
                DriverAction::Snapshot
            },
            _ => {
                *phase = DriverPhase::Checking;
                DriverAction::Check
            },
        },
    }
}

/// The table of writers follows the links: a link has a writer from when it comes up until it
/// goes down, and no frame or bundle changes that.
pub proof fn law_the_writer_table_follows_the_links<
    W,
    D: Fn(&Vec<u8>) -> Option<(BundleId, IngestDst)>,
>(
    decode: D,
    links: Seq<(PubKeyBytes, u64)>,
    now: u64,
    w0: Map<u64, W>,
    r0: RateMap,
    ev: Ev<W>,
    w1: Map<u64, W>,
    r1: RateMap,
    res: Applied,
)
    requires
        applied(decode, links, now, w0, r0, ev, w1, r1, res),
    ensures
        ev matches Ev::Up(link, _, out) ==> w1.contains_key(link) && w1[link] == out,
        ev matches Ev::Down(link) ==> !w1.contains_key(link),
        ev is Data || ev is Ingest ==> w1 == w0,
        forall|other: u64|
            (ev matches Ev::Up(link, _, _) ==> link != other) && (ev matches Ev::Down(link)
                ==> link != other) ==> (#[trigger] w1.contains_key(other) <==> w0.contains_key(
                other,
            )),
{
}

/// Only a frame is charged to a budget; that a link goes down leaves every budget as it was, so
/// reconnecting gains nobody a fresh one.
pub proof fn law_reconnecting_resets_no_budget<
    W,
    D: Fn(&Vec<u8>) -> Option<(BundleId, IngestDst)>,
>(
    decode: D,
    links: Seq<(PubKeyBytes, u64)>,
    now: u64,
    w0: Map<u64, W>,
    r0: RateMap,
    ev: Ev<W>,
    w1: Map<u64, W>,
    r1: RateMap,
    res: Applied,
)
    requires
        applied(decode, links, now, w0, r0, ev, w1, r1, res),
        ev !is Data,
    ensures
        r1 == r0,
{
}

/// A frame whose sender has spent its budget for the window never reaches the node, while the
/// window lasts and the table of windows is below its hard ceiling.
pub proof fn law_a_spent_budget_sheds_the_frame<
    W,
    D: Fn(&Vec<u8>) -> Option<(BundleId, IngestDst)>,
>(
    decode: D,
    links: Seq<(PubKeyBytes, u64)>,
    now: u64,
    w0: Map<u64, W>,
    r0: RateMap,
    link: u64,
    bytes: Vec<u8>,
    w1: Map<u64, W>,
    r1: RateMap,
    res: Applied,
)
    requires
        applied(decode, links, now, w0, r0, Ev::Data(link, bytes), w1, r1, res),
        r0.contains_key(address_of_link(links, link)),
        r0[address_of_link(links, link)].msgs >= budget_of(address_of_link(links, link)),
        !window_over(r0[address_of_link(links, link)].start_ms, now),
        swept(r0, now).len() < MAX_PEER_RATE_KEYS,
    ensures
        res.call is None,
{
    let key = address_of_link(links, link);
    let kept = choose|kept: RateMap| #[trigger]
        charged_keeping(r0, kept, key, now, r1, res.call is Some);
    assert(kept.contains_key(key) && kept[key] == r0[key]);
}

/// The packets for `link`, in order.
pub open spec fn packets_of(link: u64, packets: Seq<(u64, Vec<u8>)>) -> Seq<Vec<u8>>
    decreases packets.len(),
{
    if packets.len() == 0 {
        Seq::empty()
    } else if packets.last().0 == link {
        packets_of(link, packets.drop_last()).push(packets.last().1)
    } else {
        packets_of(link, packets.drop_last())
    }
}

/// Each writer is sent exactly the packets of its own link, verbatim, each once and in order; and
/// nothing is sent where there is no writer.
pub proof fn law_each_writer_gets_its_own_packets(
    links: Set<u64>,
    outgoing: Seq<(u64, Vec<u8>)>,
    link: u64,
)
    ensures
        packets_of(link, routed(links, outgoing)) == if links.contains(link) {
            packets_of(link, outgoing)
        } else {
            Seq::empty()
        },
    decreases outgoing.len(),
{
    if outgoing.len() > 0 {
        let rest = outgoing.drop_last();
        law_each_writer_gets_its_own_packets(links, rest, link);
        if links.contains(outgoing.last().0) {
            assert(routed(links, outgoing).drop_last() =~= routed(links, rest));
        }
    }
}

/// A writer stays exactly where it took every packet that it was sent.
pub proof fn law_only_lost_writers_are_forgotten<W>(
    before: Map<u64, W>,
    answers: Seq<(u64, bool)>,
    link: u64,
)
    ensures
        writers_after(before, answers).contains_key(link) <==> (before.contains_key(link)
            && !answers.contains((link, false))),
        writers_after(before, answers).contains_key(link) ==> writers_after(before, answers)[link]
            == before[link],
    decreases answers.len(),
{
    if answers.len() > 0 {
        let rest = answers.drop_last();
        law_only_lost_writers_are_forgotten(before, rest, link);
        assert(answers =~= rest.push(answers.last()));
        lemma_push_contains(rest, answers.last(), (link, false));
    }
}

/// The driver leaves only when its events have run out, or when it was told to and the durable
/// store has had its time to drain; and every turn begins with the heartbeat.
pub proof fn law_the_driver_drains_before_it_leaves<W>(phase: DriverPhase, ev: DriverEvent<W>)
    requires
        driver_answers(phase, ev),
    ensures
        driver_phase_after(phase, ev) is Over <==> ev is Flushed || ev is Closed,
        ev is Flushed ==> phase is Flushing,
        driver_phase_after(phase, ev) is Flushing <==> ev == DriverEvent::<W>::Shutdown(true),
        driver_phase_after(phase, ev) is Receiving ==> phase is Checking,
{
}

/// The `i`-th event answers what the driver is doing, and the driver takes its step.
pub open spec fn driver_turn<W>(
    phases: Seq<DriverPhase>,
    evs: Seq<DriverEvent<W>>,
    acts: Seq<DriverAction<W>>,
    i: int,
) -> bool {
    &&& driver_answers(phases[i], evs[i])
    &&& phases[i + 1] == driver_phase_after(phases[i], evs[i])
    &&& driver_acts(phases[i], evs[i], acts[i])
}

/// After every event and every tick the packets are handed out, then the peers compared, then the
/// totals put out and the snapshot given, each once and in this order, before the next heartbeat.
pub proof fn law_every_turn_is_finished<W>(
    phases: Seq<DriverPhase>,
    evs: Seq<DriverEvent<W>>,
    acts: Seq<DriverAction<W>>,
    i: int,
)
    requires
        phases.len() == evs.len() + 1,
        acts.len() == evs.len(),
        forall|j: int| 0 <= j < evs.len() ==> #[trigger] driver_turn(phases, evs, acts, j),
        0 <= i < acts.len(),
        acts[i] is Apply || acts[i] is Tick,
    ensures
        i + 1 < acts.len() ==> acts[i + 1] is Pump,
        i + 2 < acts.len() ==> acts[i + 2] is ComparePeers,
        i + 3 < acts.len() ==> acts[i + 3] is PutOutTotals,
        i + 4 < acts.len() ==> acts[i + 4] is Snapshot,
        i + 5 < acts.len() ==> acts[i + 5] is Check,
{
    assert(driver_turn(phases, evs, acts, i));
    if i + 1 < acts.len() {
        assert(driver_turn(phases, evs, acts, i + 1));
    }
    if i + 2 < acts.len() {
        assert(driver_turn(phases, evs, acts, i + 2));
    }
    if i + 3 < acts.len() {
        assert(driver_turn(phases, evs, acts, i + 3));
    }
    if i + 4 < acts.len() {
        assert(driver_turn(phases, evs, acts, i + 4));
    }
    if i + 5 < acts.len() {
        assert(driver_turn(phases, evs, acts, i + 5));
    }
}

/// What an event leads to carries the event's own values: a link that comes up is reported with
/// its own number and its own role and gets its own writer, a link that goes down is reported with
/// its number and loses its writer, a frame that is let through is handed on with its link and its
/// bytes, and a bundle with its bytes.
pub proof fn law_each_event_leads_to_its_own_call<
    W,
    D: Fn(&Vec<u8>) -> Option<(BundleId, IngestDst)>,
>(
    decode: D,
    links: Seq<(PubKeyBytes, u64)>,
    now: u64,
    w0: Map<u64, W>,
    r0: RateMap,
    ev: Ev<W>,
    w1: Map<u64, W>,
    r1: RateMap,
    res: Applied,
)
    requires
        applied(decode, links, now, w0, r0, ev, w1, r1, res),
    ensures
        ev matches Ev::Up(link, role, out) ==> {
            &&& res.call == Some(NodeCall::Connected(link, role))
            &&& w1 == w0.insert(link, out)
            &&& res.private_line is None
            &&& res.public_line matches Some(line)
            &&& line.kind is Event
            &&& role is Initiator ==> line.text@ == "conn up: link="@ + decimal(link as nat)
                + " (Initiator)"@
            &&& role is Responder ==> line.text@ == "conn up: link="@ + decimal(link as nat)
                + " (Responder)"@
        },
        ev matches Ev::Down(link) ==> {
            &&& res.call == Some(NodeCall::Disconnected(link))
            &&& w1 == w0.remove(link)
            &&& res.private_line is None
            &&& res.public_line matches Some(line)
            &&& line.kind is Event
            &&& line.text@ == "conn down: link="@ + decimal(link as nat)
        },
        ev matches Ev::Data(link, bytes) ==> {
            &&& res.call is None || res.call == Some(NodeCall::Data(link, bytes))
            &&& w1 == w0
            &&& res.public_line is None && res.private_line is None
        },
        ev matches Ev::Ingest(bytes) ==> {
            &&& res.call is None || res.call == Some(NodeCall::Ingest(bytes))
            &&& w1 == w0
            &&& res.public_line is None
            &&& res.call is None <==> res.private_line is None
        },
        ev !is Data ==> r1 == r0,
{
    reveal_strlit(" (");
    reveal_strlit(")");
    reveal_strlit("Initiator");
    reveal_strlit("Responder");
    reveal_strlit(" (Initiator)");
    reveal_strlit(" (Responder)");
    assert(" ("@ + "Initiator"@ + ")"@ =~= " (Initiator)"@);
    assert(" ("@ + "Responder"@ + ")"@ =~= " (Responder)"@);
    if let Ev::Up(link, role, out) = ev {
        let front = "conn up: link="@ + decimal(link as nat);
        assert(conn_up_text(link, role) =~= front + (" ("@ + role_text(role) + ")"@));
    }
}

/// A frame is handed on, with its link and its bytes, where its sender has no window, where the
/// window is ten seconds old, and where the sender has handed over fewer than three hundred frames
/// in it, or all senders without an address together fewer than three thousand.
pub proof fn law_a_frame_within_budget_reaches_the_node<
    W,
    D: Fn(&Vec<u8>) -> Option<(BundleId, IngestDst)>,
>(
    decode: D,
    links: Seq<(PubKeyBytes, u64)>,
    now: u64,
    w0: Map<u64, W>,
    r0: RateMap,
    link: u64,
    bytes: Vec<u8>,
    w1: Map<u64, W>,
    r1: RateMap,
    res: Applied,
)
    requires
        applied(decode, links, now, w0, r0, Ev::Data(link, bytes), w1, r1, res),
        ({
            let from = address_of_link(links, link);
            ||| !r0.contains_key(from)
            ||| now >= r0[from].start_ms + 10_000
            ||| r0[from].msgs < 300
            ||| from is None && r0[from].msgs < 3_000
        }),
    ensures
        res.call == Some(NodeCall::Data(link, bytes)),
{
    let key = address_of_link(links, link);
    law_what_a_frame_is_charged(r0, key, now, r1, res.call is Some);
}

/// A bundle from the durable store reaches the node exactly where its bytes are a bundle, and the
/// operator is told its id and where it goes.
pub proof fn law_every_bundle_is_ingested<
    W,
    D: Fn(&Vec<u8>) -> Option<(BundleId, IngestDst)>,
>(
    decode: D,
    links: Seq<(PubKeyBytes, u64)>,
    now: u64,
    w0: Map<u64, W>,
    r0: RateMap,
    bytes: Vec<u8>,
    w1: Map<u64, W>,
    r1: RateMap,
    res: Applied,
    told: Option<(BundleId, IngestDst)>,
)
    requires
        applied(decode, links, now, w0, r0, Ev::Ingest(bytes), w1, r1, res),
        forall|r: Option<(BundleId, IngestDst)>| #[trigger]
            call_ensures(decode, (&bytes,), r) ==> r == told,
    ensures
        res.call is Some <==> told is Some,
        told matches Some((id, dst)) ==> res.call == Some(NodeCall::Ingest(bytes))
            && res.private_line is Some && res.private_line->0@ == "ingest: msg "@ + short_text(id@)
            + " → dst "@ + dst_text(dst),
{
}

/// What is sent: of the packets, in order, those whose link has a writer.
pub proof fn law_what_is_sent_has_a_writer(links: Set<u64>, outgoing: Seq<(u64, Vec<u8>)>)
    ensures
        routed(links, outgoing) == outgoing.filter(|p: (u64, Vec<u8>)| links.contains(p.0)),
    decreases outgoing.len(),
{
    reveal(Seq::filter);
    if outgoing.len() > 0 {
        law_what_is_sent_has_a_writer(links, outgoing.drop_last());
    }
}

/// Who is connected, who came and who went: everybody in the list is connected now, and nobody
/// else; those of them who were not before have come, and those who were and are not have gone,
/// each told of once.
pub proof fn law_comings_and_goings(
    peers: &[PubKeyBytes],
    prev: &PeerSet,
    res: PeerChanges,
    x: Seq<u8>,
)
    requires
        call_ensures(log_peer_changes, (peers, prev), res),
    ensures
        ({
            let here = exists|i: int| 0 <= i < peers@.len() && (#[trigger] peers@[i])@ == x;
            let came = exists|i: int|
                0 <= i < res.joined@.len() && (#[trigger] res.joined@[i])@ == x;
            let went = exists|i: int| 0 <= i < res.left@.len() && (#[trigger] res.left@[i])@ == x;
            &&& res.current@.contains_key(x) <==> here
            &&& came <==> here && !prev@.contains_key(x)
            &&& went <==> prev@.contains_key(x) && !here
        }),
        forall|i: int, j: int|
            0 <= i < j < res.joined@.len() ==> (#[trigger] res.joined@[i])@ != (
            #[trigger] res.joined@[j])@,
        forall|i: int, j: int|
            0 <= i < j < res.left@.len() ==> (#[trigger] res.left@[i])@ != (
            #[trigger] res.left@[j])@,
        res.lines@.len() == res.joined@.len() + res.left@.len(),
        forall|i: int|
            0 <= i < res.joined@.len() ==> (#[trigger] res.lines@[i])@ == "peer connected: "@
                + short_text(res.joined@[i]@),
        forall|i: int|
            0 <= i < res.left@.len() ==> (#[trigger] res.lines@[res.joined@.len() + i])@
                == "peer left: "@ + short_text(res.left@[i]@),
{
    let (now, came, went) = (addresses(peers@), addresses(res.joined@), addresses(res.left@));
    lemma_listed(peers@, x);
    lemma_listed(res.joined@, x);
    lemma_listed(res.left@, x);
    assert(res.current@.dom().contains(x) <==> now.to_set().contains(x));
    assert(came.to_set().contains(x) <==> now.to_set().contains(x) && !prev@.dom().contains(x));
    assert(went.to_set().contains(x) <==> prev@.dom().contains(x) && !now.to_set().contains(x));
    assert forall|i: int, j: int| 0 <= i < j < res.joined@.len() implies (
    #[trigger] res.joined@[i])@ != (#[trigger] res.joined@[j])@ by {
        assert(came[i] != came[j]);
    }
    assert forall|i: int, j: int| 0 <= i < j < res.left@.len() implies (#[trigger] res.left@[i])@
        != (#[trigger] res.left@[j])@ by {
        assert(went[i] != went[j]);
    }
    let lines = change_lines(res.joined@, res.left@);
    assert(texts(res.lines@).len() == lines.len());
    assert forall|i: int| 0 <= i < res.joined@.len() implies (#[trigger] res.lines@[i])@
        == "peer connected: "@ + short_text(res.joined@[i]@) by {
        assert(texts(res.lines@)[i] == lines[i]);
    }
    assert forall|i: int| 0 <= i < res.left@.len() implies (#[trigger] res.lines@[res.joined@.len()
        + i])@ == "peer left: "@ + short_text(res.left@[i]@) by {
        assert(texts(res.lines@)[res.joined@.len() + i] == lines[res.joined@.len() + i]);
    }
}

proof fn lemma_listed(v: Seq<PubKeyBytes>, x: Seq<u8>)
    ensures
        addresses(v).to_set().contains(x) <==> exists|i: int|
            0 <= i < v.len() && (#[trigger] v[i])@ == x,
{
    if exists|i: int| 0 <= i < v.len() && (#[trigger] v[i])@ == x {
        let i = choose|i: int| 0 <= i < v.len() && (#[trigger] v[i])@ == x;
        assert(addresses(v)[i] == x);
    }
    if addresses(v).contains(x) {
        let i = choose|i: int| 0 <= i < addresses(v).len() && addresses(v)[i] == x;
        assert(v[i]@ == x);
    }
}

/// The totals are put out at most every ten seconds, with both counts as they are.
pub proof fn law_totals_are_ten_seconds_apart(
    peers: usize,
    held: usize,
    last_stats_ms: u64,
    now: u64,
    res: (u64, Option<PublicLine>),
)
    requires
        call_ensures(maybe_emit_stats, (peers, held, last_stats_ms, now), res),
    ensures
        res.1 is Some <==> now >= last_stats_ms + 10_000,
        res.0 == if now >= last_stats_ms + 10_000 {
            now
        } else {
            last_stats_ms
        },
        res.1 matches Some(line) ==> line.kind is Aggregate && line.text@ == "stats: peers="@
            + decimal(peers as nat) + " held="@ + decimal(held as nat),
{
}

/// What the driver does about what it is told: it applies the very event that it got, ticks where
/// none came, drains before it leaves on being told to, and leaves at once where no event can come
/// any more.
pub proof fn law_what_the_driver_does_next<W>(
    phase: DriverPhase,
    ev: DriverEvent<W>,
    action: DriverAction<W>,
)
    requires
        driver_answers(phase, ev),
        driver_acts(phase, ev, action),
    ensures
        ({
            let next = driver_phase_after(phase, ev);
            &&& ev matches DriverEvent::Got(e) ==> action == DriverAction::Apply(e)
                && next is Working
            &&& ev is Quiet ==> action is Tick && next is Working
            &&& ev == DriverEvent::<W>::Shutdown(true) ==> action is Flush && next is Flushing
            &&& ev == DriverEvent::<W>::Shutdown(false) ==> action is Receive && next is Receiving
            &&& ev is Closed ==> action == DriverAction::<W>::Leave(None) && next is Over
            &&& ev matches DriverEvent::Flushed(drained) ==> {
                &&& next is Over
                &&& action matches DriverAction::Leave(Some(line))
                &&& line.kind is Event
                &&& drained ==> line.text@ == "SIGTERM: durable-store flush drained — exiting"@
                &&& !drained ==> line.text@ == "SIGTERM: durable-store flush timed out — exiting"@
            }
            &&& ev is Done && phase is Working ==> action is Pump && next is Pumping
            &&& ev is Done && phase is Pumping ==> action is ComparePeers && next is Comparing
            &&& ev is Done && phase is Comparing ==> action is PutOutTotals && next is Totalling
            &&& ev is Done && phase is Totalling ==> action is Snapshot && next is Snapshotting
            &&& ev is Done && phase is Snapshotting ==> action is Check && next is Checking
        }),
{
    reveal_strlit("SIGTERM: durable-store flush ");
    reveal_strlit("drained");
    reveal_strlit("timed out");
    reveal_strlit(" — exiting");
    reveal_strlit("SIGTERM: durable-store flush drained — exiting");
    reveal_strlit("SIGTERM: durable-store flush timed out — exiting");
    assert("SIGTERM: durable-store flush "@ + "drained"@ + " — exiting"@
        =~= "SIGTERM: durable-store flush drained — exiting"@);
    assert("SIGTERM: durable-store flush "@ + "timed out"@ + " — exiting"@
        =~= "SIGTERM: durable-store flush timed out — exiting"@);
}

/// Each phase of the driver's turn takes just the answers to what is being done in it.
pub proof fn law_the_driver_takes_its_answers<W>(ev: DriverEvent<W>)
    ensures
        driver_answers(DriverPhase::Checking, ev) <==> ev is Shutdown,
        driver_answers(DriverPhase::Flushing, ev) <==> ev is Flushed,
        driver_answers(DriverPhase::Receiving, ev) <==> ev is Got || ev is Quiet || ev is Closed,
        driver_answers(DriverPhase::Working, ev) <==> ev is Done,
        driver_answers(DriverPhase::Pumping, ev) <==> ev is Done,
        driver_answers(DriverPhase::Comparing, ev) <==> ev is Done,
        driver_answers(DriverPhase::Totalling, ev) <==> ev is Done,
        driver_answers(DriverPhase::Snapshotting, ev) <==> ev is Done,
        !driver_answers(DriverPhase::Over, ev),
{
}

/// What the driver does about an event, of the call itself: the event's own values reach the node,
/// its own link gets or loses its writer, and no other writer changes.
pub proof fn law_an_event_is_applied<W, D: Fn(&Vec<u8>) -> Option<(BundleId, IngestDst)>>(
    writers: &mut HashMap<u64, W>,
    rates: &mut PeerRates,
    links: &[(PubKeyBytes, u64)],
    ev: Ev<W>,
    now: u64,
    decode: D,
    res: Applied,
)
    requires
        old(rates).wf(),
        call_ensures(apply_event::<W, D>, (writers, rates, links, ev, now, decode), res),
    ensures
        ev matches Ev::Up(link, role, out) ==> res.call == Some(NodeCall::Connected(link, role))
            && final(writers)@ == old(writers)@.insert(link, out),
        ev matches Ev::Down(link) ==> res.call == Some(NodeCall::Disconnected(link)) && final(writers)@ == old(writers)@.remove(link),
        ev matches Ev::Data(link, bytes) ==> final(writers)@ == old(writers)@ && {
            let from = address_of_link(links@, link);
            let limit = if from is None {
                3_000int
            } else {
                300int
            };
            &&& res.call is None || res.call == Some(NodeCall::Data(link, bytes))
            &&& !old(rates)@.contains_key(from) || now >= old(rates)@[from].start_ms + 10_000
                || old(rates)@[from].msgs < limit ==> res.call is Some
            &&& old(rates)@.len() <= 10_000 && old(rates)@.contains_key(from) && now < old(rates)@[from].start_ms + 10_000 && old(rates)@[from].msgs >= limit ==> res.call is None
        },
        ev is Ingest ==> final(writers)@ == old(writers)@,
        ev !is Data ==> final(rates)@ == old(rates)@,
{
    if let Ev::Data(link, bytes) = ev {
        law_what_a_frame_is_charged(
            old(rates)@,
            address_of_link(links@, link),
            now,
            final(rates)@,
            res.call is Some,
        );
    }
}

/// What is sent, of the call itself, and whose writers stay: the packets of links that have a
/// writer, in order, and the writers that took all that they were sent.
pub proof fn law_packets_go_to_their_writers<W>(
    writers: &HashMap<u64, W>,
    outgoing: Vec<(u64, Vec<u8>)>,
    sends: Vec<(u64, Vec<u8>)>,
    left: &mut HashMap<u64, W>,
    answers: &[(u64, bool)],
    link: u64,
)
    requires
        call_ensures(pump_outgoing::<W>, (writers, outgoing), sends),
        call_ensures(settle_sends::<W>, (left, answers), ()),
    ensures
        sends@ == outgoing@.filter(|p: (u64, Vec<u8>)| writers@.dom().contains(p.0)),
        final(left)@.contains_key(link) <==> old(left)@.contains_key(link) && !answers@.contains(
            (link, false),
        ),
        final(left)@.contains_key(link) ==> final(left)@[link] == old(left)@[link],
{
    law_what_is_sent_has_a_writer(writers@.dom(), outgoing@);
    law_only_lost_writers_are_forgotten(old(left)@, answers@, link);
}

/// One step of the driver, of the call itself.
pub proof fn law_the_driver_takes_its_step<W>(
    phase: &mut DriverPhase,
    ev: DriverEvent<W>,
    action: DriverAction<W>,
)
    requires
        driver_answers(*old(phase), ev),
        call_ensures(driver_step::<W>, (phase, ev), action),
    ensures
        ev matches DriverEvent::Got(e) ==> action == DriverAction::Apply(e) && *final(phase)
            is Working,
        ev is Quiet ==> action is Tick && *final(phase) is Working,
        ev == DriverEvent::<W>::Shutdown(true) ==> action is Flush && *final(phase) is Flushing,
        ev == DriverEvent::<W>::Shutdown(false) ==> action is Receive && *final(phase) is Receiving,
        ev is Closed || ev is Flushed ==> action is Leave && *final(phase) is Over,
        ev is Done && *old(phase) is Working ==> action is Pump && *final(phase) is Pumping,
        ev is Done && *old(phase) is Pumping ==> action is ComparePeers && *final(phase)
            is Comparing,
        ev is Done && *old(phase) is Comparing ==> action is PutOutTotals && *final(phase)
            is Totalling,
        ev is Done && *old(phase) is Totalling ==> action is Snapshot && *final(phase)
            is Snapshotting,
        ev is Done && *old(phase) is Snapshotting ==> action is Check && *final(phase) is Checking,
{
    law_what_the_driver_does_next(*old(phase), ev, action);
}

} // verus!
