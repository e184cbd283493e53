//! The lines that the relay writes about itself.
//!
//! Public lines tell of this node, of links by their number, and of totals; nothing in them ties
//! a bundle, a peer or a mailbox to a time. What does is for the operator alone.

use vstd::prelude::*;
use vstd::string::*;

use crate::base58::bs58_text;
use crate::identity::{at_most, bs58_addr, encodable, prefix, short_b58, short_text};
use crate::keys::{BundleId, PubKeyBytes};
use crate::text::{decimal, opt_str, push_decimal};

verus! {

/// What a public line tells of.
#[derive(Clone, Copy, PartialEq, Eq, Structural, Debug)]
pub enum LineKind {
    /// Something that happened: a link came up, a relay was dialed.
    Event,
    /// Totals.
    Aggregate,
}

/// A line for everybody.
#[derive(Debug)]
pub struct PublicLine {
    /// What it tells of.
    pub kind: LineKind,
    /// What it says.
    pub text: String,
}

/// What a public line tells of, and what it says.
impl View for PublicLine {
    type V = (LineKind, Seq<char>);

    open spec fn view(&self) -> (LineKind, Seq<char>) {
        (self.kind, self.text@)
    }
}

/// A public line, where there is one.
pub open spec fn opt_line(line: Option<PublicLine>) -> Option<(LineKind, Seq<char>)> {
    match line {
        Some(line) => Some(line@),
        None => None,
    }
}

/// A line for the operator alone.
#[derive(Debug)]
pub struct OperatorLine {
    /// Is it written behind its time?
    pub timed: bool,
    /// What it says.
    pub text: String,
}

/// Whether the line is written behind its time, and what it says.
impl View for OperatorLine {
    type V = (bool, Seq<char>);

    open spec fn view(&self) -> (bool, Seq<char>) {
        (self.timed, self.text@)
    }
}

/// The views of lines for the operator.
pub open spec fn operator_views(lines: Seq<OperatorLine>) -> Seq<(bool, Seq<char>)> {
    lines.map_values(|l: OperatorLine| l@)
}

/// A line for the operator, where there is one.
pub open spec fn opt_operator(line: Option<OperatorLine>) -> Option<(bool, Seq<char>)> {
    match line {
        Some(line) => Some(line@),
        None => None,
    }
}

/// A line that tells of a failure: what failed, and why. It is not behind its time.
pub fn failure_line(what: &str, error: &str) -> (line: OperatorLine)
    ensures
        line@ == (false, what@ + " failed: "@ + error@),
{
    let mut text = what.to_owned();
    text.append(" failed: ");
    text.append(error);
    OperatorLine { timed: false, text }
}

/// Which end of a link's handshake we are.
#[derive(Clone, Copy, PartialEq, Eq, Structural, Debug)]
pub enum Role {
    /// We opened the link.
    Initiator,
    /// The peer opened it.
    Responder,
}

/// The name of a role.
pub open spec fn role_text(role: Role) -> Seq<char> {
    match role {
        Role::Initiator => "Initiator"@,
        Role::Responder => "Responder"@,
    }
}

/// The line for a link that came up.
pub open spec fn conn_up_text(link: u64, role: Role) -> Seq<char> {
    "conn up: link="@ + decimal(link as nat) + " ("@ + role_text(role) + ")"@
}

/// The line for a link that went down.
pub open spec fn conn_down_text(link: u64) -> Seq<char> {
    "conn down: link="@ + decimal(link as nat)
}

/// The line with the totals.
pub open spec fn stats_text(peers: nat, held: nat) -> Seq<char> {
    "stats: peers="@ + decimal(peers) + " held="@ + decimal(held)
}

/// The line on leaving after a signal.
pub open spec fn sigterm_text(flushed: bool) -> Seq<char> {
    "SIGTERM: durable-store flush "@ + (if flushed {
        "drained"@
    } else {
        "timed out"@
    }) + " — exiting"@
}

/// Which node of which region this is.
pub open spec fn node_text(region: Option<&str>, addr: Seq<u8>) -> Seq<char> {
    "region="@ + (match region {
        Some(r) => r@,
        None => "local"@,
    }) + " node="@ + bs58_text(addr)
}

/// The banner on starting.
pub open spec fn banner_text(
    listen: Option<&str>,
    ws: Option<&str>,
    peers: nat,
    addr: Seq<u8>,
) -> Seq<char> {
    "hop-relayd: address "@ + bs58_text(addr) + " "@ + (match listen {
        Some(l) => "tcp "@ + l@ + " "@,
        None => Seq::empty(),
    }) + (match ws {
        Some(w) => "ws "@ + w@ + " "@,
        None => Seq::empty(),
    }) + decimal(peers) + " backbone peer(s)"@
}

/// The line for a link that came up.
pub fn conn_up_line(link: u64, role: Role) -> (line: PublicLine)
    ensures
        line@ == (LineKind::Event, conn_up_text(link, role)),
{
    let mut text = "conn up: link=".to_owned();
    push_decimal(&mut text, link);
    text.append(" (");
    text.append(
        match role {
            Role::Initiator => "Initiator",
            Role::Responder => "Responder",
        },
    );
    text.append(")");
    PublicLine { kind: LineKind::Event, text }
}

/// The line for a link that went down.
pub fn conn_down_line(link: u64) -> (line: PublicLine)
    ensures
        line@ == (LineKind::Event, conn_down_text(link)),
{
    let mut text = "conn down: link=".to_owned();
    push_decimal(&mut text, link);
    PublicLine { kind: LineKind::Event, text }
}

/// The line with the totals.
pub fn stats_line(peers: usize, held: usize) -> (line: PublicLine)
    ensures
        line@ == (LineKind::Aggregate, stats_text(peers as nat, held as nat)),
{
    let mut text = "stats: peers=".to_owned();
    push_decimal(&mut text, peers as u64);
    text.append(" held=");
    push_decimal(&mut text, held as u64);
    PublicLine { kind: LineKind::Aggregate, text }
}

/// The line on leaving after a signal; `flushed` tells whether the durable store drained in time.
pub fn sigterm_line(flushed: bool) -> (line: PublicLine)
    ensures
        line@ == (LineKind::Event, sigterm_text(flushed)),
{
    let mut text = "SIGTERM: durable-store flush ".to_owned();
    text.append(
        if flushed {
            "drained"
        } else {
            "timed out"
        },
    );
    text.append(" — exiting");
    PublicLine { kind: LineKind::Event, text }
}

/// Which node of which region this is: what the log stream leads with.
pub fn node_line(region: Option<&str>, addr: &[u8]) -> (line: String)
    requires
        encodable(addr@.len()),
    ensures
        line@ == node_text(region, addr@),
{
    let mut line = "region=".to_owned();
    line.append(
        match region {
            Some(r) => r,
            None => "local",
        },
    );
    line.append(" node=");
    line.append(bs58_addr(addr).as_str());
    line
}

/// What is said on starting: the banner, who the log stream leads with, and its first line.
#[derive(Debug)]
pub struct Announcement {
    /// For the operator.
    pub banner: String,
    /// What the log stream leads with.
    pub who: String,
    /// The first public line.
    pub up: PublicLine,
}

/// What is said on starting.
pub fn announce_startup(
    listen: Option<&str>,
    ws: Option<&str>,
    peer_count: usize,
    addr: &[u8],
    region: Option<&str>,
) -> (res: Announcement)
    requires
        encodable(addr@.len()),
    ensures
        res.banner@ == banner_text(listen, ws, peer_count as nat, addr@),
        res.who@ == node_text(region, addr@),
        res.up@ == (LineKind::Event, "relay up: "@ + node_text(region, addr@)),
{
    let mut banner = "hop-relayd: address ".to_owned();
    banner.append(bs58_addr(addr).as_str());
    banner.append(" ");
    if let Some(l) = listen {
        banner.append("tcp ");
        banner.append(l);
        banner.append(" ");
    }
    if let Some(w) = ws {
        banner.append("ws ");
        banner.append(w);
        banner.append(" ");
    }
    push_decimal(&mut banner, peer_count as u64);
    banner.append(" backbone peer(s)");
    assert(banner@ =~= banner_text(listen, ws, peer_count as nat, addr@));
    let who = node_line(region, addr);
    let mut text = "relay up: ".to_owned();
    text.append(who.as_str());
    Announcement { banner, who, up: PublicLine { kind: LineKind::Event, text } }
}

/// The operator's line on a region's derived address.
pub fn region_line(region: &str, addr: &[u8]) -> (line: String)
    requires
        encodable(addr@.len()),
    ensures
        line@ == "hop-relayd: region="@ + region@ + " derived address "@ + bs58_text(addr@),
{
    let mut line = "hop-relayd: region=".to_owned();
    line.append(region);
    line.append(" derived address ");
    line.append(bs58_addr(addr).as_str());
    line
}

/// The line for a peer relay that could not be reached.
pub fn peer_unreachable_line(url: &str, error: &str) -> (line: PublicLine)
    ensures
        line@ == (LineKind::Event, "peer: "@ + url@ + " unreachable ("@ + error@ + ")"@),
{
    let mut text = "peer: ".to_owned();
    text.append(url);
    text.append(" unreachable (");
    text.append(error);
    text.append(")");
    PublicLine { kind: LineKind::Event, text }
}

/// The line for a peer relay that was dialed.
pub open spec fn peer_dialed_text(url: Seq<char>, link: u64) -> Seq<char> {
    "peer: dialed "@ + url + " (link "@ + decimal(link as nat) + ")"@
}

/// The line for a link to a peer relay that closed.
pub open spec fn peer_closed_text(url: Seq<char>, link: u64) -> Seq<char> {
    "peer: link "@ + decimal(link as nat) + " to "@ + url + " closed"@
}

/// The line for a peer relay that was dialed.
pub fn peer_dialed_line(url: &str, link: u64) -> (line: PublicLine)
    ensures
        line@ == (LineKind::Event, peer_dialed_text(url@, link)),
{
    let mut text = "peer: dialed ".to_owned();
    text.append(url);
    text.append(" (link ");
    push_decimal(&mut text, link);
    text.append(")");
    PublicLine { kind: LineKind::Event, text }
}

/// The line for a link to a peer relay that closed.
pub fn peer_closed_line(url: &str, link: u64) -> (line: PublicLine)
    ensures
        line@ == (LineKind::Event, peer_closed_text(url@, link)),
{
    let mut text = "peer: link ".to_owned();
    push_decimal(&mut text, link);
    text.append(" to ");
    text.append(url);
    text.append(" closed");
    PublicLine { kind: LineKind::Event, text }
}

/// Whom an ingested bundle is for.
#[derive(Debug)]
pub enum IngestDst {
    /// A device, or the acknowledgement to one.
    Device(PubKeyBytes),
    /// Everybody.
    Broadcast,
    /// Everybody, to have copies of a bundle dropped.
    Vaccine,
}

/// The operator's name for whom a bundle is for.
pub open spec fn dst_text(dst: IngestDst) -> Seq<char> {
    match dst {
        IngestDst::Device(addr) => short_text(addr@),
        IngestDst::Broadcast => "broadcast"@,
        IngestDst::Vaccine => "vaccine"@,
    }
}

/// The operator's line for a bundle that came out of the durable store.
pub fn ingest_line(id: &BundleId, dst: &IngestDst) -> (line: String)
    ensures
        line@ == "ingest: msg "@ + short_text(id@) + " → dst "@ + dst_text(*dst),
{
    let mut line = "ingest: msg ".to_owned();
    line.append(short_b58(id.as_slice()).as_str());
    line.append(" → dst ");
    match dst {
        IngestDst::Device(addr) => {
            line.append(short_b58(addr.as_slice()).as_str());
        },
        IngestDst::Broadcast => {
            line.append("broadcast");
        },
        IngestDst::Vaccine => {
            line.append("vaccine");
        },
    }
    line
}

/// The operator's line for a peer that came.
pub open spec fn peer_connected_text(addr: Seq<u8>) -> Seq<char> {
    "peer connected: "@ + short_text(addr)
}

/// The operator's line for a peer that went.
pub open spec fn peer_left_text(addr: Seq<u8>) -> Seq<char> {
    "peer left: "@ + short_text(addr)
}

/// The operator's line for a peer that came.
pub fn peer_connected_line(addr: &PubKeyBytes) -> (line: String)
    ensures
        line@ == peer_connected_text(addr@),
{
    let mut line = "peer connected: ".to_owned();
    line.append(short_b58(addr.as_slice()).as_str());
    line
}

/// The operator's line for a peer that went.
pub fn peer_left_line(addr: &PubKeyBytes) -> (line: String)
    ensures
        line@ == peer_left_text(addr@),
{
    let mut line = "peer left: ".to_owned();
    line.append(short_b58(addr.as_slice()).as_str());
    line
}

/// The first eight characters of a mailbox tag, which is all that a line tells of it.
pub open spec fn tag_text(tag_b58: Seq<char>) -> Seq<char> {
    at_most(tag_b58, 8)
}

/// The operator's line for a bundle that was spooled; `error` is why the store refused it, where
/// it did.
pub open spec fn spool_text(id: Seq<u8>, tag_b58: Seq<char>, error: Option<Seq<char>>) -> Seq<char> {
    match error {
        None => "spool: msg "@ + short_text(id) + " → mailbox "@ + tag_text(tag_b58),
        Some(e) => "spool FAILED: msg "@ + short_text(id) + " → mailbox "@ + tag_text(tag_b58)
            + ": "@ + e,
    }
}

/// The operator's line for a bundle that was pulled from a mailbox.
pub open spec fn pull_text(id: Seq<u8>, tag_b58: Seq<char>) -> Seq<char> {
    "want-beacon: pulled msg "@ + short_text(id) + " from mailbox "@ + tag_text(tag_b58)
}

/// The operator's line for a bundle that was handed over to another region; `error` is why that
/// failed, where it did.
pub open spec fn handoff_text(
    id: Seq<u8>,
    dst: Seq<u8>,
    region: Seq<char>,
    error: Option<Seq<char>>,
) -> Seq<char> {
    match error {
        None => "handoff: msg "@ + short_text(id) + " → dst "@ + short_text(dst) + " (region "@
            + region + ")"@,
        Some(e) => "handoff FAILED: msg "@ + short_text(id) + " → "@ + short_text(dst)
            + " (region "@ + region + "): "@ + e,
    }
}

/// The operator's line for a bundle that was spooled; `error` is why the store refused it, where
/// it did.
pub fn spool_line(id: &BundleId, tag_b58: &str, error: Option<&str>) -> (line: String)
    ensures
        line@ == spool_text(id@, tag_b58@, opt_str(error)),
{
    let mut line = match error {
        None => "spool: msg ".to_owned(),
        Some(_) => "spool FAILED: msg ".to_owned(),
    };
    line.append(short_b58(id.as_slice()).as_str());
    line.append(" → mailbox ");
    line.append(prefix(tag_b58, 8).as_str());
    if let Some(e) = error {
        line.append(": ");
        line.append(e);
    }
    line
}

/// The operator's line for a bundle that was pulled from a mailbox.
pub fn pull_line(id: &BundleId, tag_b58: &str) -> (line: String)
    ensures
        line@ == pull_text(id@, tag_b58@),
{
    let mut line = "want-beacon: pulled msg ".to_owned();
    line.append(short_b58(id.as_slice()).as_str());
    line.append(" from mailbox ");
    line.append(prefix(tag_b58, 8).as_str());
    line
}

/// The operator's line for a bundle that was handed over to another region; `error` is why that
/// failed, where it did.
pub fn handoff_line(id: &BundleId, dst: &PubKeyBytes, region: &str, error: Option<&str>) -> (line:
    String)
    ensures
        line@ == handoff_text(id@, dst@, region@, opt_str(error)),
{
    let mut line = match error {
        None => "handoff: msg ".to_owned(),
        Some(_) => "handoff FAILED: msg ".to_owned(),
    };
    line.append(short_b58(id.as_slice()).as_str());
    line.append(
        match error {
            None => " → dst ",
            Some(_) => " → ",
        },
    );
    line.append(short_b58(dst.as_slice()).as_str());
    line.append(" (region ");
    line.append(region);
    match error {
        None => {
            line.append(")");
        },
        Some(e) => {
            line.append("): ");
            line.append(e);
        },
    }
    line
}

/// What is said on starting: the address, the bearers that there are, in full, and how many relays
/// are kept links to; the region, or that there is none; and which node this is.
pub proof fn law_what_is_said_on_starting(
    listen: Option<&str>,
    ws: Option<&str>,
    peer_count: usize,
    addr: &[u8],
    region: Option<&str>,
    res: Announcement,
)
    requires
        encodable(addr@.len()),
        call_ensures(announce_startup, (listen, ws, peer_count, addr, region), res),
    ensures
        ({
            let tcp = match listen {
                Some(l) => "tcp "@ + l@ + " "@,
                None => Seq::empty(),
            };
            let web = match ws {
                Some(w) => "ws "@ + w@ + " "@,
                None => Seq::empty(),
            };
            res.banner@ == "hop-relayd: address "@ + bs58_text(addr@) + " "@ + tcp + web + decimal(
                peer_count as nat,
            ) + " backbone peer(s)"@
        }),
        region matches Some(r) ==> res.who@ == "region="@ + r@ + " node="@ + bs58_text(addr@),
        region is None ==> res.who@ == "region=local node="@ + bs58_text(addr@),
        res.up.kind is Event,
        res.up.text@ == "relay up: "@ + res.who@,
{
    reveal_strlit("region=");
    reveal_strlit("local");
    reveal_strlit(" node=");
    reveal_strlit("region=local node=");
    assert("region="@ + "local"@ + " node="@ =~= "region=local node="@);
}

/// What the operator is told of a bundle that was spooled, pulled or handed over: its short id, and
/// the short tag of the mailbox, or the short address of the device and the region; and why it
/// failed, where it did.
pub proof fn law_what_the_operator_is_told_of_a_bundle(
    id: &BundleId,
    tag_b58: &str,
    dst: &PubKeyBytes,
    region: &str,
    error: &str,
    told: Seq<String>,
)
    requires
        told.len() == 5,
        call_ensures(spool_line, (id, tag_b58, None), told[0]),
        call_ensures(spool_line, (id, tag_b58, Some(error)), told[1]),
        call_ensures(pull_line, (id, tag_b58), told[2]),
        call_ensures(handoff_line, (id, dst, region, None), told[3]),
        call_ensures(handoff_line, (id, dst, region, Some(error)), told[4]),
    ensures
        ({
            let short = |text: Seq<char>, n: int|
                if text.len() > n {
                    text.take(n)
                } else {
                    text
                };
            let (msg, tag) = (short(bs58_text(id@), 10), short(tag_b58@, 8));
            let device = short(bs58_text(dst@), 10);
            &&& told[0]@ == "spool: msg "@ + msg + " → mailbox "@ + tag
            &&& told[1]@ == "spool FAILED: msg "@ + msg + " → mailbox "@ + tag + ": "@ + error@
            &&& told[2]@ == "want-beacon: pulled msg "@ + msg + " from mailbox "@ + tag
            &&& told[3]@ == "handoff: msg "@ + msg + " → dst "@ + device + " (region "@ + region@
                + ")"@
            &&& told[4]@ == "handoff FAILED: msg "@ + msg + " → "@ + device + " (region "@ + region@
                + "): "@ + error@
        }),
{
}

/// What the operator is told of a bundle that came out of the durable store, and of peers that came
/// and went.
pub proof fn law_what_the_operator_is_told_of_peers(
    id: &BundleId,
    addr: &PubKeyBytes,
    device: &IngestDst,
    broadcast: &IngestDst,
    vaccine: &IngestDst,
    told: Seq<String>,
)
    requires
        told.len() == 5,
        *device == IngestDst::Device(*addr),
        *broadcast is Broadcast,
        *vaccine is Vaccine,
        call_ensures(ingest_line, (id, device), told[0]),
        call_ensures(ingest_line, (id, broadcast), told[1]),
        call_ensures(ingest_line, (id, vaccine), told[2]),
        call_ensures(peer_connected_line, (addr,), told[3]),
        call_ensures(peer_left_line, (addr,), told[4]),
    ensures
        ({
            let short = |text: Seq<char>|
                if text.len() > 10 {
                    text.take(10)
                } else {
                    text
                };
            let (msg, peer) = (short(bs58_text(id@)), short(bs58_text(addr@)));
            &&& told[0]@ == "ingest: msg "@ + msg + " → dst "@ + peer
            &&& told[1]@ == "ingest: msg "@ + msg + " → dst "@ + "broadcast"@
            &&& told[2]@ == "ingest: msg "@ + msg + " → dst "@ + "vaccine"@
            &&& told[3]@ == "peer connected: "@ + peer
            &&& told[4]@ == "peer left: "@ + peer
        }),
{
}

/// What everybody is told of links: their own number, and of a dialed one its address.
pub proof fn law_what_everybody_is_told_of_links(
    url: &str,
    link: u64,
    role: Role,
    told: Seq<PublicLine>,
)
    requires
        told.len() == 4,
        call_ensures(conn_up_line, (link, role), told[0]),
        call_ensures(conn_down_line, (link,), told[1]),
        call_ensures(peer_dialed_line, (url, link), told[2]),
        call_ensures(peer_closed_line, (url, link), told[3]),
    ensures
        forall|i: int| 0 <= i < 4 ==> (#[trigger] told[i]).kind is Event,
        role is Initiator ==> told[0].text@ == "conn up: link="@ + decimal(link as nat) + " ("@
            + "Initiator"@ + ")"@,
        role is Responder ==> told[0].text@ == "conn up: link="@ + decimal(link as nat) + " ("@
            + "Responder"@ + ")"@,
        told[1].text@ == "conn down: link="@ + decimal(link as nat),
        told[2].text@ == "peer: dialed "@ + url@ + " (link "@ + decimal(link as nat) + ")"@,
        told[3].text@ == "peer: link "@ + decimal(link as nat) + " to "@ + url@ + " closed"@,
{
    assert forall|i: int| 0 <= i < 4 implies (#[trigger] told[i]).kind is Event by {
        assert(i == 0 || i == 1 || i == 2 || i == 3);
    }
}

/// A line is told with its own kind or time and its own text, and there is one exactly where there
/// is one.
pub proof fn law_lines_are_told_as_they_are(
    line: Option<PublicLine>,
    own: Option<OperatorLine>,
    lines: Seq<OperatorLine>,
    i: int,
)
    ensures
        opt_line(line) is Some <==> line is Some,
        line matches Some(l) ==> opt_line(line) == Some((l.kind, l.text@)),
        opt_operator(own) is Some <==> own is Some,
        own matches Some(l) ==> opt_operator(own) == Some((l.timed, l.text@)),
        operator_views(lines).len() == lines.len(),
        0 <= i < lines.len() ==> operator_views(lines)[i] == (lines[i].timed, lines[i].text@),
{
}

/// The other lines, word by word: of a region's address, of a relay that could not be reached, of a
/// failure, of the totals and on leaving.
pub proof fn law_the_other_lines(
    region: &str,
    addr: &[u8],
    url: &str,
    error: &str,
    what: &str,
    counts: (usize, usize),
    own: String,
    failure: OperatorLine,
    told: Seq<PublicLine>,
)
    requires
        told.len() == 4,
        call_ensures(region_line, (region, addr), own),
        call_ensures(failure_line, (what, error), failure),
        call_ensures(peer_unreachable_line, (url, error), told[0]),
        call_ensures(stats_line, (counts.0, counts.1), told[1]),
        call_ensures(sigterm_line, (true,), told[2]),
        call_ensures(sigterm_line, (false,), told[3]),
    ensures
        own@ == "hop-relayd: region="@ + region@ + " derived address "@ + bs58_text(addr@),
        !failure.timed && failure.text@ == what@ + " failed: "@ + error@,
        told[0]@ == (LineKind::Event, "peer: "@ + url@ + " unreachable ("@ + error@ + ")"@),
        told[1]@ == (
            LineKind::Aggregate,
            "stats: peers="@ + decimal(counts.0 as nat) + " held="@ + decimal(counts.1 as nat),
        ),
        told[2]@ == (
            LineKind::Event,
            "SIGTERM: durable-store flush "@ + "drained"@ + " — exiting"@,
        ),
        told[3]@ == (
            LineKind::Event,
            "SIGTERM: durable-store flush "@ + "timed out"@ + " — exiting"@,
        ),
{
}

} // verus!
