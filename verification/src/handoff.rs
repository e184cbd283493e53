//! Handing bundles over to other regions, and taking in what other regions handed to this one.
//!
//! Each region has its own partition of the durable store. A bundle for a device that is not here
//! is written into the partition of the region where the device was last seen, which delivers it
//! when the device comes back there.

use vstd::prelude::*;
use vstd::string::*;
use vstd::utf8::encode_utf8;

use crate::base58::bs58_text;
use crate::identity::{blake3_hash, bs58_addr, region_seed, region_seed_input};
use crate::keys::{BundleId, PubKeyBytes};
use crate::lines::{failure_line, handoff_line, handoff_text, opt_operator, OperatorLine};
use crate::mailbox::{
    byte_views, evict_expired, evicted_expired, ingested_bytes, law_only_expired_entries_leave,
    pull_all, pull_fresh, stands_for, Dedup, Held, PullMap, SpoolItem, SpoolMap, DEDUP_CAP,
};
use crate::table::{live_part, Table};
use crate::text::{opt_string, same_text, texts};

verus! {

/// How long it is trusted that a device is where it was last seen.
pub const PRESENCE_TTL_MS: u64 = 90_000;

/// How often our own partition is read for what others handed to us.
pub const RELOAD_SECS: u64 = 30;

/// How often the worker is given a snapshot.
pub const HANDOFF_INTERVAL_MS: u64 = 20_000;

/// What the driver tells the worker: who is connected, and what cannot be delivered here. `N` is
/// the length of a mailbox tag.
pub struct Snapshot<const N: usize> {
    /// When it was taken.
    pub now_ms: u64,
    /// Who is connected.
    pub devices: Vec<PubKeyBytes>,
    /// Bundles for devices that are not here: id, device, bytes, expiry.
    pub undeliverable: Vec<(BundleId, PubKeyBytes, Vec<u8>, u64)>,
    /// Private bundles without a route, to be spooled under their tags.
    pub spool: Vec<SpoolItem<N>>,
    /// Tags whose recipients can be reached again.
    pub wanted: Vec<[u8; N]>,
}

/// Is it time for a snapshot? `last_ms` is when the last one was taken.
pub fn snapshot_due(last_ms: u64, now: u64) -> (due: bool)
    ensures
        due == (now - last_ms >= HANDOFF_INTERVAL_MS),
{
    now.saturating_sub(last_ms) >= HANDOFF_INTERVAL_MS
}

/// Relays that have been seen in the registry, by their base58 addresses.
pub type KnownRelays = Table<String, ()>;

/// What has been handed over: bundle and region, with the expiry.
pub type HandedMap = Map<(Seq<u8>, Seq<char>), u64>;

/// What the worker remembers from one cycle to the next.
pub struct HandoffWorker<const N: usize> {
    /// What has been handed over.
    pub handed: Dedup<(BundleId, String)>,
    /// What has been spooled.
    pub spooled: Dedup<(BundleId, [u8; N])>,
    /// What has been pulled.
    pub pulled: Dedup<BundleId>,
}

impl<const N: usize> HandoffWorker<N> {
    /// The tables are well-formed.
    pub open spec fn wf(&self) -> bool {
        self.handed.wf() && self.spooled.wf() && self.pulled.wf()
    }

    /// A worker that remembers nothing; `salt` is one that those who send bundles do not know.
    pub fn new(salt: u64) -> (res: Self)
        ensures
            res.wf(),
            res.handed@ == HandedMap::empty(),
            res.spooled@ == SpoolMap::empty(),
            res.pulled@ == PullMap::empty(),
    {
        HandoffWorker {
            handed: Table::salted(salt),
            spooled: Table::salted(salt),
            pulled: Table::salted(salt),
        }
    }

    /// Begins a cycle: what has expired is forgotten.
    pub fn begin_cycle(&mut self, now_ms: u64)
        requires
            old(self).wf(),
        ensures
            final(self).wf(),
            evicted_expired(old(self).handed@, now_ms, final(self).handed@),
            evicted_expired(old(self).spooled@, now_ms, final(self).spooled@),
            evicted_expired(old(self).pulled@, now_ms, final(self).pulled@),
            final(self).handed@.len() <= DEDUP_CAP,
            final(self).spooled@.len() <= DEDUP_CAP,
            final(self).pulled@.len() <= DEDUP_CAP,
    {
        evict_expired(&mut self.handed, now_ms);
        evict_expired(&mut self.spooled, now_ms);
        evict_expired(&mut self.pulled, now_ms);
    }
}

/// The base58 addresses of those of `devices` that are not relays, in order.
pub open spec fn devices_only(devices: Seq<PubKeyBytes>, relays: Set<Seq<char>>) -> Seq<Seq<char>>
    decreases devices.len(),
{
    if devices.len() == 0 {
        Seq::empty()
    } else {
        let before = devices_only(devices.drop_last(), relays);
        let b58 = bs58_text(devices.last()@);
        if relays.contains(b58) {
            before
        } else {
            before.push(b58)
        }
    }
}

/// The base58 addresses whose presence here is to be recorded: everybody who is connected, except
/// relays.
pub fn presence_due(devices: &[PubKeyBytes], relays: &KnownRelays) -> (due: Vec<String>)
    requires
        relays.wf(),
    ensures
        texts(due@) == devices_only(devices@, relays@.dom()),
{
    let mut due: Vec<String> = Vec::new();
    let mut i: usize = 0;
    assert(devices@.take(0) =~= Seq::<PubKeyBytes>::empty());
    assert(texts(due@) =~= Seq::empty());
    while i < devices.len()
        invariant
            i <= devices.len(),
            relays.wf(),
            texts(due@) == devices_only(devices@.take(i as int), relays@.dom()),
        decreases devices.len() - i,
    {
        let b58 = bs58_addr(devices[i].as_slice());
        let ghost had = due@;
        assert(devices@.take(i + 1).drop_last() =~= devices@.take(i as int));
        assert(devices@.take(i + 1).last() == devices@[i as int]);
        if !relays.contains_key(&b58) {
            let ghost b = b58@;
            due.push(b58);
            assert(texts(due@) =~= texts(had).push(b));
        }
        i += 1;
    }
    assert(devices@.take(i as int) =~= devices@);
    due
}

/// Where a bundle is to be written.
#[derive(Debug)]
pub struct HandoffWrite {
    /// The region.
    pub region: String,
    /// The seed of the identity of that region's relay, whose partition it is.
    pub seed: [u8; 32],
}

/// Is a bundle to be handed over to `found`, the region where its device was last seen (if it is
/// known where), given what has been handed over?
pub open spec fn handoff_owed(
    handed: HandedMap,
    here: Seq<char>,
    id: Seq<u8>,
    found: Option<Seq<char>>,
) -> bool {
    found matches Some(region) && region != here && !handed.contains_key((id, region))
}

/// What has been handed over once `found` has been dealt with: a bundle whose device was last
/// seen in another region is remembered with its expiry.
pub open spec fn handed_after(
    handed: HandedMap,
    here: Seq<char>,
    id: Seq<u8>,
    expires: u64,
    found: Option<Seq<char>>,
) -> HandedMap {
    match found {
        Some(region) => if region == here {
            handed
        } else {
            handed.insert((id, region), expires)
        },
        None => handed,
    }
}

/// Decides where the bundle `id` is to be written: nowhere, where it is not known in which region
/// its device was last seen, where that is our own, or where the bundle has been handed to that
/// region before. `base_seed` is the seed that all regions share.
pub fn route_handoff(
    handed: &mut Dedup<(BundleId, String)>,
    here: &str,
    base_seed: &[u8; 32],
    id: &BundleId,
    expires: u64,
    found: Option<String>,
) -> (write: Option<HandoffWrite>)
    requires
        old(handed).wf(),
    ensures
        final(handed).wf(),
        (write is Some) == handoff_owed(
            old(handed)@,
            here@,
            id@,
            opt_string(found),
        ),
        write matches Some(w) ==> found is Some && w.region@ == found->0@ && w.seed@ == blake3_hash(
            region_seed_input(base_seed@, w.region@),
        ),
        final(handed)@ == handed_after(
            old(handed)@,
            here@,
            id@,
            expires,
            opt_string(found),
        ),
{
    let region = match found {
        Some(region) => region,
        None => {
            return None;
        },
    };
    if same_text(region.as_str(), here) {
        return None;
    }
    if handed.insert((*id, region.clone()), expires).is_some() {
        return None;
    }
    let seed = region_seed(base_seed, region.as_str());
    Some(HandoffWrite { region, seed })
}

/// Settles a bundle that was written into another region's partition: where that failed, it is
/// forgotten, so that a later cycle retries.
pub fn handoff_settled(
    handed: &mut Dedup<(BundleId, String)>,
    id: &BundleId,
    region: &str,
    stored: bool,
)
    requires
        old(handed).wf(),
    ensures
        final(handed).wf(),
        final(handed)@ == if stored {
            old(handed)@
        } else {
            old(handed)@.remove((id@, region@))
        },
{
    if !stored {
        handed.remove(&(*id, region.to_owned()));
    }
}

/// Where a worker's cycle stands.
#[derive(Debug)]
pub enum CyclePhase {
    /// The presence of the device at this place of the list is being recorded.
    Recording(usize),
    /// It is being asked where the device of the bundle at this place was last seen.
    Locating(usize),
    /// The bundle at this place is being written into that region's partition.
    Handing(usize, String),
    /// The cycle is over, but for the mailboxes.
    Over,
}

/// [`CyclePhase`] with the region as a text.
pub enum CycleView {
    Recording(nat),
    Locating(nat),
    Handing(nat, Seq<char>),
    Over,
}

impl View for CyclePhase {
    type V = CycleView;

    open spec fn view(&self) -> CycleView {
        match *self {
            CyclePhase::Recording(i) => CycleView::Recording(i as nat),
            CyclePhase::Locating(i) => CycleView::Locating(i as nat),
            CyclePhase::Handing(i, region) => CycleView::Handing(i as nat, region@),
            CyclePhase::Over => CycleView::Over,
        }
    }
}

/// What the worker does next.
#[derive(Debug)]
pub enum CycleAction {
    /// Record the presence of the device at this place of the list.
    Record(usize),
    /// Ask where this device, given in base58, was last seen.
    Locate(String),
    /// Write the bundle at this place into that region's partition.
    Hand(usize, HandoffWrite),
    /// See to the mailboxes.
    Mailboxes,
}

/// What came of it.
#[derive(Debug)]
pub enum CycleEvent {
    /// A cycle begins.
    Begin,
    /// The presence was recorded; or else why it could not be.
    Recorded(Option<String>),
    /// The region where the device was last seen, `None` where that is not known or too long ago;
    /// or else why it could not be asked.
    Located(Result<Option<String>, String>),
    /// The bundle was written; or else why it could not be.
    Handed(Option<String>),
}

/// What a turn of the worker's cycle comes to.
#[derive(Debug)]
pub struct CycleTurn {
    /// What the worker does next.
    pub action: CycleAction,
    /// A line for the operator on what came of the last.
    pub line: Option<OperatorLine>,
}

/// The region where a device was last seen, where that was told.
pub open spec fn region_found(answer: Result<Option<String>, String>) -> Option<Seq<char>> {
    match answer {
        Ok(found) => opt_string(found),
        Err(_) => None,
    }
}

/// Does `ev` answer what the worker is doing?
pub open spec fn cycle_answers(
    phase: CycleView,
    ev: CycleEvent,
    devices: nat,
    bundles: nat,
) -> bool {
    match phase {
        CycleView::Recording(i) => ev is Recorded && i < devices,
        CycleView::Locating(i) => ev is Located && i < bundles,
        CycleView::Handing(i, _) => ev is Handed && i < bundles,
        CycleView::Over => ev is Begin,
    }
}

/// Where a cycle goes on once the presence of the first `i` devices has been seen to.
pub open spec fn record_from(i: nat, devices: nat, bundles: nat) -> CycleView {
    if i < devices {
        CycleView::Recording(i)
    } else {
        locate_from(0, bundles)
    }
}

/// Where a cycle goes on once the first `i` bundles have been seen to.
pub open spec fn locate_from(i: nat, bundles: nat) -> CycleView {
    if i < bundles {
        CycleView::Locating(i)
    } else {
        CycleView::Over
    }
}

/// Where a cycle stands after `ev`.
pub open spec fn cycle_after(
    phase: CycleView,
    ev: CycleEvent,
    handed: HandedMap,
    here: Seq<char>,
    devices: nat,
    undeliverable: Seq<(BundleId, PubKeyBytes, Vec<u8>, u64)>,
) -> CycleView {
    let bundles = undeliverable.len();
    match (phase, ev) {
        (CycleView::Recording(i), _) => record_from(i + 1, devices, bundles),
        (CycleView::Locating(i), CycleEvent::Located(found)) => if handoff_owed(
            handed,
            here,
            undeliverable[i as int].0@,
            region_found(found),
        ) {
            CycleView::Handing(i, region_found(found)->0)
        } else {
            locate_from(i + 1, bundles)
        },
        (CycleView::Handing(i, _), _) => locate_from(i + 1, bundles),
        _ => record_from(0, devices, bundles),
    }
}

/// What has been handed over after `ev`.
pub open spec fn handed_by_cycle(
    phase: CycleView,
    ev: CycleEvent,
    handed: HandedMap,
    here: Seq<char>,
    undeliverable: Seq<(BundleId, PubKeyBytes, Vec<u8>, u64)>,
) -> HandedMap {
    match (phase, ev) {
        (CycleView::Locating(i), CycleEvent::Located(found)) => handed_after(
            handed,
            here,
            undeliverable[i as int].0@,
            undeliverable[i as int].3,
            region_found(found),
        ),
        (CycleView::Handing(i, region), CycleEvent::Handed(error)) => if error is None {
            handed
        } else {
            handed.remove((undeliverable[i as int].0@, region))
        },
        _ => handed,
    }
}

/// Is `action` what a cycle does in `phase`?
pub open spec fn cycle_acts(
    phase: CycleView,
    base_seed: Seq<u8>,
    undeliverable: Seq<(BundleId, PubKeyBytes, Vec<u8>, u64)>,
    action: CycleAction,
) -> bool {
    match phase {
        CycleView::Recording(i) => action matches CycleAction::Record(at) && at == i,
        CycleView::Locating(i) => action matches CycleAction::Locate(device) && device@
            == bs58_text(undeliverable[i as int].1@),
        CycleView::Handing(i, region) => action matches CycleAction::Hand(at, write) && at == i
            && write.region@ == region && write.seed@ == blake3_hash(
            region_seed_input(base_seed, region),
        ),
        CycleView::Over => action is Mailboxes,
    }
}

/// The operator's line on what came of what a cycle did in `phase`: there is one on every failure,
/// and on every bundle that was handed over.
pub open spec fn cycle_line(
    phase: CycleView,
    ev: CycleEvent,
    undeliverable: Seq<(BundleId, PubKeyBytes, Vec<u8>, u64)>,
) -> Option<(bool, Seq<char>)> {
    match (phase, ev) {
        (CycleView::Recording(_), CycleEvent::Recorded(Some(e))) => Some(
            (false, "handoff: set_presence"@ + " failed: "@ + e@),
        ),
        (CycleView::Locating(_), CycleEvent::Located(Err(e))) => Some(
            (false, "handoff: region_of"@ + " failed: "@ + e@),
        ),
        (CycleView::Handing(i, region), CycleEvent::Handed(error)) => Some(
            (
                true,
                handoff_text(
                    undeliverable[i as int].0@,
                    undeliverable[i as int].1@,
                    region,
                    opt_string(error),
                ),
            ),
        ),
        _ => None,
    }
}

/// Goes on to the bundle at `i`.
fn locate_next(undeliverable: &Vec<(BundleId, PubKeyBytes, Vec<u8>, u64)>, i: usize) -> (res: (
    CyclePhase,
    CycleAction,
))
    ensures
        res.0@ == locate_from(i as nat, undeliverable@.len()),
        forall|base_seed: Seq<u8>| #[trigger]
            cycle_acts(res.0@, base_seed, undeliverable@, res.1),
{
    if i < undeliverable.len() {
        let device = bs58_addr(undeliverable[i].1.as_slice());
        (CyclePhase::Locating(i), CycleAction::Locate(device))
    } else {
        (CyclePhase::Over, CycleAction::Mailboxes)
    }
}

/// One turn of the worker's cycle: what comes after `ev`. A cycle begins in [`CyclePhase::Over`].
/// First the presence of the `devices` is recorded; then each bundle that cannot be delivered
/// here is handed over, where that is owed. `here` is our own region, `base_seed` the seed that
/// all regions share. Also returns the operator's line on what came of the last action.
pub fn handoff_turn(
    handed: &mut Dedup<(BundleId, String)>,
    phase: &mut CyclePhase,
    here: &str,
    base_seed: &[u8; 32],
    devices: usize,
    undeliverable: &Vec<(BundleId, PubKeyBytes, Vec<u8>, u64)>,
    ev: CycleEvent,
) -> (res: CycleTurn)
    requires
        old(handed).wf(),
        cycle_answers(old(phase)@, ev, devices as nat, undeliverable@.len()),
    ensures
        final(handed).wf(),
        final(phase)@ == cycle_after(
            old(phase)@,
            ev,
            old(handed)@,
            here@,
            devices as nat,
            undeliverable@,
        ),
        final(handed)@ == handed_by_cycle(
            old(phase)@,
            ev,
            old(handed)@,
            here@,
            undeliverable@,
        ),
        cycle_acts(final(phase)@, base_seed@, undeliverable@, res.action),
        opt_operator(res.line) == cycle_line(old(phase)@, ev, undeliverable@),
{
    let bundles: usize = undeliverable.len();
    let mut was = CyclePhase::Over;
    std::mem::swap(&mut was, phase);
    match (was, ev) {
        (CyclePhase::Recording(i), CycleEvent::Recorded(error)) => {
            let line = match error {
                Some(e) => Some(failure_line("handoff: set_presence", e.as_str())),
                None => None,
            };
            if i + 1 < devices {
                *phase = CyclePhase::Recording(i + 1);
                return CycleTurn { action: CycleAction::Record(i + 1), line };
            }
            let (next, action) = locate_next(undeliverable, 0);
            *phase = next;
            assert(cycle_acts(phase@, base_seed@, undeliverable@, action));
            CycleTurn { action, line }
        },
        (CyclePhase::Locating(i), CycleEvent::Located(answer)) => {
            let (id, expires) = (&undeliverable[i].0, undeliverable[i].3);
            let (found, line) = match answer {
                Ok(found) => (found, None),
                Err(e) => (None, Some(failure_line("handoff: region_of", e.as_str()))),
            };
            match route_handoff(handed, here, base_seed, id, expires, found) {
                Some(write) => {
                    *phase = CyclePhase::Handing(i, write.region.clone());
                    CycleTurn { action: CycleAction::Hand(i, write), line }
                },
                None => {
                    let (next, action) = locate_next(undeliverable, i + 1);
                    *phase = next;
                    assert(cycle_acts(phase@, base_seed@, undeliverable@, action));
                    CycleTurn { action, line }
                },
            }
        },
        (CyclePhase::Handing(i, region), CycleEvent::Handed(error)) => {
            let (id, dst) = (&undeliverable[i].0, &undeliverable[i].1);
            handoff_settled(handed, id, region.as_str(), error.is_none());
            let why: Option<&str> = match &error {
                Some(e) => Some(e.as_str()),
                None => None,
            };
            let text = handoff_line(id, dst, region.as_str(), why);
            let line = Some(OperatorLine { timed: true, text });
            let (next, action) = locate_next(undeliverable, i + 1);
            *phase = next;
            assert(cycle_acts(phase@, base_seed@, undeliverable@, action));
            CycleTurn { action, line }
        },
        _ => {
            if devices > 0 {
                *phase = CyclePhase::Recording(0);
                return CycleTurn { action: CycleAction::Record(0), line: None };
            }
            let (next, action) = locate_next(undeliverable, 0);
            *phase = next;
            assert(cycle_acts(phase@, base_seed@, undeliverable@, action));
            CycleTurn { action, line: None }
        },
    }
}

/// `held` stands for `listing`, entry by entry.
pub open spec fn listing_stands_for<F: Fn(&Vec<u8>) -> Option<BundleId>>(
    id_of: F,
    listing: Seq<(Vec<u8>, u64)>,
    held: Seq<Held>,
) -> bool {
    &&& held.len() == listing.len()
    &&& forall|j: int|
        0 <= j < listing.len() ==> stands_for(id_of, listing[j], #[trigger] held[j])
}

/// Takes in what our own partition lists: returns the bytes of each bundle that was not taken in
/// before. `id_of` gives the id of a bundle from its bytes, or `None` where they are no bundle.
pub fn reload_partition<F: Fn(&Vec<u8>) -> Option<BundleId>>(
    ingested: &mut Dedup<BundleId>,
    listing: Vec<(Vec<u8>, u64)>,
    id_of: F,
) -> (out: Vec<Vec<u8>>)
    requires
        old(ingested).wf(),
        forall|b: &Vec<u8>| call_requires(id_of, (b,)),
    ensures
        final(ingested).wf(),
        exists|held: Seq<Held>| #[trigger]
            listing_stands_for(id_of, listing@, held) && final(ingested)@ == pull_all(
                old(ingested)@,
                held,
            ).0 && byte_views(out@) == ingested_bytes(pull_all(old(ingested)@, held).1),
{
    let ghost before = ingested@;
    let ghost listed = listing@;
    let ghost mut held = Seq::<Held>::empty();
    let mut out: Vec<Vec<u8>> = Vec::new();
    assert(byte_views(out@) =~= ingested_bytes(pull_all(before, held).1));
    for e in it: listing
        invariant
            it.seq() == listed,
            ingested.wf(),
            forall|b: &Vec<u8>| call_requires(id_of, (b,)),
            held.len() == it.index(),
            ingested@ == pull_all(before, held).0,
            byte_views(out@) == ingested_bytes(pull_all(before, held).1),
            forall|j: int| 0 <= j < held.len() ==> stands_for(id_of, listed[j], #[trigger] held[j]),
    {
        let ghost at = it.index() as int;
        let ghost was = held;
        let ghost seen = out@;
        assert(e == listed[at]);
        let (bytes, expires) = e;
        let ghost b = bytes@;
        match id_of(&bytes) {
            Some(id) => {
                let ghost h: Held = (b, expires, Some(id@));
                assert(stands_for(id_of, listed[at], h));
                let fresh = pull_fresh(ingested, &id, expires);
                if fresh {
                    out.push(bytes);
                }
                proof {
                    held = was.push(h);
                    assert(held.drop_last() =~= was);
                    let (old_got, got) = (pull_all(before, was).1, pull_all(before, held).1);
                    if fresh {
                        assert(got == old_got.push((id@, b)));
                        assert(byte_views(out@) =~= byte_views(seen).push(b));
                        assert(ingested_bytes(got) =~= ingested_bytes(old_got).push(b));
                    } else {
                        assert(got == old_got);
                    }
                }
            },
            None => {
                proof {
                    let h: Held = (b, expires, None);
                    assert(stands_for(id_of, listed[at], h));
                    held = was.push(h);
                    assert(held.drop_last() =~= was);
                }
            },
        }
    }
    assert(listing_stands_for(id_of, listed, held));
    out
}

/// A bundle is never handed over to our own region, nor where it is not known where its device
/// is.
pub proof fn law_no_handoff_without_another_region(
    handed: HandedMap,
    here: Seq<char>,
    id: Seq<u8>,
    expires: u64,
)
    ensures
        !handoff_owed(handed, here, id, Some(here)),
        !handoff_owed(handed, here, id, None),
        handed_after(handed, here, id, expires, Some(here)) == handed,
        handed_after(handed, here, id, expires, None) == handed,
{
}

/// A bundle that was handed to a region is not handed to it again while that is remembered; where
/// the writing failed, it is owed again; and it may still be handed to some other region.
pub proof fn law_handed_over_once_per_region(
    handed: HandedMap,
    here: Seq<char>,
    id: Seq<u8>,
    expires: u64,
    region: Seq<char>,
    other: Seq<char>,
)
    requires
        handoff_owed(handed, here, id, Some(region)),
        other != region,
    ensures
        ({
            let after = handed_after(handed, here, id, expires, Some(region));
            &&& !handoff_owed(after, here, id, Some(region))
            &&& handoff_owed(after.remove((id, region)), here, id, Some(region))
            &&& after.remove((id, region)) == handed
            &&& handoff_owed(after, here, id, Some(other)) == handoff_owed(
                handed,
                here,
                id,
                Some(other),
            )
        }),
{
    let after = handed_after(handed, here, id, expires, Some(region));
    assert(after.remove((id, region)) =~= handed);
}

/// No relay's presence is recorded, and every device's is.
pub proof fn law_presence_is_for_devices(
    devices: Seq<PubKeyBytes>,
    relays: Set<Seq<char>>,
    b58: Seq<char>,
)
    ensures
        devices_only(devices, relays).contains(b58) <==> (!relays.contains(b58) && exists|i: int|
            0 <= i < devices.len() && bs58_text((#[trigger] devices[i])@) == b58),
    decreases devices.len(),
{
    if devices.len() > 0 {
        let rest = devices.drop_last();
        let last = devices.len() - 1;
        law_presence_is_for_devices(rest, relays, b58);
        let (before, all) = (devices_only(rest, relays), devices_only(devices, relays));
        if before.contains(b58) {
            let j = choose|j: int| 0 <= j < before.len() && before[j] == b58;
            assert(all[j] == b58);
            let i = choose|i: int| 0 <= i < rest.len() && bs58_text((#[trigger] rest[i])@) == b58;
            assert(bs58_text(devices[i]@) == b58);
        }
        if !relays.contains(b58) && bs58_text(devices[last]@) == b58 {
            assert(all[before.len() as int] == b58);
        }
        if all.contains(b58) && !before.contains(b58) {
            let j = choose|j: int| 0 <= j < all.len() && all[j] == b58;
            if j < before.len() {
                assert(before[j] == b58);
            }
            assert(bs58_text(devices[last]@) == b58);
        }
        if exists|i: int| 0 <= i < devices.len() && bs58_text((#[trigger] devices[i])@) == b58 {
            let i = choose|i: int|
                0 <= i < devices.len() && bs58_text((#[trigger] devices[i])@) == b58;
            if i < last {
                assert(bs58_text(rest[i]@) == b58);
            }
        }
    }
}

/// How many answers a cycle still waits for at most.
pub open spec fn answers_left(phase: CycleView, devices: nat, bundles: nat) -> int {
    match phase {
        CycleView::Recording(i) => devices - i + 2 * bundles,
        CycleView::Locating(i) => 2 * (bundles - i),
        CycleView::Handing(i, _) => 2 * (bundles - i) - 1,
        CycleView::Over => 0,
    }
}

/// A cycle sees to every device and every bundle in turn, leaves none out, and comes to an end:
/// with each answer it goes on to the next, and fewer are left.
pub proof fn law_a_cycle_goes_through_everything(
    phase: CycleView,
    ev: CycleEvent,
    handed: HandedMap,
    here: Seq<char>,
    devices: nat,
    undeliverable: Seq<(BundleId, PubKeyBytes, Vec<u8>, u64)>,
)
    requires
        cycle_answers(phase, ev, devices, undeliverable.len()),
        phase !is Over,
    ensures
        ({
            let next = cycle_after(phase, ev, handed, here, devices, undeliverable);
            let n = undeliverable.len();
            &&& 0 <= answers_left(next, devices, n) < answers_left(phase, devices, n)
            &&& phase matches CycleView::Recording(i) ==> next == record_from(i + 1, devices, n)
            &&& phase matches CycleView::Locating(i) ==> next is Handing || next == locate_from(
                i + 1,
                n,
            )
            &&& next matches CycleView::Handing(j, _) ==> phase == CycleView::Locating(j)
            &&& phase matches CycleView::Handing(i, _) ==> next == locate_from(i + 1, n)
        }),
{
}

/// A snapshot is due once twenty seconds have passed since the last.
pub proof fn law_snapshots_are_twenty_seconds_apart(last_ms: u64, now: u64, due: bool)
    requires
        call_ensures(snapshot_due, (last_ms, now), due),
    ensures
        due <==> now >= last_ms + 20_000,
{
}

/// A cycle begins with the first device, or with the first bundle where there is no device; and
/// with neither it is over at once.
pub proof fn law_a_cycle_begins_at_the_beginning(
    ev: CycleEvent,
    handed: HandedMap,
    here: Seq<char>,
    devices: nat,
    undeliverable: Seq<(BundleId, PubKeyBytes, Vec<u8>, u64)>,
)
    requires
        ev is Begin,
    ensures
        cycle_answers(CycleView::Over, ev, devices, undeliverable.len()),
        cycle_after(CycleView::Over, ev, handed, here, devices, undeliverable) == if devices > 0 {
            CycleView::Recording(0)
        } else if undeliverable.len() > 0 {
            CycleView::Locating(0)
        } else {
            CycleView::Over
        },
        handed_by_cycle(CycleView::Over, ev, handed, here, undeliverable) == handed,
        cycle_line(CycleView::Over, ev, undeliverable) is None,
{
}

/// Behind the device at place `i` comes the one at `i + 1`; behind the last, the first bundle. A
/// presence that could not be recorded is told to the operator, and holds nothing up.
pub proof fn law_every_device_is_recorded_in_turn(
    i: nat,
    error: Option<String>,
    handed: HandedMap,
    here: Seq<char>,
    devices: nat,
    undeliverable: Seq<(BundleId, PubKeyBytes, Vec<u8>, u64)>,
)
    requires
        i < devices,
    ensures
        ({
            let (phase, ev) = (CycleView::Recording(i), CycleEvent::Recorded(error));
            let next = cycle_after(phase, ev, handed, here, devices, undeliverable);
            &&& cycle_answers(phase, ev, devices, undeliverable.len())
            &&& i + 1 < devices ==> next == CycleView::Recording(i + 1)
            &&& i + 1 == devices && undeliverable.len() > 0 ==> next == CycleView::Locating(0)
            &&& i + 1 == devices && undeliverable.len() == 0 ==> next == CycleView::Over
            &&& handed_by_cycle(phase, ev, handed, here, undeliverable) == handed
            &&& error is None ==> cycle_line(phase, ev, undeliverable) is None
            &&& error matches Some(e) ==> cycle_line(phase, ev, undeliverable) == Some(
                (false, "handoff: set_presence failed: "@ + e@),
            )
        }),
{
    reveal_strlit("handoff: set_presence");
    reveal_strlit(" failed: ");
    reveal_strlit("handoff: set_presence failed: ");
    assert("handoff: set_presence"@ + " failed: "@ =~= "handoff: set_presence failed: "@);
}

/// The bundle at place `i` is handed over exactly where its device was last seen in another
/// region, to which it was not handed before; it is remembered with its expiry. Otherwise the
/// bundle at `i + 1` comes next, and behind the last the cycle is over.
pub proof fn law_every_bundle_is_located_in_turn(
    i: nat,
    answer: Result<Option<String>, String>,
    handed: HandedMap,
    here: Seq<char>,
    devices: nat,
    undeliverable: Seq<(BundleId, PubKeyBytes, Vec<u8>, u64)>,
)
    requires
        i < undeliverable.len(),
    ensures
        ({
            let (phase, ev) = (CycleView::Locating(i), CycleEvent::Located(answer));
            let next = cycle_after(phase, ev, handed, here, devices, undeliverable);
            let after = handed_by_cycle(phase, ev, handed, here, undeliverable);
            let (id, _, _, expires) = undeliverable[i as int];
            let elsewhere = answer is Ok && answer->Ok_0 is Some && answer->Ok_0->0@ != here;
            let region = answer->Ok_0->0@;
            &&& cycle_answers(phase, ev, devices, undeliverable.len())
            &&& elsewhere && !handed.contains_key((id@, region)) ==> next == CycleView::Handing(
                i,
                region,
            )
            &&& !(elsewhere && !handed.contains_key((id@, region))) ==> {
                &&& i + 1 < undeliverable.len() ==> next == CycleView::Locating(i + 1)
                &&& i + 1 == undeliverable.len() ==> next == CycleView::Over
            }
            &&& after == if elsewhere {
                handed.insert((id@, region), expires)
            } else {
                handed
            }
            &&& answer is Ok ==> cycle_line(phase, ev, undeliverable) is None
            &&& answer matches Err(e) ==> cycle_line(phase, ev, undeliverable) == Some(
                (false, "handoff: region_of failed: "@ + e@),
            )
        }),
{
    reveal_strlit("handoff: region_of");
    reveal_strlit(" failed: ");
    reveal_strlit("handoff: region_of failed: ");
    assert("handoff: region_of"@ + " failed: "@ =~= "handoff: region_of failed: "@);
}

/// Whatever came of writing the bundle at place `i`, the one at `i + 1` comes next, and behind the
/// last the cycle is over. Where it could not be written, just this bundle is forgotten for just
/// this region.
pub proof fn law_every_handoff_is_settled(
    i: nat,
    region: Seq<char>,
    error: Option<String>,
    handed: HandedMap,
    here: Seq<char>,
    devices: nat,
    undeliverable: Seq<(BundleId, PubKeyBytes, Vec<u8>, u64)>,
)
    requires
        i < undeliverable.len(),
    ensures
        ({
            let (phase, ev) = (CycleView::Handing(i, region), CycleEvent::Handed(error));
            let next = cycle_after(phase, ev, handed, here, devices, undeliverable);
            let after = handed_by_cycle(phase, ev, handed, here, undeliverable);
            let (id, device, _, _) = undeliverable[i as int];
            &&& cycle_answers(phase, ev, devices, undeliverable.len())
            &&& i + 1 < undeliverable.len() ==> next == CycleView::Locating(i + 1)
            &&& i + 1 == undeliverable.len() ==> next == CycleView::Over
            &&& error is None ==> after == handed && cycle_line(phase, ev, undeliverable) == Some(
                (true, handoff_text(id@, device@, region, None)),
            )
            &&& error matches Some(e) ==> after == handed.remove((id@, region)) && cycle_line(
                phase,
                ev,
                undeliverable,
            ) == Some((true, handoff_text(id@, device@, region, Some(e@))))
        }),
{
}

/// What is done is about the very device or bundle whose turn it is: it is asked after the device
/// of the bundle at this place, and that bundle goes into the partition of the region where the
/// device was last seen.
pub proof fn law_each_action_is_about_its_place(
    phase: CycleView,
    base_seed: Seq<u8>,
    undeliverable: Seq<(BundleId, PubKeyBytes, Vec<u8>, u64)>,
    action: CycleAction,
)
    requires
        cycle_acts(phase, base_seed, undeliverable, action),
    ensures
        phase is Recording <==> action is Record,
        phase is Locating <==> action is Locate,
        phase is Handing <==> action is Hand,
        phase is Over <==> action is Mailboxes,
        action matches CycleAction::Record(at) ==> phase == CycleView::Recording(at as nat),
        action matches CycleAction::Locate(device) ==> device@ == bs58_text(
            undeliverable[phase->Locating_0 as int].1@,
        ),
        action matches CycleAction::Hand(at, write) ==> phase == CycleView::Handing(
            at as nat,
            write.region@,
        ) && write.seed@ == blake3_hash(
            encode_utf8("hop.relay.region.v1"@) + base_seed + encode_utf8(write.region@),
        ),
{
}

/// The `k`-th event answers what the cycle is doing, and the cycle goes on.
pub open spec fn cycle_step(
    phases: Seq<CycleView>,
    evs: Seq<CycleEvent>,
    tables: Seq<HandedMap>,
    here: Seq<char>,
    devices: nat,
    undeliverable: Seq<(BundleId, PubKeyBytes, Vec<u8>, u64)>,
    k: int,
) -> bool {
    &&& cycle_answers(phases[k], evs[k], devices, undeliverable.len())
    &&& phases[k + 1] == cycle_after(phases[k], evs[k], tables[k], here, devices, undeliverable)
}

proof fn lemma_places_so_far(
    phases: Seq<CycleView>,
    evs: Seq<CycleEvent>,
    tables: Seq<HandedMap>,
    here: Seq<char>,
    devices: nat,
    undeliverable: Seq<(BundleId, PubKeyBytes, Vec<u8>, u64)>,
    k: int,
)
    requires
        phases.len() == evs.len() + 1,
        1 <= k < phases.len(),
        phases[0] is Over,
        forall|j: int| 0 < j < evs.len() ==> #[trigger] phases[j] !is Over,
        forall|j: int|
            0 <= j < evs.len() ==> #[trigger] cycle_step(
                phases,
                evs,
                tables,
                here,
                devices,
                undeliverable,
                j,
            ),
    ensures
        ({
            let n = undeliverable.len();
            let recorded = phases.take(k).filter(|p: CycleView| p is Recording);
            let located = phases.take(k).filter(|p: CycleView| p is Locating);
            let (r, l) = match phases[k] {
                CycleView::Recording(i) => (i, 0nat),
                CycleView::Locating(i) => (devices, i),
                CycleView::Handing(i, _) => (devices, i + 1),
                CycleView::Over => (devices, n),
            };
            &&& phases[k] matches CycleView::Recording(i) ==> i < devices
            &&& phases[k] matches CycleView::Locating(i) ==> i < n
            &&& phases[k] matches CycleView::Handing(i, _) ==> i < n
            &&& recorded == Seq::new(r, |i: int| CycleView::Recording(i as nat))
            &&& located == Seq::new(l, |i: int| CycleView::Locating(i as nat))
        }),
    decreases k,
{
    reveal(Seq::filter);
    let is_recording = |p: CycleView| p is Recording;
    let is_locating = |p: CycleView| p is Locating;
    assert(cycle_step(phases, evs, tables, here, devices, undeliverable, k - 1));
    assert(phases.take(k).drop_last() =~= phases.take(k - 1));
    assert(phases.take(k).last() == phases[k - 1]);
    if k == 1 {
        assert(phases.take(0) =~= Seq::<CycleView>::empty());
        assert(phases.take(0).filter(is_recording).len() == 0);
        assert(phases.take(0).filter(is_locating).len() == 0);
        assert(phases.take(1).filter(is_recording) =~= Seq::<CycleView>::empty());
        assert(phases.take(1).filter(is_locating) =~= Seq::<CycleView>::empty());
        assert(Seq::new(0, |i: int| CycleView::Recording(i as nat)) =~= Seq::<CycleView>::empty());
        assert(Seq::new(0, |i: int| CycleView::Locating(i as nat)) =~= Seq::<CycleView>::empty());
    } else {
        lemma_places_so_far(phases, evs, tables, here, devices, undeliverable, k - 1);
        match phases[k - 1] {
            CycleView::Recording(i) => {
                assert(Seq::new(i, |i: int| CycleView::Recording(i as nat)).push(
                    CycleView::Recording(i),
                ) =~= Seq::new(i + 1, |i: int| CycleView::Recording(i as nat)));
            },
            CycleView::Locating(i) => {
                assert(Seq::new(i, |i: int| CycleView::Locating(i as nat)).push(
                    CycleView::Locating(i),
                ) =~= Seq::new(i + 1, |i: int| CycleView::Locating(i as nat)));
            },
            _ => {},
        }
    }
}

/// From its beginning until it is over, a cycle records the presence of every device, each once
/// and in order, and asks for every bundle where its device was last seen, each once and in order,
/// however many there are and whatever the answers.
pub proof fn law_a_cycle_leaves_nothing_out(
    phases: Seq<CycleView>,
    evs: Seq<CycleEvent>,
    tables: Seq<HandedMap>,
    here: Seq<char>,
    devices: nat,
    undeliverable: Seq<(BundleId, PubKeyBytes, Vec<u8>, u64)>,
)
    requires
        evs.len() > 0,
        phases.len() == evs.len() + 1,
        phases[0] is Over,
        phases.last() is Over,
        forall|j: int| 0 < j < evs.len() ==> #[trigger] phases[j] !is Over,
        forall|j: int|
            0 <= j < evs.len() ==> #[trigger] cycle_step(
                phases,
                evs,
                tables,
                here,
                devices,
                undeliverable,
                j,
            ),
    ensures
        phases.filter(|p: CycleView| p is Recording) == Seq::new(
            devices,
            |i: int| CycleView::Recording(i as nat),
        ),
        phases.filter(|p: CycleView| p is Locating) == Seq::new(
            undeliverable.len(),
            |i: int| CycleView::Locating(i as nat),
        ),
{
    reveal(Seq::filter);
    let k = phases.len() - 1;
    lemma_places_so_far(phases, evs, tables, here, devices, undeliverable, k);
    assert(phases.drop_last() =~= phases.take(k));
}

/// Whose presence is due: of the addresses that are connected, in base58 and in order, those that
/// are not among the relays.
pub proof fn law_everybody_but_relays_is_present(
    devices: Seq<PubKeyBytes>,
    relays: Set<Seq<char>>,
)
    ensures
        devices_only(devices, relays) == devices.map_values(
            |a: PubKeyBytes| bs58_text(a@),
        ).filter(|b: Seq<char>| !relays.contains(b)),
    decreases devices.len(),
{
    reveal(Seq::filter);
    let all = devices.map_values(|a: PubKeyBytes| bs58_text(a@));
    if devices.len() > 0 {
        law_everybody_but_relays_is_present(devices.drop_last(), relays);
        assert(all.drop_last() =~= devices.drop_last().map_values(
            |a: PubKeyBytes| bs58_text(a@),
        ));
    }
}

/// What is taken in from our own partition is what it lists, entry by entry, each under the id
/// that `id_of` gave for its bytes.
pub proof fn law_every_entry_of_the_partition_is_read<F: Fn(&Vec<u8>) -> Option<BundleId>>(
    id_of: F,
    listing: Seq<(Vec<u8>, u64)>,
    held: Seq<Held>,
    j: int,
)
    requires
        listing_stands_for(id_of, listing, held),
        0 <= j < listing.len(),
    ensures
        held.len() == listing.len(),
        held[j].0 == listing[j].0@,
        held[j].1 == listing[j].1,
        exists|b: Vec<u8>, r: Option<BundleId>| #[trigger]
            call_ensures(id_of, (&b,), r) && b@ == listing[j].0@ && (r is Some <==> held[j].2
                is Some) && (r is Some ==> held[j].2 == Some(r->0@)),
{
    assert(stands_for(id_of, listing[j], held[j]));
    let (b, r) = choose|b: Vec<u8>, r: Option<BundleId>| #[trigger]
        call_ensures(id_of, (&b,), r) && b@ == held[j].0 && match r {
            Some(x) => held[j].2 == Some(x@),
            None => held[j].2 is None,
        };
    assert(call_ensures(id_of, (&b,), r));
}

/// A bundle is owed to a region exactly where its device was last seen there, that is not our own,
/// and the bundle was not handed to it before. Only a bundle whose device is elsewhere is
/// remembered, by its own id and that region and with its own expiry.
pub proof fn law_what_is_owed_to_a_region(
    handed: HandedMap,
    here: Seq<char>,
    id: Seq<u8>,
    expires: u64,
    region: Seq<char>,
)
    ensures
        handoff_owed(handed, here, id, Some(region)) <==> region != here && !handed.contains_key(
            (id, region),
        ),
        !handoff_owed(handed, here, id, None),
        region != here ==> handed_after(handed, here, id, expires, Some(region)) == handed.insert(
            (id, region),
            expires,
        ),
        region == here ==> handed_after(handed, here, id, expires, Some(region)) == handed,
        handed_after(handed, here, id, expires, None) == handed,
{
}

/// Where a cycle stands is read as it is.
pub proof fn law_a_phase_is_read_as_it_is(i: usize, region: String)
    ensures
        CyclePhase::Recording(i)@ == CycleView::Recording(i as nat),
        CyclePhase::Locating(i)@ == CycleView::Locating(i as nat),
        CyclePhase::Handing(i, region)@ == CycleView::Handing(i as nat, region@),
        CyclePhase::Over@ == CycleView::Over,
{
}

/// One turn of the worker's cycle, of the call itself and in numbers: the bundle at place `i` is
/// handed over exactly where its device was last seen in another region to which it was not handed
/// before; else, and whatever came of handing it over, it is asked after the device of the bundle
/// at `i + 1`, and behind the last the mailboxes are seen to.
pub proof fn law_a_turn_goes_on_to_the_next_bundle(
    handed: &mut Dedup<(BundleId, String)>,
    phase: &mut CyclePhase,
    here: &str,
    base_seed: &[u8; 32],
    devices: usize,
    undeliverable: &Vec<(BundleId, PubKeyBytes, Vec<u8>, u64)>,
    ev: CycleEvent,
    res: CycleTurn,
    i: usize,
)
    requires
        old(handed).wf(),
        i < undeliverable@.len(),
        (*old(phase) == CyclePhase::Locating(i) && ev is Located) || (*old(phase) matches CyclePhase::Handing(at, _) && at == i && ev is Handed),
        call_ensures(
            handoff_turn,
            (handed, phase, here, base_seed, devices, undeliverable, ev),
            res,
        ),
    ensures
        ({
            let id = undeliverable@[i as int].0@;
            let owed = ev matches CycleEvent::Located(answer) && (answer matches Ok(found) && (
            found matches Some(region) && region@ != here@ && !old(handed)@.contains_key(
                (id, region@),
            )));
            let region = ev->Located_0->Ok_0->0@;
            &&& owed ==> {
                &&& *final(phase) matches CyclePhase::Handing(at, r)
                &&& at == i && r@ == region
                &&& final(handed)@ == old(handed)@.insert(
                    (id, region),
                    undeliverable@[i as int].3,
                )
                &&& res.action matches CycleAction::Hand(place, write)
                &&& place == i && write.region@ == region && write.seed@ == blake3_hash(
                    encode_utf8("hop.relay.region.v1"@) + base_seed@ + encode_utf8(region),
                )
            }
            &&& !owed && i + 1 < undeliverable@.len() ==> {
                &&& *final(phase) matches CyclePhase::Locating(at)
                &&& at == i + 1
                &&& res.action matches CycleAction::Locate(device)
                &&& device@ == bs58_text(undeliverable@[i + 1].1@)
            }
            &&& !owed && i + 1 == undeliverable@.len() ==> *final(phase) is Over && res.action
                is Mailboxes
        }),
{
}

/// A cycle begins, of the call itself, with the first device, or with the first bundle where there
/// is no device; and goes on from device to device and then to the first bundle.
pub proof fn law_a_turn_goes_on_to_the_next_device(
    handed: &mut Dedup<(BundleId, String)>,
    phase: &mut CyclePhase,
    here: &str,
    base_seed: &[u8; 32],
    devices: usize,
    undeliverable: &Vec<(BundleId, PubKeyBytes, Vec<u8>, u64)>,
    ev: CycleEvent,
    res: CycleTurn,
    next: int,
)
    requires
        old(handed).wf(),
        (*old(phase) is Over && ev is Begin && next == 0) || (*old(phase) matches CyclePhase::Recording(at) && at < devices && ev is Recorded && next == at + 1),
        call_ensures(
            handoff_turn,
            (handed, phase, here, base_seed, devices, undeliverable, ev),
            res,
        ),
    ensures
        final(handed)@ == old(handed)@,
        next < devices ==> {
            &&& *final(phase) matches CyclePhase::Recording(at)
            &&& at == next
            &&& res.action matches CycleAction::Record(place)
            &&& place == next
        },
        next == devices && undeliverable@.len() > 0 ==> {
            &&& *final(phase) matches CyclePhase::Locating(at)
            &&& at == 0
            &&& res.action matches CycleAction::Locate(device)
            &&& device@ == bs58_text(undeliverable@[0].1@)
        },
        next == devices && undeliverable@.len() == 0 ==> *final(phase) is Over && res.action
            is Mailboxes,
{
}

/// At the beginning of a cycle nothing that is unexpired is forgotten, in any of the three tables,
/// where they hold no more than a hundred thousand that are; and everything that has expired is.
pub proof fn law_a_cycle_begins_by_forgetting<const N: usize>(
    worker: &mut HandoffWorker<N>,
    now_ms: u64,
    handed: (Seq<u8>, Seq<char>),
    spooled: (Seq<u8>, Seq<u8>),
    pulled: Seq<u8>,
)
    requires
        old(worker).wf(),
        call_ensures(HandoffWorker::<N>::begin_cycle, (worker, now_ms), ()),
        old(worker).handed@.contains_key(handed),
        old(worker).spooled@.contains_key(spooled),
        old(worker).pulled@.contains_key(pulled),
    ensures
        ({
            let (a, b) = (old(worker).handed@, final(worker).handed@);
            let unexpired = a[handed] == 0 || a[handed] > now_ms;
            &&& !unexpired ==> !b.contains_key(handed)
            &&& unexpired && a.dom().finite() && a.len() <= 100_000 ==> b.contains_key(handed)
                && b[handed] == a[handed]
        }),
        ({
            let (a, b) = (old(worker).spooled@, final(worker).spooled@);
            let unexpired = a[spooled] == 0 || a[spooled] > now_ms;
            &&& !unexpired ==> !b.contains_key(spooled)
            &&& unexpired && a.dom().finite() && a.len() <= 100_000 ==> b.contains_key(spooled)
                && b[spooled] == a[spooled]
        }),
        ({
            let (a, b) = (old(worker).pulled@, final(worker).pulled@);
            let unexpired = a[pulled] == 0 || a[pulled] > now_ms;
            &&& !unexpired ==> !b.contains_key(pulled)
            &&& unexpired && a.dom().finite() && a.len() <= 100_000 ==> b.contains_key(pulled)
                && b[pulled] == a[pulled]
        }),
{
    lemma_unexpired_stay(old(worker).handed@, now_ms, final(worker).handed@, handed);
    lemma_unexpired_stay(old(worker).spooled@, now_ms, final(worker).spooled@, spooled);
    lemma_unexpired_stay(old(worker).pulled@, now_ms, final(worker).pulled@, pulled);
}

proof fn lemma_unexpired_stay<K>(before: Map<K, u64>, now_ms: u64, after: Map<K, u64>, key: K)
    requires
        evicted_expired(before, now_ms, after),
        before.contains_key(key),
    ensures
        before[key] != 0 && before[key] <= now_ms ==> !after.contains_key(key),
        after.contains_key(key) ==> after[key] == before[key],
        (before[key] == 0 || before[key] > now_ms) && before.dom().finite() && before.len()
            <= 100_000 ==> after.contains_key(key),
{
    law_only_expired_entries_leave(before, now_ms, after, key);
    let live = live_part(before, now_ms);
    if before.dom().finite() {
        vstd::set_lib::lemma_len_subset(live.dom(), before.dom());
    }
}

} // verus!
