//! Fairness between peers: how many frames one identity may hand the driver per window.
//!
//! Every link's frames pass through one driver thread, and each costs it a decryption and a
//! parse. So each authenticated address gets a budget per fixed window, and every frame that
//! arrives before a handshake has revealed an address is charged to one bucket that all links
//! share: a fresh link buys nobody a fresh budget.

use vstd::prelude::*;

use crate::keys::{same_bytes, PubKeyBytes};
use crate::table::{Aged, Table, TableKey};

verus! {

/// The length of a rate window.
pub const PEER_RATE_WINDOW_MS: u64 = 10_000;

/// How many frames one authenticated address may hand over per window.
pub const MAX_PEER_MSGS_PER_WINDOW: u32 = 300;

/// How many frames all unauthenticated links together may hand over per window.
pub const MAX_PREAUTH_MSGS_PER_WINDOW: u32 = 3_000;

/// Above this many keys, windows that are over are dropped.
pub const PEER_RATE_SWEEP_AT: usize = 10_000;

/// At this many keys, the oldest windows are dropped down to half of it.
pub const MAX_PEER_RATE_KEYS: usize = 20_000;

/// Whose budget a frame is charged to.
#[derive(Clone, Copy, PartialEq, Eq, Hash, Debug)]
pub enum PeerRateKey {
    /// The one bucket for every frame that arrives before a handshake is done.
    PreAuth,
    /// The address that the handshake revealed.
    Peer(PubKeyBytes),
}

/// The address, or `None` for the shared bucket.
impl View for PeerRateKey {
    type V = Option<Seq<u8>>;

    open spec fn view(&self) -> Option<Seq<u8>> {
        match *self {
            PeerRateKey::PreAuth => None,
            PeerRateKey::Peer(addr) => Some(addr@),
        }
    }
}

impl TableKey for PeerRateKey {
    open spec fn digest_of(key: Option<Seq<u8>>, salt: u64) -> u64 {
        match key {
            None => 0,
            Some(addr) => <PubKeyBytes as TableKey>::digest_of(addr, salt),
        }
    }

    fn digest(&self, salt: u64) -> (d: u64) {
        match self {
            PeerRateKey::PreAuth => 0,
            PeerRateKey::Peer(addr) => addr.digest(salt),
        }
    }

    fn same(&self, other: &Self) -> (res: bool) {
        match (self, other) {
            (PeerRateKey::PreAuth, PeerRateKey::PreAuth) => true,
            (PeerRateKey::Peer(a), PeerRateKey::Peer(b)) => same_bytes(
                a.as_slice(),
                b.as_slice(),
            ),
            _ => false,
        }
    }
}

/// What one key has sent in its current window.
#[derive(Clone, Copy, PartialEq, Eq, Debug)]
pub struct PeerRateWindow {
    /// When the window began, in epoch milliseconds.
    pub start_ms: u64,
    /// How many frames arrived in it.
    pub msgs: u32,
}

/// Is the window that began at `start_ms` over at `now`?
pub open spec fn window_over(start_ms: u64, now: u64) -> bool {
    now - start_ms >= PEER_RATE_WINDOW_MS
}

/// A window is stale once it is over, and the oldest window leaves first.
impl Aged for PeerRateWindow {
    open spec fn live_at(self, now: u64) -> bool {
        !window_over(self.start_ms, now)
    }

    open spec fn rank(self) -> u64 {
        self.start_ms
    }

    fn is_live_at(&self, now: u64) -> (res: bool) {
        now.saturating_sub(self.start_ms) < PEER_RATE_WINDOW_MS
    }

    fn eviction_rank(&self) -> (r: u64) {
        self.start_ms
    }
}

/// The windows of all keys that are tracked.
pub type PeerRates = Table<PeerRateKey, PeerRateWindow>;

/// The windows of all keys that are tracked, as a map from address (or the shared bucket).
pub type RateMap = Map<Option<Seq<u8>>, PeerRateWindow>;

/// How many frames a key may send per window.
pub open spec fn budget_of(key: Option<Seq<u8>>) -> u32 {
    match key {
        None => MAX_PREAUTH_MSGS_PER_WINDOW,
        Some(_) => MAX_PEER_MSGS_PER_WINDOW,
    }
}

/// The map once the windows that are over have been swept, where there are enough keys for that.
pub open spec fn swept(m: RateMap, now: u64) -> RateMap {
    if m.len() > PEER_RATE_SWEEP_AT {
        crate::table::live_part(m, now)
    } else {
        m
    }
}

/// `kept` is what the hard ceiling leaves of `m`: all of it below the ceiling, else half the
/// ceiling, without the oldest windows.
pub open spec fn thinned(m: RateMap, kept: RateMap) -> bool {
    if m.len() >= MAX_PEER_RATE_KEYS {
        crate::table::evicted(m, kept, (m.len() - MAX_PEER_RATE_KEYS / 2) as nat)
    } else {
        kept == m
    }
}

/// The window of `key` once a frame at `now` has been counted.
pub open spec fn counted(m: RateMap, key: Option<Seq<u8>>, now: u64) -> PeerRateWindow {
    if m.contains_key(key) && !window_over(m[key].start_ms, now) {
        PeerRateWindow {
            start_ms: m[key].start_ms,
            msgs: if m[key].msgs < u32::MAX {
                (m[key].msgs + 1) as u32
            } else {
                u32::MAX
            },
        }
    } else {
        PeerRateWindow { start_ms: now, msgs: 1 }
    }
}

/// `after` is `before` once a frame of `key` at `now` has been charged, where `kept` of the
/// earlier windows stay, and `allowed` says whether the frame was within the budget.
pub open spec fn charged_keeping(
    before: RateMap,
    kept: RateMap,
    key: Option<Seq<u8>>,
    now: u64,
    after: RateMap,
    allowed: bool,
) -> bool {
    &&& thinned(swept(before, now), kept)
    &&& after == kept.insert(key, counted(kept, key, now))
    &&& allowed == (counted(kept, key, now).msgs <= budget_of(key))
}

/// `after` is `before` once a frame of `key` at `now` has been charged; `allowed` says whether
/// the frame was within the budget.
pub open spec fn charged(
    before: RateMap,
    key: Option<Seq<u8>>,
    now: u64,
    after: RateMap,
    allowed: bool,
) -> bool {
    exists|kept: RateMap| #[trigger] charged_keeping(before, kept, key, now, after, allowed)
}

/// Counts one frame of `key` at `now`, and says whether it is within the key's budget. A frame
/// for which this is false must be shed before it costs any work.
///
/// The count stops at the largest `u32`.
pub fn peer_data_allowed(rates: &mut PeerRates, key: PeerRateKey, now: u64) -> (allowed: bool)
    requires
        old(rates).wf(),
    ensures
        final(rates).wf(),
        charged(old(rates)@, key@, now, final(rates)@, allowed),
        final(rates)@.dom().finite(),
        final(rates)@.len() <= MAX_PEER_RATE_KEYS,
{
    if rates.len() > PEER_RATE_SWEEP_AT {
        rates.drop_stale(now);
    }
    let n: usize = rates.len();
    if n >= MAX_PEER_RATE_KEYS {
        rates.evict_lowest(n - MAX_PEER_RATE_KEYS / 2);
    }
    let ghost kept = rates@;
    assert(thinned(swept(old(rates)@, now), kept));
    let budget: u32 = match key {
        PeerRateKey::PreAuth => MAX_PREAUTH_MSGS_PER_WINDOW,
        PeerRateKey::Peer(_) => MAX_PEER_MSGS_PER_WINDOW,
    };
    let mut w = PeerRateWindow { start_ms: now, msgs: 0 };
    if let Some(held) = rates.get(&key) {
        w = PeerRateWindow { start_ms: held.start_ms, msgs: held.msgs };
    }
    if now.saturating_sub(w.start_ms) >= PEER_RATE_WINDOW_MS {
        w.start_ms = now;
        w.msgs = 0;
    }
    if w.msgs < u32::MAX {
        w.msgs += 1;
    }
    assert(w == counted(kept, key@, now));
    let ok: bool = w.msgs <= budget;
    rates.insert(key, w);
    assert(charged_keeping(old(rates)@, kept, key@, now, rates@, ok));
    ok
}

/// The address that the first entry for `link` names, if there is one.
pub open spec fn address_of_link(links: Seq<(PubKeyBytes, u64)>, link: u64) -> Option<Seq<u8>>
    decreases links.len(),
{
    if links.len() == 0 {
        None
    } else if links[0].1 == link {
        Some(links[0].0@)
    } else {
        address_of_link(links.skip(1), link)
    }
}

/// Whose budget a frame on `link` is charged to: the address that the handshake on it revealed,
/// else the shared bucket. `links` holds each authenticated address with its link.
pub fn peer_rate_key(links: &[(PubKeyBytes, u64)], link: u64) -> (key: PeerRateKey)
    ensures
        key@ == address_of_link(links@, link),
{
    let mut i: usize = 0;
    assert(links@.skip(0) =~= links@);
    while i < links.len()
        invariant
            i <= links.len(),
            address_of_link(links@, link) == address_of_link(links@.skip(i as int), link),
        decreases links.len() - i,
    {
        assert(links@.skip(i as int)[0] == links@[i as int]);
        assert(links@.skip(i as int).skip(1) =~= links@.skip(i + 1));
        if links[i].1 == link {
            return PeerRateKey::Peer(links[i].0);
        }
        i += 1;
    }
    PeerRateKey::PreAuth
}

/// A key's frame touches no other key's window: one that is still tracked afterwards is as it
/// was, and below the sweeping mark none is dropped. So one peer's flood never spends another's
/// budget.
pub proof fn law_other_windows_untouched(
    before: RateMap,
    key: Option<Seq<u8>>,
    now: u64,
    after: RateMap,
    allowed: bool,
    other: Option<Seq<u8>>,
)
    requires
        charged(before, key, now, after, allowed),
        other != key,
    ensures
        after.contains_key(other) ==> before.contains_key(other) && after[other] == before[other],
        before.len() <= PEER_RATE_SWEEP_AT ==> (before.contains_key(other)
            ==> after.contains_key(other)),
{
    let kept = choose|kept: RateMap| #[trigger]
        charged_keeping(before, kept, key, now, after, allowed);
    let clean = swept(before, now);
    if after.contains_key(other) {
        assert(kept.contains_key(other));
        assert(clean.contains_key(other) && clean[other] == kept[other]);
    }
}

/// What another key sent just before makes no difference to a key's verdict, below the sweeping
/// mark: the fairness between peers.
pub proof fn law_verdicts_are_independent(
    before: RateMap,
    other: Option<Seq<u8>>,
    earlier: u64,
    between: RateMap,
    other_allowed: bool,
    key: Option<Seq<u8>>,
    now: u64,
    after: RateMap,
    allowed: bool,
    alone: RateMap,
    allowed_alone: bool,
)
    requires
        before.dom().finite(),
        before.len() < PEER_RATE_SWEEP_AT,
        charged(before, other, earlier, between, other_allowed),
        charged(between, key, now, after, allowed),
        charged(before, key, now, alone, allowed_alone),
        key != other,
    ensures
        allowed == allowed_alone,
        after[key] == alone[key],
{
    let kept = choose|kept: RateMap| #[trigger]
        charged_keeping(before, kept, other, earlier, between, other_allowed);
    assert(kept == before);
    assert(between.len() <= before.len() + 1);
}

/// The frame itself is always counted, also where it is shed.
pub proof fn law_every_frame_is_counted(
    before: RateMap,
    key: Option<Seq<u8>>,
    now: u64,
    after: RateMap,
    allowed: bool,
)
    requires
        charged(before, key, now, after, allowed),
    ensures
        after.contains_key(key),
        after[key].msgs >= 1,
        !window_over(after[key].start_ms, now),
        allowed == (after[key].msgs <= budget_of(key)),
{
}

/// The bucket that all unauthenticated links share is larger than any one address's budget.
pub proof fn law_preauth_budget_is_larger(addr: Seq<u8>)
    ensures
        budget_of(None) > budget_of(Some(addr)),
{
}

/// How many of `keys` are `key`.
pub open spec fn times_charged(keys: Seq<Option<Seq<u8>>>, key: Option<Seq<u8>>) -> nat
    decreases keys.len(),
{
    if keys.len() == 0 {
        0
    } else {
        times_charged(keys.drop_last(), key) + if keys.last() == key {
            1nat
        } else {
            0nat
        }
    }
}

/// `states` are the maps before, between and after frames of `keys` at `times`, in turn;
/// `verdicts` says which were within budget.
pub open spec fn charging_run(
    states: Seq<RateMap>,
    keys: Seq<Option<Seq<u8>>>,
    times: Seq<u64>,
    verdicts: Seq<bool>,
) -> bool {
    &&& states.len() == keys.len() + 1
    &&& times.len() == keys.len()
    &&& verdicts.len() == keys.len()
    &&& forall|i: int|
        0 <= i < keys.len() ==> charged(
            #[trigger] states[i],
            keys[i],
            times[i],
            states[i + 1],
            verdicts[i],
        )
}

/// What holds of `key`'s window after the first `n` frames of a run within one window.
proof fn lemma_run_counts(
    states: Seq<RateMap>,
    keys: Seq<Option<Seq<u8>>>,
    times: Seq<u64>,
    verdicts: Seq<bool>,
    key: Option<Seq<u8>>,
    start: u64,
    n: int,
)
    requires
        charging_run(states, keys, times, verdicts),
        !states[0].contains_key(key) || window_over(states[0][key].start_ms, start),
        forall|i: int| 0 <= i < times.len() ==> start <= #[trigger] times[i] < start
            + PEER_RATE_WINDOW_MS,
        forall|i: int|
            0 <= i < keys.len() ==> swept(#[trigger] states[i], times[i]).len()
                < MAX_PEER_RATE_KEYS,
        times_charged(keys, key) < u32::MAX,
        0 <= n <= keys.len(),
    ensures
        times_charged(keys.take(n), key) <= times_charged(keys, key),
        times_charged(keys.take(n), key) == 0 ==> !states[n].contains_key(key) || window_over(
            states[n][key].start_ms,
            start,
        ),
        times_charged(keys.take(n), key) > 0 ==> states[n].contains_key(key)
            && states[n][key].msgs == times_charged(keys.take(n), key) && start
            <= states[n][key].start_ms < start + PEER_RATE_WINDOW_MS,
    decreases n,
{
    lemma_charges_grow(keys, key, n);
    if n > 0 {
        let i = n - 1;
        lemma_run_counts(states, keys, times, verdicts, key, start, i);
        lemma_charges_grow(keys, key, i);
        assert(keys.take(n).drop_last() =~= keys.take(i));
        assert(keys.take(n).last() == keys[i]);
        let (before, after, now) = (states[i], states[i + 1], times[i]);
        assert(charged(before, keys[i], now, after, verdicts[i]));
        let kept = choose|kept: RateMap| #[trigger]
            charged_keeping(before, kept, keys[i], now, after, verdicts[i]);
        assert(kept == swept(before, now));
        assert(states[n] == after);
    }
}

proof fn lemma_charges_grow(keys: Seq<Option<Seq<u8>>>, key: Option<Seq<u8>>, n: int)
    requires
        0 <= n <= keys.len(),
    ensures
        times_charged(keys.take(n), key) <= times_charged(keys, key),
    decreases keys.len() - n,
{
    if n < keys.len() {
        lemma_charges_grow(keys, key, n + 1);
        assert(keys.take(n + 1).drop_last() =~= keys.take(n));
    } else {
        assert(keys.take(n) =~= keys);
    }
}

/// Within one window a key gets exactly its budget, whatever the other keys send meanwhile: its
/// frames are allowed until as many as the budget have been counted, and shed from then on.
///
/// The run begins with a fresh window for the key, and stays below the hard ceiling on tracked
/// keys; at the ceiling an eviction may start a key's window anew.
pub proof fn law_exactly_the_budget_per_window(
    states: Seq<RateMap>,
    keys: Seq<Option<Seq<u8>>>,
    times: Seq<u64>,
    verdicts: Seq<bool>,
    key: Option<Seq<u8>>,
    start: u64,
    n: int,
)
    requires
        charging_run(states, keys, times, verdicts),
        !states[0].contains_key(key) || window_over(states[0][key].start_ms, start),
        forall|i: int| 0 <= i < times.len() ==> start <= #[trigger] times[i] < start
            + PEER_RATE_WINDOW_MS,
        forall|i: int|
            0 <= i < keys.len() ==> swept(#[trigger] states[i], times[i]).len()
                < MAX_PEER_RATE_KEYS,
        times_charged(keys, key) < u32::MAX,
        0 <= n < keys.len(),
        keys[n] == key,
    ensures
        verdicts[n] == (times_charged(keys.take(n), key) < budget_of(key)),
{
    lemma_run_counts(states, keys, times, verdicts, key, start, n);
    lemma_run_counts(states, keys, times, verdicts, key, start, n + 1);
    assert(keys.take(n + 1).drop_last() =~= keys.take(n));
    assert(charged(states[n], keys[n], times[n], states[n + 1], verdicts[n]));
    law_every_frame_is_counted(states[n], key, times[n], states[n + 1], verdicts[n]);
}

/// Once a key's window is over, its next frame is allowed again and begins a new window.
pub proof fn law_a_new_window_resets_the_budget(
    before: RateMap,
    key: Option<Seq<u8>>,
    now: u64,
    after: RateMap,
    allowed: bool,
)
    requires
        charged(before, key, now, after, allowed),
        before.contains_key(key),
        window_over(before[key].start_ms, now),
    ensures
        allowed,
        after[key] == (PeerRateWindow { start_ms: now, msgs: 1 }),
{
    let kept = choose|kept: RateMap| #[trigger]
        charged_keeping(before, kept, key, now, after, allowed);
    if kept.contains_key(key) {
        assert(swept(before, now).contains_key(key));
    }
}

/// The key follows the address, not the link: an address that comes back on another link is
/// charged to the same budget, and links without one all share a bucket.
pub proof fn law_key_follows_the_address(
    links: Seq<(PubKeyBytes, u64)>,
    i: int,
    j: int,
)
    requires
        0 <= i < links.len(),
        0 <= j < links.len(),
        links[i].0@ == links[j].0@,
        forall|a: int, b: int|
            #![trigger links[a], links[b]]
            0 <= a < links.len() && 0 <= b < links.len() && links[a].1 == links[b].1 ==> a == b,
    ensures
        address_of_link(links, links[i].1) == Some(links[i].0@),
        address_of_link(links, links[i].1) == address_of_link(links, links[j].1),
{
    lemma_address_of_link(links, i);
    lemma_address_of_link(links, j);
}

proof fn lemma_address_of_link(links: Seq<(PubKeyBytes, u64)>, i: int)
    requires
        0 <= i < links.len(),
        forall|a: int, b: int|
            #![trigger links[a], links[b]]
            0 <= a < links.len() && 0 <= b < links.len() && links[a].1 == links[b].1 ==> a == b,
    ensures
        address_of_link(links, links[i].1) == Some(links[i].0@),
    decreases links.len(),
{
    if i > 0 {
        let rest = links.skip(1);
        assert(links[0].1 != links[i].1);
        assert(rest[i - 1] == links[i]);
        assert forall|a: int, b: int|
            #![trigger rest[a], rest[b]]
            0 <= a < rest.len() && 0 <= b < rest.len() && rest[a].1 == rest[b].1 implies a == b by {
            let (x, y) = (links[a + 1], links[b + 1]);
        }
        lemma_address_of_link(rest, i - 1);
    }
}

/// A link that no handshake has named is charged to the shared bucket, whatever its number.
pub proof fn law_unauthenticated_links_share_a_bucket(links: Seq<(PubKeyBytes, u64)>, link: u64)
    requires
        forall|i: int| 0 <= i < links.len() ==> (#[trigger] links[i]).1 != link,
    ensures
        address_of_link(links, link) is None,
    decreases links.len(),
{
    if links.len() > 0 {
        let rest = links.skip(1);
        let first = links[0];
        assert forall|i: int| 0 <= i < rest.len() implies (#[trigger] rest[i]).1 != link by {
            let e = links[i + 1];
        }
        law_unauthenticated_links_share_a_bucket(rest, link);
    }
}

/// What a frame is charged, in numbers. A key's window lasts ten seconds; in it an address may hand
/// over three hundred frames, and all that have no address yet three thousand. With at most ten
/// thousand keys every other window stays as it was; above that, windows that are over leave; and
/// only where twenty thousand are left, the oldest leave, down to ten thousand.
pub proof fn law_what_a_frame_is_charged(
    before: RateMap,
    key: Option<Seq<u8>>,
    now: u64,
    after: RateMap,
    allowed: bool,
)
    requires
        charged(before, key, now, after, allowed),
    ensures
        ({
            let fresh = !before.contains_key(key) || now >= before[key].start_ms + 10_000;
            let limit = if key is None {
                3_000int
            } else {
                300int
            };
            let one = PeerRateWindow { start_ms: now, msgs: 1 };
            let more = PeerRateWindow {
                start_ms: before[key].start_ms,
                msgs: if before[key].msgs == 0xffff_ffff {
                    0xffff_ffff
                } else {
                    (before[key].msgs + 1) as u32
                },
            };
            let live = before.dom().filter(|k| now < before[k].start_ms + 10_000);
            &&& fresh ==> allowed && after[key] == one
            &&& !fresh ==> after[key] == one && allowed || after[key] == more && (allowed
                <==> before[key].msgs < limit)
            &&& fresh || before[key].msgs < limit ==> allowed
            &&& after.contains_key(key)
            &&& before.len() <= 10_000 ==> after == before.insert(
                key,
                if fresh {
                    one
                } else {
                    more
                },
            )
            &&& before.len() > 10_000 && live.len() < 20_000 ==> {
                &&& after.dom() == live.insert(key)
                &&& !fresh ==> after[key] == more
            }
            &&& before.len() > 10_000 && live.len() >= 20_000 ==> {
                &&& after.dom().subset_of(live.insert(key))
                &&& 10_000 <= after.len() <= 10_001
                &&& forall|a: Option<Seq<u8>>, b: Option<Seq<u8>>|
                    a != key && b != key && #[trigger] after.contains_key(a) && live.contains(b)
                        && !#[trigger] after.contains_key(b) ==> before[a].start_ms
                        >= before[b].start_ms
            }
            &&& forall|other: Option<Seq<u8>>|
                other != key && #[trigger] after.contains_key(other) ==> after[other]
                    == before[other]
        }),
{
    let kept = choose|kept: RateMap| #[trigger]
        charged_keeping(before, kept, key, now, after, allowed);
    let live = before.dom().filter(|k| now < before[k].start_ms + 10_000);
    let clean = swept(before, now);
    if before.len() > 10_000 {
        assert(clean.dom() =~= live);
    }
    assert forall|k: Option<Seq<u8>>| #[trigger] kept.contains_key(k) implies clean.contains_key(k)
        && kept[k] == before[k] by {
        assert(kept.dom().contains(k));
        assert(clean.contains_key(k) && clean[k] == kept[k]);
    }
    if clean.len() >= 20_000 {
        assert(kept.dom().len() == 10_000);
    }
    if before.len() > 10_000 && live.len() < 20_000 {
        assert(after.dom() =~= live.insert(key));
    }
}

/// A link is charged to the first address that is named with it, wherever in the list that stands.
pub proof fn law_the_first_name_of_a_link_counts(
    before: Seq<(PubKeyBytes, u64)>,
    addr: PubKeyBytes,
    link: u64,
    rest: Seq<(PubKeyBytes, u64)>,
)
    requires
        forall|i: int| 0 <= i < before.len() ==> (#[trigger] before[i]).1 != link,
    ensures
        address_of_link(before + seq![(addr, link)] + rest, link) == Some(addr@),
    decreases before.len(),
{
    let all = before + seq![(addr, link)] + rest;
    if before.len() > 0 {
        assert(all[0] == before[0]);
        assert(all.skip(1) =~= before.skip(1) + seq![(addr, link)] + rest);
        assert forall|i: int| 0 <= i < before.skip(1).len() implies (
        #[trigger] before.skip(1)[i]).1 != link by {
            assert(before[i + 1].1 != link);
        }
        law_the_first_name_of_a_link_counts(before.skip(1), addr, link, rest);
    } else {
        assert(all[0] == (addr, link));
    }
}

/// Whose budget a frame is charged to is told by the address alone: two addresses never share one,
/// nor does an address share the bucket of those that have none.
pub proof fn law_every_address_has_its_own_budget(a: PubKeyBytes, b: PubKeyBytes)
    ensures
        PeerRateKey::Peer(a)@ == Some(a@),
        PeerRateKey::PreAuth@ is None,
        PeerRateKey::Peer(a)@ == PeerRateKey::Peer(b)@ <==> a@ == b@,
{
}

/// What is allowed, of the call itself: a key's frames, until three hundred of an address, or three
/// thousand of those without one, were counted in ten seconds.
pub proof fn law_frames_are_allowed_up_to_the_budget(
    rates: &mut PeerRates,
    key: PeerRateKey,
    now: u64,
    allowed: bool,
)
    requires
        old(rates).wf(),
        call_ensures(peer_data_allowed, (rates, key, now), allowed),
    ensures
        ({
            let (before, after) = (old(rates)@, final(rates)@);
            let fresh = !before.contains_key(key@) || now >= before[key@].start_ms + 10_000;
            let limit = if key is PreAuth {
                3_000int
            } else {
                300int
            };
            &&& fresh || before[key@].msgs < limit ==> allowed
            &&& before.len() <= 10_000 && !fresh && before[key@].msgs >= limit ==> !allowed
            &&& fresh ==> after[key@].start_ms == now && after[key@].msgs == 1
            &&& before.len() <= 10_000 && !fresh ==> after[key@].start_ms == before[key@].start_ms
                && (before[key@].msgs < 0xffff_ffff ==> after[key@].msgs == before[key@].msgs + 1)
        }),
{
    law_what_a_frame_is_charged(old(rates)@, key@, now, final(rates)@, allowed);
}

} // verus!
