//! The durable blind-spool mailbox: what is spooled under a tag, and what is pulled back.
//!
//! A private bundle that has no route is spooled under its recipient's mailbox tag; when the
//! recipient asks for that tag, whatever is held under it is pulled, ingested once, and its
//! spool copy deleted. Dedup tables, keyed by the bundle and holding its expiry, carry what has
//! been done from one cycle to the next.

use vstd::prelude::*;

use crate::base58::{bs58_text, law_base58_tells_bytes_apart};
use crate::identity::{bs58_addr, encodable};
use crate::keys::BundleId;
use crate::lines::{
    failure_line, operator_views, pull_line, pull_text, spool_line, spool_text, OperatorLine,
};
use crate::table::{evicted, live_part, Aged, Table, TableKey};

verus! {

/// How many entries a dedup table keeps at most.
pub const DEDUP_CAP: usize = 100_000;

/// A table of what has been done, each entry with the expiry of its bundle (`0`: never).
pub type Dedup<K> = Table<K, u64>;

/// Drops the entries whose bundle has expired at `now_ms`; where more than [`DEDUP_CAP`] are
/// left, drops the surplus that is nearest to expiry.
pub fn evict_expired<K: TableKey>(map: &mut Dedup<K>, now_ms: u64)
    requires
        old(map).wf(),
    ensures
        final(map).wf(),
        evicted_expired(old(map)@, now_ms, final(map)@),
        final(map)@.dom().finite(),
        final(map)@.len() <= DEDUP_CAP,
{
    map.drop_stale(now_ms);
    let n: usize = map.len();
    if n > DEDUP_CAP {
        map.evict_lowest(n - DEDUP_CAP);
    }
}

/// `after` is what [`evict_expired`] leaves of `before`.
pub open spec fn evicted_expired<K>(before: Map<K, u64>, now_ms: u64, after: Map<K, u64>) -> bool {
    let live = live_part(before, now_ms);
    if live.len() > DEDUP_CAP {
        evicted(live, after, (live.len() - DEDUP_CAP) as nat)
    } else {
        after == live
    }
}

/// Whether a store took a bundle, and where it did not, why.
pub type Taken = Result<(), Seq<char>>;

/// A call of a [`MailboxStore`], with its answer. Tags are in base58.
pub enum StoreCall {
    /// A bundle was given to the store: its tag, id, bytes and expiry, and whether it was taken.
    Spool(Seq<char>, Seq<u8>, Seq<u8>, u64, Taken),
    /// The store was asked what it holds under a tag: each bundle's bytes and expiry, or why it
    /// could not tell.
    List(Seq<char>, Result<Seq<(Seq<u8>, u64)>, Seq<char>>),
    /// The store was told to forget a bundle: its tag and id, and whether that was done.
    Delete(Seq<char>, Seq<u8>, bool),
}

/// Whether a store took a bundle, by what it returned.
pub open spec fn taken(res: Result<(), String>) -> Taken {
    match res {
        Ok(_) => Ok(()),
        Err(e) => Err(e@),
    }
}

/// What a listing holds, or why there is none.
pub open spec fn listing(res: Result<Vec<(Vec<u8>, u64)>, String>) -> Result<
    Seq<(Seq<u8>, u64)>,
    Seq<char>,
> {
    match res {
        Ok(v) => Ok(v@.map_values(|e: (Vec<u8>, u64)| (e.0@, e.1))),
        Err(e) => Err(e@),
    }
}

/// What is held under mailbox tags somewhere durable. Tags are given in base58.
///
/// The methods promise nothing of what is held: a store may fail at any time. They say only that
/// a call is one call, so that a function can state which calls it makes.
pub trait MailboxStore {
    /// The calls made so far, in order, with their answers. A store that is not itself verified
    /// keeps no such record, and need not say what it is.
    open spec fn calls(&self) -> Seq<StoreCall> {
        arbitrary()
    }

    /// Holds `data`, the bundle `id`, under the tag until it expires.
    fn spool_to_mailbox(
        &mut self,
        tag_b58: &str,
        id: &BundleId,
        data: &[u8],
        expires_at: u64,
    ) -> (res: Result<(), String>)
        ensures
            final(self).calls() == old(self).calls().push(
                StoreCall::Spool(tag_b58@, id@, data@, expires_at, taken(res)),
            ),
    ;

    /// Everything held under the tag: each bundle's bytes and expiry.
    fn list_mailbox(&mut self, tag_b58: &str) -> (res: Result<Vec<(Vec<u8>, u64)>, String>)
        ensures
            final(self).calls() == old(self).calls().push(
                StoreCall::List(tag_b58@, listing(res)),
            ),
    ;

    /// Forgets the bundle `id` under the tag.
    fn delete_mailbox_bundle(&mut self, tag_b58: &str, id: &BundleId) -> (res: Result<(), String>)
        ensures
            final(self).calls() == old(self).calls().push(
                StoreCall::Delete(tag_b58@, id@, res is Ok),
            ),
    ;
}

/// A bundle to spool: its id, its recipient's mailbox tag, its bytes and its expiry.
pub type SpoolItem<const N: usize> = (BundleId, [u8; N], Vec<u8>, u64);

/// What has been spooled: id and tag, with the expiry.
pub type SpoolMap = Map<(Seq<u8>, Seq<u8>), u64>;

/// The id and tag that a bundle's spooling is remembered by.
pub open spec fn spool_key<const N: usize>(item: SpoolItem<N>) -> (Seq<u8>, Seq<u8>) {
    (item.0@, item.1@)
}

/// What is remembered once the bundles of `spool` have had their turn, where `stored` tells for
/// each whether the store took it. One that is already remembered is not given to the store, and
/// takes the newer expiry; one that the store refused is forgotten, so a later cycle retries.
pub open spec fn spooled_after<const N: usize>(
    before: SpoolMap,
    spool: Seq<SpoolItem<N>>,
    stored: Seq<Taken>,
) -> SpoolMap
    decreases spool.len(),
{
    if spool.len() == 0 {
        before
    } else {
        let m = spooled_after(before, spool.drop_last(), stored);
        let (key, expires) = (spool_key(spool.last()), spool.last().3);
        if m.contains_key(key) || stored[spool.len() - 1] is Ok {
            m.insert(key, expires)
        } else {
            m
        }
    }
}

/// Is the `i`-th bundle of `spool` given to the store?
pub open spec fn spool_due_at<const N: usize>(
    before: SpoolMap,
    spool: Seq<SpoolItem<N>>,
    stored: Seq<Taken>,
    i: int,
) -> bool {
    !spooled_after(before, spool.take(i), stored).contains_key(spool_key(spool[i]))
}

/// The call that gives a bundle to the store, answered `stored`.
pub open spec fn spool_call<const N: usize>(item: SpoolItem<N>, stored: Taken) -> StoreCall {
    StoreCall::Spool(bs58_text(item.1@), item.0@, item.2@, item.3, stored)
}

/// The calls that spool the bundles of `spool`: one for each that is not remembered when its turn
/// comes.
pub open spec fn spool_calls<const N: usize>(
    before: SpoolMap,
    spool: Seq<SpoolItem<N>>,
    stored: Seq<Taken>,
) -> Seq<StoreCall>
    decreases spool.len(),
{
    if spool.len() == 0 {
        Seq::empty()
    } else {
        let rest = spool_calls(before, spool.drop_last(), stored);
        let n = spool.len() - 1;
        if spooled_after(before, spool.drop_last(), stored).contains_key(spool_key(spool[n])) {
            rest
        } else {
            rest.push(spool_call(spool[n], stored[n]))
        }
    }
}

/// Something that a mailbox held: its bytes, its expiry, and its id where the bytes are a bundle.
pub type Held = (Seq<u8>, u64, Option<Seq<u8>>);

/// What has been pulled: id, with the expiry.
pub type PullMap = Map<Seq<u8>, u64>;

/// What is remembered as pulled, and what is ingested (id and bytes), once everything in `held`
/// has had its turn. What is no bundle is passed over; a bundle that is already remembered is not
/// ingested again, and takes the newer expiry.
pub open spec fn pull_all(before: PullMap, held: Seq<Held>) -> (PullMap, Seq<(Seq<u8>, Seq<u8>)>)
    decreases held.len(),
{
    if held.len() == 0 {
        (before, Seq::empty())
    } else {
        let (m, got) = pull_all(before, held.drop_last());
        let (bytes, expires, id) = held.last();
        match id {
            None => (m, got),
            Some(id) => (
                m.insert(id, expires),
                if m.contains_key(id) {
                    got
                } else {
                    got.push((id, bytes))
                },
            ),
        }
    }
}

/// The bytes of what is ingested.
pub open spec fn ingested_bytes(got: Seq<(Seq<u8>, Seq<u8>)>) -> Seq<Seq<u8>> {
    got.map_values(|e: (Seq<u8>, Seq<u8>)| e.1)
}

/// The views of byte vectors.
pub open spec fn byte_views(v: Seq<Vec<u8>>) -> Seq<Seq<u8>> {
    v.map_values(|b: Vec<u8>| b@)
}

/// The id of `bytes` that `id_of` gave, where it gave one.
pub open spec fn id_given<F: Fn(&Vec<u8>) -> Option<BundleId>>(
    id_of: F,
    bytes: Seq<u8>,
    id: Option<Seq<u8>>,
) -> bool {
    exists|b: Vec<u8>, r: Option<BundleId>| #[trigger]
        call_ensures(id_of, (&b,), r) && b@ == bytes && match r {
            Some(x) => id == Some(x@),
            None => id is None,
        }
}

/// `held` stands for the entry `e` of a listing.
pub open spec fn stands_for<F: Fn(&Vec<u8>) -> Option<BundleId>>(
    id_of: F,
    e: (Vec<u8>, u64),
    held: Held,
) -> bool {
    held.0 == e.0@ && held.1 == e.1 && id_given(id_of, held.0, held.2)
}

/// What was read of a mailbox: what it held, or why the store could not tell.
pub type Read = Result<Seq<Held>, Seq<char>>;

/// What the store listed.
pub open spec fn listed_as(read: Read) -> Result<Seq<(Seq<u8>, u64)>, Seq<char>> {
    match read {
        Ok(held) => Ok(held.map_values(|h: Held| (h.0, h.1))),
        Err(e) => Err(e),
    }
}

/// What a mailbox held: nothing that is known of, where the store could not tell.
pub open spec fn held_in(read: Read) -> Seq<Held> {
    match read {
        Ok(held) => held,
        Err(_) => Seq::empty(),
    }
}

/// The calls that delete the spool copies of what a mailbox held: one for each entry that is a
/// bundle, fresh or not, where `deleted` tells for each entry how that was answered.
pub open spec fn delete_calls(tag: Seq<u8>, held: Seq<Held>, deleted: Seq<bool>) -> Seq<StoreCall>
    decreases held.len(),
{
    if held.len() == 0 {
        Seq::empty()
    } else {
        let rest = delete_calls(tag, held.drop_last(), deleted.drop_last());
        match held.last().2 {
            Some(id) => rest.push(StoreCall::Delete(bs58_text(tag), id, deleted.last())),
            None => rest,
        }
    }
}

/// The calls that read one mailbox: it is listed once, then what it held is deleted.
pub open spec fn read_calls(
    tag: Seq<u8>,
    read: Read,
    deleted: Seq<bool>,
) -> Seq<StoreCall> {
    seq![StoreCall::List(bs58_text(tag), listed_as(read))] + delete_calls(
        tag,
        held_in(read),
        deleted,
    )
}

/// The calls that read the `wanted` mailboxes, one after the other.
pub open spec fn pull_calls<const N: usize>(
    wanted: Seq<[u8; N]>,
    reads: Seq<Read>,
    deleted: Seq<Seq<bool>>,
) -> Seq<StoreCall>
    decreases wanted.len(),
{
    if wanted.len() == 0 {
        Seq::empty()
    } else {
        pull_calls(wanted.drop_last(), reads.drop_last(), deleted.drop_last()) + read_calls(
            wanted.last()@,
            reads.last(),
            deleted.last(),
        )
    }
}

/// Are the ids in `read` those that `id_of` gave, and is there one answer for each entry?
pub open spec fn read_answers<F: Fn(&Vec<u8>) -> Option<BundleId>>(
    id_of: F,
    read: Read,
    deleted: Seq<bool>,
) -> bool {
    &&& deleted.len() == held_in(read).len()
    &&& forall|j: int|
        0 <= j < held_in(read).len() ==> id_given(
            id_of,
            (#[trigger] held_in(read)[j]).0,
            held_in(read)[j].2,
        )
}

/// Are these answers of a round: for each bundle to spool whether the store took it, for each
/// wanted tag what was read under it, and for each entry of that whether its deletion was done?
pub open spec fn round_answers<F: Fn(&Vec<u8>) -> Option<BundleId>, const N: usize>(
    id_of: F,
    spool: Seq<SpoolItem<N>>,
    wanted: Seq<[u8; N]>,
    stored: Seq<Taken>,
    reads: Seq<Read>,
    deleted: Seq<Seq<bool>>,
) -> bool {
    &&& stored.len() == spool.len()
    &&& reads.len() == wanted.len()
    &&& deleted.len() == wanted.len()
    &&& forall|i: int|
        0 <= i < wanted.len() ==> read_answers(id_of, #[trigger] reads[i], deleted[i])
}

/// All that was read, tag after tag.
pub open spec fn joined(reads: Seq<Read>) -> Seq<Held>
    decreases reads.len(),
{
    if reads.len() == 0 {
        Seq::empty()
    } else {
        joined(reads.drop_last()) + held_in(reads.last())
    }
}

/// The operator's lines on the bundles of `spool`: one for each that is given to the store.
pub open spec fn spool_lines<const N: usize>(
    before: SpoolMap,
    spool: Seq<SpoolItem<N>>,
    stored: Seq<Taken>,
) -> Seq<(bool, Seq<char>)>
    decreases spool.len(),
{
    if spool.len() == 0 {
        Seq::empty()
    } else {
        let rest = spool_lines(before, spool.drop_last(), stored);
        let n = spool.len() - 1;
        if spooled_after(before, spool.drop_last(), stored).contains_key(spool_key(spool[n])) {
            rest
        } else {
            let error = match stored[n] {
                Ok(_) => None,
                Err(e) => Some(e),
            };
            rest.push((true, spool_text(spool[n].0@, bs58_text(spool[n].1@), error)))
        }
    }
}

/// The operator's lines on what a mailbox held: one for each bundle that is ingested.
pub open spec fn fresh_lines(before: PullMap, tag: Seq<u8>, held: Seq<Held>) -> Seq<
    (bool, Seq<char>),
>
    decreases held.len(),
{
    if held.len() == 0 {
        Seq::empty()
    } else {
        let rest = fresh_lines(before, tag, held.drop_last());
        match held.last().2 {
            Some(id) => if pull_all(before, held.drop_last()).0.contains_key(id) {
                rest
            } else {
                rest.push((true, pull_text(id, bs58_text(tag))))
            },
            None => rest,
        }
    }
}

/// The operator's lines on one mailbox.
pub open spec fn read_lines(before: PullMap, tag: Seq<u8>, read: Read) -> Seq<(bool, Seq<char>)> {
    match read {
        Ok(held) => fresh_lines(before, tag, held),
        Err(e) => seq![(false, "spool: list_mailbox"@ + " failed: "@ + e)],
    }
}

/// The operator's lines on the `wanted` mailboxes, one after the other.
pub open spec fn pull_lines<const N: usize>(
    before: PullMap,
    wanted: Seq<[u8; N]>,
    reads: Seq<Read>,
) -> Seq<(bool, Seq<char>)>
    decreases wanted.len(),
{
    if wanted.len() == 0 {
        Seq::empty()
    } else {
        let rest = reads.drop_last();
        pull_lines(before, wanted.drop_last(), rest) + read_lines(
            pull_all(before, joined(rest)).0,
            wanted.last()@,
            reads.last(),
        )
    }
}

/// Is the bundle to be given to the store? It is remembered from now on, with its expiry.
pub fn spool_due<const N: usize>(
    spooled: &mut Dedup<(BundleId, [u8; N])>,
    id: &BundleId,
    tag: &[u8; N],
    expires: u64,
) -> (due: bool)
    requires
        old(spooled).wf(),
    ensures
        final(spooled).wf(),
        due == !old(spooled)@.contains_key((id@, tag@)),
        final(spooled)@ == old(spooled)@.insert((id@, tag@), expires),
{
    spooled.insert((*id, *tag), expires).is_none()
}

/// Settles a bundle that was given to the store: where the store refused it, it is forgotten, so
/// that a later cycle retries.
pub fn spool_settled<const N: usize>(
    spooled: &mut Dedup<(BundleId, [u8; N])>,
    id: &BundleId,
    tag: &[u8; N],
    stored: bool,
)
    requires
        old(spooled).wf(),
    ensures
        final(spooled).wf(),
        final(spooled)@ == if stored {
            old(spooled)@
        } else {
            old(spooled)@.remove((id@, tag@))
        },
{
    if !stored {
        spooled.remove(&(*id, *tag));
    }
}

/// Is the bundle `id` to be ingested? It is remembered from now on, with its expiry.
pub fn pull_fresh(pulled: &mut Dedup<BundleId>, id: &BundleId, expires: u64) -> (fresh: bool)
    requires
        old(pulled).wf(),
    ensures
        final(pulled).wf(),
        fresh == !old(pulled)@.contains_key(id@),
        final(pulled)@ == old(pulled)@.insert(id@, expires),
{
    pulled.insert(*id, expires).is_none()
}

proof fn lemma_spooled_after_prefix<const N: usize>(
    before: SpoolMap,
    spool: Seq<SpoolItem<N>>,
    a: Seq<Taken>,
    b: Seq<Taken>,
)
    requires
        spool.len() <= a.len(),
        spool.len() <= b.len(),
        forall|i: int| 0 <= i < spool.len() ==> a[i] == b[i],
    ensures
        spooled_after(before, spool, a) == spooled_after(before, spool, b),
        spool_calls(before, spool, a) == spool_calls(before, spool, b),
        spool_lines(before, spool, a) == spool_lines(before, spool, b),
    decreases spool.len(),
{
    if spool.len() > 0 {
        lemma_spooled_after_prefix(before, spool.drop_last(), a, b);
    }
}

/// Gives the store each bundle of `spool` that has not been spooled yet; returns the operator's
/// lines on that.
fn spool_phase<M: MailboxStore, const N: usize>(
    store: &mut M,
    spool: &[SpoolItem<N>],
    spooled: &mut Dedup<(BundleId, [u8; N])>,
) -> (lines: Vec<OperatorLine>)
    requires
        old(spooled).wf(),
        encodable(N as nat),
    ensures
        final(spooled).wf(),
        exists|stored: Seq<Taken>|
            stored.len() == spool@.len() && final(store).calls() == old(store).calls()
                + #[trigger] spool_calls(old(spooled)@, spool@, stored) && final(spooled)@
                == spooled_after(old(spooled)@, spool@, stored) && operator_views(lines@)
                == spool_lines(old(spooled)@, spool@, stored),
{
    let ghost before = spooled@;
    let ghost made = store.calls();
    let ghost mut stored = Seq::<Taken>::empty();
    let mut lines: Vec<OperatorLine> = Vec::new();
    let mut i: usize = 0;
    assert(spool@.take(0) =~= Seq::<SpoolItem<N>>::empty());
    assert(made =~= made + spool_calls(before, spool@.take(0), stored));
    assert(operator_views(lines@) =~= spool_lines(before, spool@.take(0), stored));
    while i < spool.len()
        invariant
            i <= spool.len(),
            encodable(N as nat),
            spooled.wf(),
            stored.len() == i,
            spooled@ == spooled_after(before, spool@.take(i as int), stored),
            store.calls() == made + spool_calls(before, spool@.take(i as int), stored),
            operator_views(lines@) == spool_lines(before, spool@.take(i as int), stored),
        decreases spool.len() - i,
    {
        let (id, tag, bytes, expires) = (&spool[i].0, &spool[i].1, &spool[i].2, spool[i].3);
        let ghost was = stored;
        let ghost said = lines@;
        let due = spool_due(spooled, id, tag, expires);
        let ghost mut kept: Taken = Ok(());
        if due {
            let tag_b58 = bs58_addr(tag.as_slice());
            let res = store.spool_to_mailbox(tag_b58.as_str(), id, bytes.as_slice(), expires);
            proof {
                kept = taken(res);
            }
            spool_settled(spooled, id, tag, res.is_ok());
            let error: Option<&str> = match &res {
                Ok(_) => None,
                Err(e) => Some(e.as_str()),
            };
            let text = spool_line(id, tag_b58.as_str(), error);
            let ghost line = (true, text@);
            lines.push(OperatorLine { timed: true, text });
            assert(operator_views(lines@) =~= operator_views(said).push(line));
        }
        proof {
            stored = was.push(kept);
            let done = spool@.take(i as int);
            assert(spool@.take(i + 1).drop_last() =~= done);
            assert(spool@.take(i + 1).last() == spool@[i as int]);
            lemma_spooled_after_prefix(before, done, was, stored);
            assert(spooled@ =~= spooled_after(before, spool@.take(i + 1), stored));
            assert(store.calls() =~= made + spool_calls(before, spool@.take(i + 1), stored));
            assert(operator_views(lines@) =~= spool_lines(before, spool@.take(i + 1), stored));
        }
        i += 1;
    }
    assert(spool@.take(i as int) =~= spool@);
    lines
}

proof fn lemma_pull_all_joins(before: PullMap, a: Seq<Held>, b: Seq<Held>)
    ensures
        pull_all(before, a + b).0 == pull_all(pull_all(before, a).0, b).0,
        pull_all(before, a + b).1 == pull_all(before, a).1 + pull_all(pull_all(before, a).0, b).1,
    decreases b.len(),
{
    if b.len() == 0 {
        assert(a + b =~= a);
    } else {
        lemma_pull_all_joins(before, a, b.drop_last());
        assert((a + b).drop_last() =~= a + b.drop_last());
        assert((a + b).last() == b.last());
        let x = pull_all(before, a + b).1;
        let y = pull_all(before, a).1 + pull_all(pull_all(before, a).0, b).1;
        assert(x =~= y);
    }
}

/// What comes of a round of the mailbox.
#[derive(Debug)]
pub struct MailboxRound {
    /// The bytes of the bundles to ingest.
    pub ingest: Vec<Vec<u8>>,
    /// Lines for the operator, in order.
    pub lines: Vec<OperatorLine>,
}

/// Reads one mailbox: pulls what is fresh, deletes the spool copy of every bundle. Returns the
/// bytes to ingest, and the operator's lines.
fn read_mailbox<M: MailboxStore, F: Fn(&Vec<u8>) -> Option<BundleId>>(
    store: &mut M,
    tag: &[u8],
    pulled: &mut Dedup<BundleId>,
    id_of: &F,
) -> (res: MailboxRound)
    requires
        old(pulled).wf(),
        encodable(tag@.len()),
        forall|b: &Vec<u8>| call_requires(*id_of, (b,)),
    ensures
        final(pulled).wf(),
        exists|read: Read, deleted: Seq<bool>| #[trigger]
            read_answers(*id_of, read, deleted) && final(store).calls() == old(store).calls()
                + read_calls(tag@, read, deleted) && final(pulled)@ == pull_all(
                old(pulled)@,
                held_in(read),
            ).0 && byte_views(res.ingest@) == ingested_bytes(
                pull_all(old(pulled)@, held_in(read)).1,
            ) && operator_views(res.lines@) == read_lines(old(pulled)@, tag@, read),
{
    let ghost before = pulled@;
    let ghost made = store.calls();
    let mut out: Vec<Vec<u8>> = Vec::new();
    let mut lines: Vec<OperatorLine> = Vec::new();
    let tag_b58 = bs58_addr(tag);
    let listing = match store.list_mailbox(tag_b58.as_str()) {
        Ok(listing) => listing,
        Err(e) => {
            lines.push(failure_line("spool: list_mailbox", e.as_str()));
            proof {
                let none: Read = Err(e@);
                assert(operator_views(lines@) =~= read_lines(before, tag@, none));
                assert(read_answers(*id_of, none, Seq::empty()));
                assert(store.calls() =~= made + read_calls(tag@, none, Seq::empty()));
                assert(byte_views(out@) =~= ingested_bytes(pull_all(before, held_in(none)).1));
            }
            return MailboxRound { ingest: out, lines };
        },
    };
    let ghost listed = listing@;
    let ghost asked = store.calls();
    let ghost mut held = Seq::<Held>::empty();
    let ghost mut deleted = Seq::<bool>::empty();
    assert(byte_views(out@) =~= ingested_bytes(pull_all(before, held).1));
    assert(asked =~= asked + delete_calls(tag@, held, deleted));
    assert(operator_views(lines@) =~= fresh_lines(before, tag@, held));
    for e in it: listing
        invariant
            it.seq() == listed,
            pulled.wf(),
            forall|b: &Vec<u8>| call_requires(*id_of, (b,)),
            tag_b58@ == bs58_text(tag@),
            held.len() == it.index(),
            deleted.len() == it.index(),
            pulled@ == pull_all(before, held).0,
            byte_views(out@) == ingested_bytes(pull_all(before, held).1),
            store.calls() == asked + delete_calls(tag@, held, deleted),
            operator_views(lines@) == fresh_lines(before, tag@, held),
            forall|j: int| 0 <= j < held.len() ==> stands_for(*id_of, listed[j], #[trigger] held[j]),
    {
        let ghost at = it.index() as int;
        let ghost (was, were) = (held, deleted);
        let ghost (seen, said) = (out@, lines@);
        assert(e == listed[at]);
        let (bytes, expires) = e;
        match id_of(&bytes) {
            Some(id) => {
                let ghost h: Held = (bytes@, expires, Some(id@));
                assert(id_given(*id_of, h.0, h.2));
                let fresh = pull_fresh(pulled, &id, expires);
                if fresh {
                    out.push(bytes);
                    let text = pull_line(&id, tag_b58.as_str());
                    let ghost line = (true, text@);
                    lines.push(OperatorLine { timed: true, text });
                    assert(operator_views(lines@) =~= operator_views(said).push(line));
                }
                let gone = store.delete_mailbox_bundle(tag_b58.as_str(), &id).is_ok();
                proof {
                    held = was.push(h);
                    deleted = were.push(gone);
                    assert(held.drop_last() =~= was && deleted.drop_last() =~= were);
                    assert(store.calls() =~= asked + delete_calls(tag@, held, deleted));
                    let (old_got, got) = (pull_all(before, was).1, pull_all(before, held).1);
                    if fresh {
                        assert(got == old_got.push((id@, h.0)));
                        assert(byte_views(out@) =~= byte_views(seen).push(h.0));
                        assert(ingested_bytes(got) =~= ingested_bytes(old_got).push(h.0));
                    } else {
                        assert(got == old_got);
                    }
                }
            },
            None => {
                proof {
                    let h: Held = (bytes@, expires, None);
                    assert(id_given(*id_of, h.0, h.2));
                    held = was.push(h);
                    deleted = were.push(false);
                    assert(held.drop_last() =~= was && deleted.drop_last() =~= were);
                }
            },
        }
    }
    proof {
        let read: Read = Ok(held);
        assert(listed_as(read)->Ok_0 =~= listed.map_values(|e: (Vec<u8>, u64)| (e.0@, e.1)));
        assert(store.calls() =~= made + read_calls(tag@, read, deleted));
        assert(read_answers(*id_of, read, deleted));
    }
    MailboxRound { ingest: out, lines }
}

/// One round of the mailbox: spools each bundle of `spool` that has not been spooled yet, under
/// its tag; for each `wanted` tag pulls what is held under it, deletes the spool copies, and
/// returns the bytes of each bundle that was not pulled before, to be ingested. Also returns the
/// operator's lines: one for each bundle that was given to the store, one for each that was pulled,
/// and one for each mailbox that could not be listed.
///
/// `id_of` gives the id of a bundle from its bytes, or `None` where they are no bundle.
pub fn process_mailbox<M: MailboxStore, F: Fn(&Vec<u8>) -> Option<BundleId>, const N: usize>(
    store: &mut M,
    spool: &[SpoolItem<N>],
    wanted: &[[u8; N]],
    spooled: &mut Dedup<(BundleId, [u8; N])>,
    pulled: &mut Dedup<BundleId>,
    id_of: F,
) -> (res: MailboxRound)
    requires
        old(spooled).wf(),
        old(pulled).wf(),
        encodable(N as nat),
        forall|b: &Vec<u8>| call_requires(id_of, (b,)),
    ensures
        final(spooled).wf(),
        final(pulled).wf(),
        exists|stored: Seq<Taken>, reads: Seq<Read>, deleted: Seq<Seq<bool>>| #[trigger]
            round_answers(id_of, spool@, wanted@, stored, reads, deleted) && final(store).calls()
                == old(store).calls() + spool_calls(old(spooled)@, spool@, stored) + pull_calls(
                wanted@,
                reads,
                deleted,
            ) && final(spooled)@ == spooled_after(old(spooled)@, spool@, stored) && final(pulled)@
                == pull_all(old(pulled)@, joined(reads)).0 && byte_views(res.ingest@)
                == ingested_bytes(pull_all(old(pulled)@, joined(reads)).1) && operator_views(
                res.lines@,
            ) == spool_lines(old(spooled)@, spool@, stored) + pull_lines(
                old(pulled)@,
                wanted@,
                reads,
            ),
{
    let ghost (remembered, made) = (spooled@, store.calls());
    let mut lines = spool_phase(store, spool, spooled);
    let ghost stored = choose|stored: Seq<Taken>|
        stored.len() == spool@.len() && store.calls() == made + #[trigger] spool_calls(
            remembered,
            spool@,
            stored,
        ) && spooled@ == spooled_after(remembered, spool@, stored) && operator_views(lines@)
            == spool_lines(remembered, spool@, stored);
    let ghost before = pulled@;
    let ghost (given, told) = (store.calls(), operator_views(lines@));
    let ghost mut reads = Seq::<Read>::empty();
    let ghost mut deleted = Seq::<Seq<bool>>::empty();
    let mut ingest: Vec<Vec<u8>> = Vec::new();
    let mut i: usize = 0;
    assert(byte_views(ingest@) =~= ingested_bytes(pull_all(before, joined(reads)).1));
    assert(given =~= given + pull_calls(wanted@.take(0), reads, deleted));
    assert(told =~= told + pull_lines(before, wanted@.take(0), reads));
    while i < wanted.len()
        invariant
            i <= wanted.len(),
            encodable(N as nat),
            pulled.wf(),
            forall|b: &Vec<u8>| call_requires(id_of, (b,)),
            reads.len() == i,
            deleted.len() == i,
            forall|j: int| 0 <= j < i ==> read_answers(id_of, #[trigger] reads[j], deleted[j]),
            store.calls() == given + pull_calls(wanted@.take(i as int), reads, deleted),
            operator_views(lines@) == told + pull_lines(before, wanted@.take(i as int), reads),
            pulled@ == pull_all(before, joined(reads)).0,
            byte_views(ingest@) == ingested_bytes(pull_all(before, joined(reads)).1),
        decreases wanted.len() - i,
    {
        let ghost (m, calls) = (pulled@, store.calls());
        let ghost (was, were) = (reads, deleted);
        let ghost (seen, said) = (ingest@, lines@);
        let mut got = read_mailbox(store, wanted[i].as_slice(), pulled, &id_of);
        let ghost (new, news) = (got.ingest@, got.lines@);
        ingest.append(&mut got.ingest);
        lines.append(&mut got.lines);
        proof {
            let (read, gone) = choose|read: Read, gone: Seq<bool>| #[trigger]
                read_answers(id_of, read, gone) && store.calls() == calls + read_calls(
                    wanted@[i as int]@,
                    read,
                    gone,
                ) && pulled@ == pull_all(m, held_in(read)).0 && byte_views(new) == ingested_bytes(
                    pull_all(m, held_in(read)).1,
                ) && operator_views(news) == read_lines(m, wanted@[i as int]@, read);
            reads = was.push(read);
            deleted = were.push(gone);
            assert(reads.drop_last() =~= was && deleted.drop_last() =~= were);
            assert(wanted@.take(i + 1).drop_last() =~= wanted@.take(i as int));
            assert(store.calls() =~= given + pull_calls(wanted@.take(i + 1), reads, deleted));
            assert(operator_views(lines@) =~= operator_views(said) + operator_views(news));
            assert(operator_views(lines@) =~= told + pull_lines(
                before,
                wanted@.take(i + 1),
                reads,
            ));
            assert(joined(reads) =~= joined(was) + held_in(read));
            lemma_pull_all_joins(before, joined(was), held_in(read));
            assert(byte_views(ingest@) =~= byte_views(seen) + byte_views(new));
            assert(ingested_bytes(pull_all(before, joined(reads)).1) =~= ingested_bytes(
                pull_all(before, joined(was)).1,
            ) + ingested_bytes(pull_all(m, held_in(read)).1));
        }
        i += 1;
    }
    assert(wanted@.take(i as int) =~= wanted@);
    assert(round_answers(id_of, spool@, wanted@, stored, reads, deleted));
    MailboxRound { ingest, lines }
}

/// An expired entry is forgotten, and one that stays is as it was; below the cap every live entry
/// stays, so nothing that was done is done again.
pub proof fn law_only_expired_entries_leave<K>(
    before: Map<K, u64>,
    now_ms: u64,
    after: Map<K, u64>,
    key: K,
)
    requires
        evicted_expired(before, now_ms, after),
        before.contains_key(key),
    ensures
        before[key] != 0 && before[key] <= now_ms ==> !after.contains_key(key),
        after.contains_key(key) ==> after[key] == before[key],
        live_part(before, now_ms).len() <= DEDUP_CAP && (before[key] == 0 || before[key] > now_ms)
            ==> after.contains_key(key),
{
    let live = live_part(before, now_ms);
    if after.contains_key(key) {
        assert(live.contains_key(key) && live[key] == after[key]);
    }
}

/// Above the cap, an entry that leaves although it is live is no further from its expiry than any
/// that stays.
pub proof fn law_the_nearest_to_expiry_leave<K>(
    before: Map<K, u64>,
    now_ms: u64,
    after: Map<K, u64>,
    gone: K,
    kept: K,
)
    requires
        evicted_expired(before, now_ms, after),
        before.contains_key(gone),
        before[gone] == 0 || before[gone] > now_ms,
        !after.contains_key(gone),
        after.contains_key(kept),
    ensures
        after[kept] == 0 || (before[gone] != 0 && before[gone] <= after[kept]) || after[kept]
            == u64::MAX,
{
    let live = live_part(before, now_ms);
    assert(live.contains_key(gone));
    assert(after.submap_of(live));
    assert(after.dom().contains(kept) && live.dom().contains(kept));
    assert(live[gone].rank() <= live[kept].rank());
}

/// No bundle is ingested twice, nor one that was already pulled; and what is ingested is
/// remembered, so no later round ingests it either.
pub proof fn law_no_bundle_is_ingested_twice(before: PullMap, held: Seq<Held>)
    ensures
        forall|i: int, j: int|
            #![trigger pull_all(before, held).1[i], pull_all(before, held).1[j]]
            0 <= i < j < pull_all(before, held).1.len() ==> pull_all(before, held).1[i].0
                != pull_all(before, held).1[j].0,
        forall|i: int|
            0 <= i < pull_all(before, held).1.len() ==> {
                let id = (#[trigger] pull_all(before, held).1[i]).0;
                !before.contains_key(id) && pull_all(before, held).0.contains_key(id)
            },
        forall|id: Seq<u8>|
            before.contains_key(id) ==> #[trigger] pull_all(before, held).0.contains_key(id),
    decreases held.len(),
{
    if held.len() > 0 {
        let rest = held.drop_last();
        law_no_bundle_is_ingested_twice(before, rest);
        let (m, got) = pull_all(before, rest);
        let (m2, got2) = pull_all(before, held);
        assert forall|i: int| 0 <= i < got2.len() implies {
            let id = (#[trigger] got2[i]).0;
            !before.contains_key(id) && m2.contains_key(id)
        } by {
            if i < got.len() {
                assert(got2[i] == got[i]);
            }
        }
        assert forall|i: int, j: int|
            #![trigger got2[i], got2[j]]
            0 <= i < j < got2.len() implies got2[i].0 != got2[j].0 by {
            assert(got2[i] == got[i]);
            if j < got.len() {
                assert(got2[j] == got[j]);
            } else {
                assert(m.contains_key(got[i].0));
            }
        }
    }
}

/// Every bundle that is held and was not pulled before is ingested (once, by
/// [`law_no_bundle_is_ingested_twice`]): the bytes are those of one of its copies.
pub proof fn law_every_fresh_bundle_is_ingested(before: PullMap, held: Seq<Held>, at: int)
    requires
        0 <= at < held.len(),
        held[at].2 is Some,
        !before.contains_key(held[at].2->0),
    ensures
        exists|k: int, j: int|
            #![trigger pull_all(before, held).1[k], held[j]]
            0 <= k < pull_all(before, held).1.len() && 0 <= j <= at && held[j].2 == held[at].2
                && pull_all(before, held).1[k] == (held[at].2->0, held[j].0),
        pull_all(before, held).0.contains_key(held[at].2->0),
    decreases held.len(),
{
    let id = held[at].2->0;
    let rest = held.drop_last();
    let (m, got) = pull_all(before, rest);
    let all = pull_all(before, held).1;
    if at < rest.len() {
        assert(rest[at] == held[at]);
        law_every_fresh_bundle_is_ingested(before, rest, at);
        let (k, j) = choose|k: int, j: int|
            #![trigger got[k], rest[j]]
            0 <= k < got.len() && 0 <= j <= at && rest[j].2 == rest[at].2 && got[k] == (
                rest[at].2->0,
                rest[j].0,
            );
        assert(all[k] == got[k] && held[j] == rest[j]);
    } else if m.contains_key(id) {
        law_pulled_means_held(before, rest, id);
        let j = choose|j: int| 0 <= j < rest.len() && (#[trigger] rest[j]).2 == Some(id);
        law_every_fresh_bundle_is_ingested(before, rest, j);
        let (k, i) = choose|k: int, i: int|
            #![trigger got[k], rest[i]]
            0 <= k < got.len() && 0 <= i <= j && rest[i].2 == rest[j].2 && got[k] == (
                rest[j].2->0,
                rest[i].0,
            );
        assert(all[k] == got[k] && held[i] == rest[i]);
    } else {
        assert(all[got.len() as int] == (id, held[at].0));
    }
}

/// Does `held` list what a mailbox holds: each bundle in it under its id, and nothing else of
/// that id?
pub open spec fn lists_mailbox(held: Seq<Held>, mailbox: Map<Seq<u8>, Seq<u8>>) -> bool {
    &&& forall|id: Seq<u8>| #[trigger]
        mailbox.contains_key(id) ==> exists|j: int|
            0 <= j < held.len() && (#[trigger] held[j]).2 == Some(id)
    &&& forall|j: int|
        0 <= j < held.len() && (#[trigger] held[j]).2 is Some ==> mailbox.contains_key(
            held[j].2->0,
        ) && held[j].0 == mailbox[held[j].2->0]
}

/// What a store that keeps what it takes holds under the tag after `calls`: ids and bytes.
pub open spec fn kept_under(calls: Seq<StoreCall>, tag: Seq<char>) -> Map<Seq<u8>, Seq<u8>>
    decreases calls.len(),
{
    if calls.len() == 0 {
        Map::empty()
    } else {
        let before = kept_under(calls.drop_last(), tag);
        match calls.last() {
            StoreCall::Spool(t, id, data, _, stored) => if stored is Ok && t == tag {
                before.insert(id, data)
            } else {
                before
            },
            StoreCall::Delete(t, id, deleted) => if deleted && t == tag {
                before.remove(id)
            } else {
                before
            },
            StoreCall::List(..) => before,
        }
    }
}

/// Is the call about what is held of the bundle `id` under the tag?
pub open spec fn touches(call: StoreCall, tag: Seq<char>, id: Seq<u8>) -> bool {
    match call {
        StoreCall::Spool(t, i, ..) => t == tag && i == id,
        StoreCall::Delete(t, i, _) => t == tag && i == id,
        StoreCall::List(..) => false,
    }
}

proof fn lemma_other_calls_keep(
    calls: Seq<StoreCall>,
    more: Seq<StoreCall>,
    tag: Seq<char>,
    id: Seq<u8>,
)
    requires
        forall|k: int| 0 <= k < more.len() ==> !touches(#[trigger] more[k], tag, id),
    ensures
        kept_under(calls + more, tag).contains_key(id) == kept_under(calls, tag).contains_key(id),
        kept_under(calls, tag).contains_key(id) ==> kept_under(calls + more, tag)[id]
            == kept_under(calls, tag)[id],
    decreases more.len(),
{
    if more.len() == 0 {
        assert(calls + more =~= calls);
    } else {
        let rest = more.drop_last();
        assert forall|k: int| 0 <= k < rest.len() implies !touches(#[trigger] rest[k], tag, id) by {
            assert(rest[k] == more[k]);
        }
        lemma_other_calls_keep(calls, rest, tag, id);
        assert((calls + more).drop_last() =~= calls + rest);
        assert((calls + more).last() == more[more.len() - 1]);
    }
}

proof fn lemma_what_was_taken_is_kept<const N: usize>(
    earlier: Seq<StoreCall>,
    before: SpoolMap,
    spool: Seq<SpoolItem<N>>,
    stored: Seq<Taken>,
    i: int,
)
    requires
        stored.len() >= spool.len(),
        0 <= i < spool.len(),
        spool_due_at(before, spool, stored, i),
        stored[i] is Ok,
    ensures
        ({
            let kept = kept_under(
                earlier + spool_calls(before, spool, stored),
                bs58_text(spool[i].1@),
            );
            kept.contains_key(spool[i].0@) && kept[spool[i].0@] == spool[i].2@
        }),
    decreases spool.len(),
{
    let n = spool.len() - 1;
    let rest = spool.drop_last();
    let (calls, fewer) = (spool_calls(before, spool, stored), spool_calls(before, rest, stored));
    let tag = bs58_text(spool[i].1@);
    assert(spool.take(n) =~= rest);
    if i == n {
        assert((earlier + calls).drop_last() =~= earlier + fewer);
        assert((earlier + calls).last() == spool_call(spool[n], stored[n]));
    } else {
        assert(rest.take(i) =~= spool.take(i));
        lemma_what_was_taken_is_kept(earlier, before, rest, stored, i);
        if spool_due_at(before, spool, stored, n) {
            let more = seq![spool_call(spool[n], stored[n])];
            assert(earlier + calls =~= (earlier + fewer) + more);
            if touches(more[0], tag, spool[i].0@) {
                law_base58_tells_bytes_apart(spool[n].1@, spool[i].1@);
                law_a_stored_bundle_is_not_spooled_again(before, spool, stored, i, n);
            }
            lemma_other_calls_keep(earlier + fewer, more, tag, spool[i].0@);
        } else {
            assert(calls == fewer);
        }
    }
}

proof fn lemma_what_was_deleted_is_gone(
    earlier: Seq<StoreCall>,
    tag: Seq<u8>,
    held: Seq<Held>,
    deleted: Seq<bool>,
    j: int,
)
    requires
        deleted.len() == held.len(),
        0 <= j < held.len(),
        held[j].2 is Some,
        deleted[j],
    ensures
        !kept_under(earlier + delete_calls(tag, held, deleted), bs58_text(tag)).contains_key(
            held[j].2->0,
        ),
    decreases held.len(),
{
    let n = held.len() - 1;
    let (rest, answers) = (held.drop_last(), deleted.drop_last());
    let (calls, fewer) = (delete_calls(tag, held, deleted), delete_calls(tag, rest, answers));
    if j < n {
        lemma_what_was_deleted_is_gone(earlier, tag, rest, answers, j);
    }
    if held[n].2 is Some {
        assert((earlier + calls).drop_last() =~= earlier + fewer);
        assert((earlier + calls).last() == StoreCall::Delete(
            bs58_text(tag),
            held[n].2->0,
            deleted[n],
        ));
    } else {
        assert(calls == fewer);
    }
}

/// What one round spools under a tag, another round that asks for that tag pulls verbatim, and
/// once: the store is one that keeps what it takes and lists what it keeps, the first round found
/// the bundle due and the store took it, and no call between the two was about it. Once its
/// deletion is done, the store keeps the bundle no more, so that no later listing holds it.
pub proof fn law_what_is_spooled_is_pulled_once<const N: usize>(
    earlier: Seq<StoreCall>,
    remembered: SpoolMap,
    spool: Seq<SpoolItem<N>>,
    stored: Seq<Taken>,
    i: int,
    between: Seq<StoreCall>,
    pulled: PullMap,
    held: Seq<Held>,
    deleted: Seq<bool>,
)
    requires
        stored.len() == spool.len(),
        0 <= i < spool.len(),
        spool_due_at(remembered, spool, stored, i),
        stored[i] is Ok,
        forall|k: int|
            0 <= k < between.len() ==> !touches(
                #[trigger] between[k],
                bs58_text(spool[i].1@),
                spool[i].0@,
            ),
        lists_mailbox(
            held,
            kept_under(
                earlier + spool_calls(remembered, spool, stored) + between,
                bs58_text(spool[i].1@),
            ),
        ),
        deleted.len() == held.len(),
        !pulled.contains_key(spool[i].0@),
    ensures
        exists|k: int|
            0 <= k < pull_all(pulled, joined(seq![Ok(held)])).1.len() && #[trigger] pull_all(
                pulled,
                joined(seq![Ok(held)]),
            ).1[k] == (spool[i].0@, spool[i].2@),
        (forall|j: int|
            0 <= j < held.len() && (#[trigger] held[j]).2 == Some(spool[i].0@) ==> deleted[j])
            ==> !kept_under(
            earlier + spool_calls(remembered, spool, stored) + between + pull_calls(
                seq![spool[i].1],
                seq![Ok(held)],
                seq![deleted],
            ),
            bs58_text(spool[i].1@),
        ).contains_key(spool[i].0@),
{
    let (id, tag) = (spool[i].0@, spool[i].1@);
    let first = earlier + spool_calls(remembered, spool, stored);
    let read = seq![Ok(held)];
    lemma_what_was_taken_is_kept(earlier, remembered, spool, stored, i);
    lemma_other_calls_keep(first, between, bs58_text(tag), id);
    let kept = kept_under(first + between, bs58_text(tag));
    assert(kept.contains_key(id) && kept[id] == spool[i].2@);
    let at = choose|j: int| 0 <= j < held.len() && (#[trigger] held[j]).2 == Some(id);
    assert(joined(read.drop_last()) =~= Seq::<Held>::empty());
    assert(joined(read) =~= held);
    law_every_fresh_bundle_is_ingested(pulled, held, at);
    let got = pull_all(pulled, held).1;
    let (k, j) = choose|k: int, j: int|
        #![trigger got[k], held[j]]
        0 <= k < got.len() && 0 <= j <= at && held[j].2 == held[at].2 && got[k] == (
            held[at].2->0,
            held[j].0,
        );
    assert(got[k] == (id, spool[i].2@));
    if forall|j: int|
        0 <= j < held.len() && (#[trigger] held[j]).2 == Some(id) ==> deleted[j] {
        assert(deleted[at]);
        let asked = (first + between).push(StoreCall::List(bs58_text(tag), listed_as(Ok(held))));
        lemma_what_was_deleted_is_gone(asked, tag, held, deleted, at);
        let (one, answers) = (seq![spool[i].1], seq![deleted]);
        let calls = pull_calls(one, read, answers);
        assert(pull_calls(one.drop_last(), read.drop_last(), answers.drop_last()) =~= Seq::<
            StoreCall,
        >::empty());
        assert(calls =~= read_calls(tag, Ok(held), deleted));
        assert(first + between + calls =~= asked + delete_calls(tag, held, deleted));
    }
}

/// The ids of the bundles in what a mailbox held, in order.
pub open spec fn bundles_in(held: Seq<Held>) -> Seq<Seq<u8>>
    decreases held.len(),
{
    if held.len() == 0 {
        Seq::empty()
    } else {
        match held.last().2 {
            Some(id) => bundles_in(held.drop_last()).push(id),
            None => bundles_in(held.drop_last()),
        }
    }
}

/// Every bundle that a mailbox held, fresh or already pulled, is deleted once, however that is
/// answered; and nothing else is.
pub proof fn law_every_bundle_is_deleted_once(tag: Seq<u8>, held: Seq<Held>, deleted: Seq<bool>)
    requires
        deleted.len() == held.len(),
    ensures
        delete_calls(tag, held, deleted).len() == bundles_in(held).len(),
        forall|k: int|
            0 <= k < bundles_in(held).len() ==> match #[trigger] delete_calls(
                tag,
                held,
                deleted,
            )[k] {
                StoreCall::Delete(t, id, _) => t == bs58_text(tag) && id == bundles_in(held)[k],
                _ => false,
            },
    decreases held.len(),
{
    if held.len() > 0 {
        let (rest, answers) = (held.drop_last(), deleted.drop_last());
        law_every_bundle_is_deleted_once(tag, rest, answers);
        let (calls, fewer) = (delete_calls(tag, held, deleted), delete_calls(tag, rest, answers));
        assert forall|k: int| 0 <= k < bundles_in(held).len() implies match #[trigger] calls[k] {
            StoreCall::Delete(t, id, _) => t == bs58_text(tag) && id == bundles_in(held)[k],
            _ => false,
        } by {
            if k < bundles_in(rest).len() {
                assert(calls[k] == fewer[k]);
            }
        }
    }
}

/// A mailbox that cannot be listed is passed over: nothing of it is ingested, remembered or
/// deleted, and what the other mailboxes held is read as if it had not been asked for.
pub proof fn law_an_unlisted_mailbox_is_passed_over(
    reads: Seq<Read>,
    i: int,
    tag: Seq<u8>,
)
    requires
        0 <= i < reads.len(),
        reads[i] is Err,
    ensures
        joined(reads) == joined(reads.remove(i)),
        read_calls(tag, reads[i], Seq::empty()) == seq![
            StoreCall::List(bs58_text(tag), Err(reads[i]->Err_0)),
        ],
    decreases reads.len(),
{
    assert(read_calls(tag, reads[i], Seq::empty()) =~= seq![
        StoreCall::List(bs58_text(tag), Err(reads[i]->Err_0)),
    ]);
    if i == reads.len() - 1 {
        assert(reads.remove(i) =~= reads.drop_last());
        assert(joined(reads) =~= joined(reads.drop_last()));
    } else {
        law_an_unlisted_mailbox_is_passed_over(reads.drop_last(), i, tag);
        assert(reads.remove(i).drop_last() =~= reads.drop_last().remove(i));
        assert(reads.remove(i).last() == reads.last());
    }
}

/// A bundle is remembered as pulled exactly where it was before, or a mailbox held it.
pub proof fn law_pulled_means_held(before: PullMap, held: Seq<Held>, id: Seq<u8>)
    ensures
        pull_all(before, held).0.contains_key(id) <==> (before.contains_key(id) || exists|j: int|
            0 <= j < held.len() && (#[trigger] held[j]).2 == Some(id)),
    decreases held.len(),
{
    if held.len() > 0 {
        let rest = held.drop_last();
        let n = held.len() - 1;
        law_pulled_means_held(before, rest, id);
        if pull_all(before, rest).0.contains_key(id) && !before.contains_key(id) {
            let j = choose|j: int| 0 <= j < rest.len() && (#[trigger] rest[j]).2 == Some(id);
            assert(held[j].2 == Some(id));
        }
        if held[n].2 != Some(id) && exists|j: int|
            0 <= j < held.len() && (#[trigger] held[j]).2 == Some(id) {
            let j = choose|j: int| 0 <= j < held.len() && (#[trigger] held[j]).2 == Some(id);
            assert(rest[j].2 == Some(id));
        }
    }
}

/// A bundle is remembered as spooled exactly where it was before, or the store took it: one that
/// the store refused is due again in a later round.
pub proof fn law_remembered_means_stored<const N: usize>(
    before: SpoolMap,
    spool: Seq<SpoolItem<N>>,
    stored: Seq<Taken>,
    key: (Seq<u8>, Seq<u8>),
)
    requires
        stored.len() >= spool.len(),
    ensures
        spooled_after(before, spool, stored).contains_key(key) <==> (before.contains_key(key)
            || exists|i: int|
            0 <= i < spool.len() && spool_key(#[trigger] spool[i]) == key && stored[i] is Ok
                && spool_due_at(before, spool, stored, i)),
    decreases spool.len(),
{
    if spool.len() > 0 {
        let rest = spool.drop_last();
        let n = spool.len() - 1;
        law_remembered_means_stored(before, rest, stored, key);
        assert(spool.take(n) =~= rest);
        assert forall|i: int| 0 <= i < n implies #[trigger] spool_due_at(before, spool, stored, i)
            == spool_due_at(before, rest, stored, i) by {
            assert(spool.take(i) =~= rest.take(i));
        }
        if spooled_after(before, rest, stored).contains_key(key) && !before.contains_key(key) {
            let i = choose|i: int|
                0 <= i < rest.len() && spool_key(#[trigger] rest[i]) == key && stored[i] is Ok
                    && spool_due_at(before, rest, stored, i);
            assert(spool_key(spool[i]) == key);
        }
        if spool_key(spool[n]) == key && !spooled_after(before, rest, stored).contains_key(key) {
            assert(spool_due_at(before, spool, stored, n));
        }
        if !before.contains_key(key) && exists|i: int|
            0 <= i < spool.len() && spool_key(#[trigger] spool[i]) == key && stored[i] is Ok
                && spool_due_at(before, spool, stored, i) {
            let i = choose|i: int|
                0 <= i < spool.len() && spool_key(#[trigger] spool[i]) == key && stored[i] is Ok
                    && spool_due_at(before, spool, stored, i);
            if i < n {
                assert(rest[i] == spool[i]);
            }
        }
    }
}

proof fn lemma_spooled_only_grows<const N: usize>(
    before: SpoolMap,
    spool: Seq<SpoolItem<N>>,
    stored: Seq<Taken>,
    n: int,
    key: (Seq<u8>, Seq<u8>),
)
    requires
        0 <= n <= spool.len(),
        spooled_after(before, spool.take(n), stored).contains_key(key),
    ensures
        spooled_after(before, spool, stored).contains_key(key),
    decreases spool.len(),
{
    if n == spool.len() {
        assert(spool.take(n) =~= spool);
    } else {
        assert(spool.drop_last().take(n) =~= spool.take(n));
        lemma_spooled_only_grows(before, spool.drop_last(), stored, n, key);
    }
}

/// A bundle that the store took is not given to it again under the same tag.
pub proof fn law_a_stored_bundle_is_not_spooled_again<const N: usize>(
    before: SpoolMap,
    spool: Seq<SpoolItem<N>>,
    stored: Seq<Taken>,
    i: int,
    j: int,
)
    requires
        stored.len() >= spool.len(),
        0 <= i < j < spool.len(),
        spool_key(spool[i]) == spool_key(spool[j]),
        spool_due_at(before, spool, stored, i),
        stored[i] is Ok,
    ensures
        !spool_due_at(before, spool, stored, j),
{
    let key = spool_key(spool[i]);
    assert(spool.take(i + 1).drop_last() =~= spool.take(i));
    assert(spooled_after(before, spool.take(i + 1), stored).contains_key(key));
    assert(spool.take(j).take(i + 1) =~= spool.take(i + 1));
    lemma_spooled_only_grows(before, spool.take(j), stored, i + 1, key);
}

/// Is the call the one that gives a bundle of `spool` that is due to the store?
pub open spec fn gives_a_due_bundle<const N: usize>(
    before: SpoolMap,
    spool: Seq<SpoolItem<N>>,
    stored: Seq<Taken>,
    call: StoreCall,
) -> bool {
    exists|i: int|
        0 <= i < spool.len() && #[trigger] spool_due_at(before, spool, stored, i)
            && !before.contains_key(spool_key(spool[i])) && call == spool_call(spool[i], stored[i])
}

/// The store is given no bundle but those that are due: none that was remembered, and each under
/// its own tag, with its own bytes and expiry.
pub proof fn law_only_due_bundles_are_given<const N: usize>(
    before: SpoolMap,
    spool: Seq<SpoolItem<N>>,
    stored: Seq<Taken>,
)
    requires
        stored.len() >= spool.len(),
    ensures
        forall|c: int|
            0 <= c < spool_calls(before, spool, stored).len() ==> gives_a_due_bundle(
                before,
                spool,
                stored,
                #[trigger] spool_calls(before, spool, stored)[c],
            ),
    decreases spool.len(),
{
    if spool.len() > 0 {
        let n = spool.len() - 1;
        let rest = spool.drop_last();
        let (calls, fewer) = (
            spool_calls(before, spool, stored),
            spool_calls(before, rest, stored),
        );
        law_only_due_bundles_are_given(before, rest, stored);
        assert(spool.take(n) =~= rest);
        assert forall|c: int| 0 <= c < calls.len() implies gives_a_due_bundle(
            before,
            spool,
            stored,
            #[trigger] calls[c],
        ) by {
            if c < fewer.len() {
                assert(calls[c] == fewer[c]);
                assert(gives_a_due_bundle(before, rest, stored, fewer[c]));
                let i = choose|i: int|
                    0 <= i < rest.len() && #[trigger] spool_due_at(before, rest, stored, i)
                        && !before.contains_key(spool_key(rest[i])) && fewer[c] == spool_call(
                        rest[i],
                        stored[i],
                    );
                assert(rest.take(i) =~= spool.take(i));
                assert(spool_due_at(before, spool, stored, i));
            } else {
                assert(spool_due_at(before, spool, stored, n));
                if before.contains_key(spool_key(spool[n])) {
                    assert(rest.take(0) =~= Seq::<SpoolItem<N>>::empty());
                    lemma_spooled_only_grows(before, rest, stored, 0, spool_key(spool[n]));
                }
            }
        }
    }
}

/// What rounds that each have the one bundle to spool remember, and the calls they make, where
/// `answers` are what the store would answer in each.
pub open spec fn respooled<const N: usize>(
    before: SpoolMap,
    item: SpoolItem<N>,
    answers: Seq<Taken>,
) -> (SpoolMap, Seq<StoreCall>)
    decreases answers.len(),
{
    if answers.len() == 0 {
        (before, Seq::empty())
    } else {
        let (m, calls) = respooled(before, item, answers.drop_last());
        let answer = seq![answers.last()];
        (
            spooled_after(m, seq![item], answer),
            calls + spool_calls(m, seq![item], answer),
        )
    }
}

/// Round after round a bundle is given to the store until the store takes it, which it does the
/// `k`-th time that it is asked; from then on it is remembered and not given again.
pub proof fn law_a_bundle_is_given_until_it_is_taken<const N: usize>(
    before: SpoolMap,
    item: SpoolItem<N>,
    answers: Seq<Taken>,
    k: int,
)
    requires
        !before.contains_key(spool_key(item)),
        0 <= k <= answers.len(),
        forall|i: int| 0 <= i < k ==> answers[i] is Err,
        k < answers.len() ==> answers[k] is Ok,
    ensures
        respooled(before, item, answers).0 == if k < answers.len() {
            before.insert(spool_key(item), item.3)
        } else {
            before
        },
        respooled(before, item, answers).1 == Seq::new(
            if k < answers.len() {
                (k + 1) as nat
            } else {
                answers.len()
            },
            |i: int| spool_call(item, answers[i]),
        ),
    decreases answers.len(),
{
    if answers.len() > 0 {
        let rest = answers.drop_last();
        let k0 = if k < rest.len() {
            k
        } else {
            rest.len() as int
        };
        law_a_bundle_is_given_until_it_is_taken(before, item, rest, k0);
        let (m, calls) = respooled(before, item, rest);
        let (one, answer) = (seq![item], seq![answers.last()]);
        assert(one.drop_last() =~= Seq::<SpoolItem<N>>::empty());
        assert(one.last() == item);
        assert(spooled_after(m, one.drop_last(), answer) == m);
        assert(spool_calls(m, one.drop_last(), answer) =~= Seq::<StoreCall>::empty());
        let (after, all) = respooled(before, item, answers);
        assert(after =~= if k < answers.len() {
            before.insert(spool_key(item), item.3)
        } else {
            before
        });
        assert(all =~= Seq::new(
            if k < answers.len() {
                (k + 1) as nat
            } else {
                answers.len()
            },
            |i: int| spool_call(item, answers[i]),
        ));
    } else {
        assert(respooled(before, item, answers).1 =~= Seq::new(
            0,
            |i: int| spool_call(item, answers[i]),
        ));
    }
}

/// A round that has one bundle to spool gives it to the store exactly where it is not remembered
/// under its id and tag, with its own bytes and expiry and under its tag in base58. It is
/// remembered from then on with this expiry, unless the store refused it; and the operator is told
/// of the call, and of nothing else.
pub proof fn law_one_bundle_is_spooled<const N: usize>(
    before: SpoolMap,
    item: SpoolItem<N>,
    answer: Taken,
)
    ensures
        before.contains_key((item.0@, item.1@)) ==> {
            &&& spool_calls(before, seq![item], seq![answer]).len() == 0
            &&& spool_lines(before, seq![item], seq![answer]).len() == 0
            &&& spooled_after(before, seq![item], seq![answer]) == before.insert(
                (item.0@, item.1@),
                item.3,
            )
        },
        !before.contains_key((item.0@, item.1@)) ==> {
            &&& spool_calls(before, seq![item], seq![answer]) == seq![
                StoreCall::Spool(bs58_text(item.1@), item.0@, item.2@, item.3, answer),
            ]
            &&& answer is Ok ==> spooled_after(before, seq![item], seq![answer]) == before.insert(
                (item.0@, item.1@),
                item.3,
            ) && spool_lines(before, seq![item], seq![answer]) == seq![
                (true, spool_text(item.0@, bs58_text(item.1@), None)),
            ]
            &&& answer matches Err(why) ==> spooled_after(before, seq![item], seq![answer])
                == before && spool_lines(before, seq![item], seq![answer]) == seq![
                (true, spool_text(item.0@, bs58_text(item.1@), Some(why))),
            ]
        },
{
    let (one, said) = (seq![item], seq![answer]);
    assert(one.last() == item);
    assert(spooled_after(before, one.drop_last(), said) == before);
    assert(spool_calls(before, one.drop_last(), said) =~= Seq::<StoreCall>::empty());
    assert(spool_lines(before, one.drop_last(), said) =~= Seq::<(bool, Seq<char>)>::empty());
    assert(spool_calls(before, one, said) =~= if before.contains_key((item.0@, item.1@)) {
        Seq::<StoreCall>::empty()
    } else {
        seq![StoreCall::Spool(bs58_text(item.1@), item.0@, item.2@, item.3, answer)]
    });
    if !before.contains_key((item.0@, item.1@)) {
        match answer {
            Ok(_) => {
                assert(spool_lines(before, one, said) =~= seq![
                    (true, spool_text(item.0@, bs58_text(item.1@), None)),
                ]);
            },
            Err(why) => {
                assert(spool_lines(before, one, said) =~= seq![
                    (true, spool_text(item.0@, bs58_text(item.1@), Some(why))),
                ]);
            },
        }
    }
}

/// However many bundles there are to spool, they have their turns one after the other: what comes
/// of two lists in a row is what comes of the first, and then of the second with what is
/// remembered after the first. No bundle is left out for where it stands.
pub proof fn law_spooling_goes_on_to_the_end<const N: usize>(
    before: SpoolMap,
    a: Seq<SpoolItem<N>>,
    b: Seq<SpoolItem<N>>,
    said_a: Seq<Taken>,
    said_b: Seq<Taken>,
)
    requires
        said_a.len() == a.len(),
        said_b.len() >= b.len(),
    ensures
        spooled_after(before, a + b, said_a + said_b) == spooled_after(
            spooled_after(before, a, said_a),
            b,
            said_b,
        ),
        spool_calls(before, a + b, said_a + said_b) == spool_calls(before, a, said_a) + spool_calls(
            spooled_after(before, a, said_a),
            b,
            said_b,
        ),
        spool_lines(before, a + b, said_a + said_b) == spool_lines(before, a, said_a) + spool_lines(
            spooled_after(before, a, said_a),
            b,
            said_b,
        ),
    decreases b.len(),
{
    let said = said_a + said_b;
    let m = spooled_after(before, a, said_a);
    if b.len() == 0 {
        assert(a + b =~= a);
        lemma_spooled_after_prefix(before, a, said_a, said);
        assert(spool_calls(before, a + b, said) =~= spool_calls(before, a, said_a) + spool_calls(
            m,
            b,
            said_b,
        ));
        assert(spool_lines(before, a + b, said) =~= spool_lines(before, a, said_a) + spool_lines(
            m,
            b,
            said_b,
        ));
    } else {
        law_spooling_goes_on_to_the_end(before, a, b.drop_last(), said_a, said_b);
        assert((a + b).drop_last() =~= a + b.drop_last());
        assert((a + b).last() == b.last());
        assert(said[(a + b).len() - 1] == said_b[b.len() - 1]);
        assert(spool_calls(before, a + b, said) =~= spool_calls(before, a, said_a) + spool_calls(
            m,
            b,
            said_b,
        ));
        assert(spool_lines(before, a + b, said) =~= spool_lines(before, a, said_a) + spool_lines(
            m,
            b,
            said_b,
        ));
    }
}

/// An entry of a mailbox that is no bundle is left where it is, and nothing comes of it. One that
/// is a bundle is deleted under the mailbox's tag in base58, is remembered with its expiry, and is
/// ingested verbatim exactly where it was not remembered; the operator is told of that.
pub proof fn law_one_entry_is_pulled(
    before: PullMap,
    tag: Seq<u8>,
    bytes: Seq<u8>,
    expires: u64,
    id: Seq<u8>,
    deleted: bool,
)
    ensures
        ({
            let none: Held = (bytes, expires, None);
            &&& pull_all(before, seq![none]).0 == before
            &&& pull_all(before, seq![none]).1.len() == 0
            &&& delete_calls(tag, seq![none], seq![deleted]).len() == 0
            &&& fresh_lines(before, tag, seq![none]).len() == 0
        }),
        ({
            let some: Held = (bytes, expires, Some(id));
            &&& pull_all(before, seq![some]).0 == before.insert(id, expires)
            &&& delete_calls(tag, seq![some], seq![deleted]) == seq![
                StoreCall::Delete(bs58_text(tag), id, deleted),
            ]
            &&& before.contains_key(id) ==> pull_all(before, seq![some]).1.len() == 0
                && fresh_lines(before, tag, seq![some]).len() == 0
            &&& !before.contains_key(id) ==> pull_all(before, seq![some]).1 == seq![(id, bytes)]
                && fresh_lines(before, tag, seq![some]) == seq![
                (true, pull_text(id, bs58_text(tag))),
            ]
        }),
{
    let none: Held = (bytes, expires, None);
    let some: Held = (bytes, expires, Some(id));
    let no_held = Seq::<Held>::empty();
    assert(pull_all(before, no_held) == (before, Seq::<(Seq<u8>, Seq<u8>)>::empty()));
    assert(delete_calls(tag, no_held, Seq::empty()) =~= Seq::<StoreCall>::empty());
    assert(fresh_lines(before, tag, no_held) =~= Seq::<(bool, Seq<char>)>::empty());
    assert(seq![none].drop_last() =~= no_held && seq![some].drop_last() =~= no_held);
    assert(seq![deleted].drop_last() =~= Seq::<bool>::empty());
    assert(seq![none].last() == none && seq![some].last() == some);
    assert(delete_calls(tag, seq![some], seq![deleted]) =~= seq![
        StoreCall::Delete(bs58_text(tag), id, deleted),
    ]);
    if !before.contains_key(id) {
        assert(pull_all(before, seq![some]).1 =~= seq![(id, bytes)]);
        assert(fresh_lines(before, tag, seq![some]) =~= seq![
            (true, pull_text(id, bs58_text(tag))),
        ]);
    }
}

/// However much a mailbox holds, its entries have their turns one after the other, and none is
/// left out for where it stands.
pub proof fn law_pulling_goes_on_to_the_end(
    before: PullMap,
    tag: Seq<u8>,
    a: Seq<Held>,
    b: Seq<Held>,
    gone_a: Seq<bool>,
    gone_b: Seq<bool>,
)
    requires
        gone_a.len() == a.len(),
        gone_b.len() == b.len(),
    ensures
        pull_all(before, a + b).0 == pull_all(pull_all(before, a).0, b).0,
        pull_all(before, a + b).1 == pull_all(before, a).1 + pull_all(pull_all(before, a).0, b).1,
        delete_calls(tag, a + b, gone_a + gone_b) == delete_calls(tag, a, gone_a) + delete_calls(
            tag,
            b,
            gone_b,
        ),
        fresh_lines(before, tag, a + b) == fresh_lines(before, tag, a) + fresh_lines(
            pull_all(before, a).0,
            tag,
            b,
        ),
    decreases b.len(),
{
    lemma_pull_all_joins(before, a, b);
    let (calls, lines) = (delete_calls(tag, a, gone_a), fresh_lines(before, tag, a));
    let m = pull_all(before, a).0;
    if b.len() == 0 {
        assert(a + b =~= a && gone_a + gone_b =~= gone_a);
        assert(calls + delete_calls(tag, b, gone_b) =~= calls);
        assert(lines + fresh_lines(m, tag, b) =~= lines);
    } else {
        law_pulling_goes_on_to_the_end(
            before,
            tag,
            a,
            b.drop_last(),
            gone_a,
            gone_b.drop_last(),
        );
        assert((a + b).drop_last() =~= a + b.drop_last());
        assert((gone_a + gone_b).drop_last() =~= gone_a + gone_b.drop_last());
        assert((a + b).last() == b.last() && (gone_a + gone_b).last() == gone_b.last());
        lemma_pull_all_joins(before, a, b.drop_last());
        assert(delete_calls(tag, a + b, gone_a + gone_b) =~= calls + delete_calls(tag, b, gone_b));
        assert(fresh_lines(before, tag, a + b) =~= lines + fresh_lines(m, tag, b));
    }
}

/// A wanted mailbox is asked for once, under its tag in base58. What is pulled is what the store
/// listed, entry by entry, and the deletions come behind the listing; where the store could not
/// tell, nothing else comes of it but a line for the operator.
pub proof fn law_one_mailbox_is_read<const N: usize>(
    before: PullMap,
    tag: [u8; N],
    held: Seq<Held>,
    deleted: Seq<bool>,
    why: Seq<char>,
)
    requires
        deleted.len() == held.len(),
    ensures
        pull_calls(seq![tag], seq![Ok::<Seq<Held>, Seq<char>>(held)], seq![deleted]) == seq![
            StoreCall::List(
                bs58_text(tag@),
                Ok(Seq::new(held.len(), |j: int| (held[j].0, held[j].1))),
            ),
        ] + delete_calls(tag@, held, deleted),
        joined(seq![Ok::<Seq<Held>, Seq<char>>(held)]) == held,
        pull_lines(before, seq![tag], seq![Ok::<Seq<Held>, Seq<char>>(held)]) == fresh_lines(
            before,
            tag@,
            held,
        ),
        pull_calls(seq![tag], seq![Err::<Seq<Held>, Seq<char>>(why)], seq![Seq::<bool>::empty()])
            == seq![StoreCall::List(bs58_text(tag@), Err(why))],
        joined(seq![Err::<Seq<Held>, Seq<char>>(why)]).len() == 0,
        pull_lines(before, seq![tag], seq![Err::<Seq<Held>, Seq<char>>(why)]) == seq![
            (false, "spool: list_mailbox"@ + " failed: "@ + why),
        ],
{
    let tags = seq![tag];
    let good = seq![Ok::<Seq<Held>, Seq<char>>(held)];
    let bad = seq![Err::<Seq<Held>, Seq<char>>(why)];
    let (gone, none) = (seq![deleted], seq![Seq::<bool>::empty()]);
    let no_reads = Seq::<Read>::empty();
    assert(tags.drop_last() =~= Seq::<[u8; N]>::empty());
    assert(good.drop_last() =~= no_reads && bad.drop_last() =~= no_reads);
    assert(gone.drop_last() =~= Seq::<Seq<bool>>::empty() && none.drop_last() =~= Seq::<
        Seq<bool>,
    >::empty());
    assert(pull_calls(tags.drop_last(), no_reads, Seq::empty()) =~= Seq::<StoreCall>::empty());
    assert(joined(no_reads) =~= Seq::<Held>::empty());
    assert(pull_all(before, joined(no_reads)).0 == before);
    assert(pull_lines(before, tags.drop_last(), no_reads) =~= Seq::<(bool, Seq<char>)>::empty());
    assert(tags.last() == tag && good.last() == Ok::<Seq<Held>, Seq<char>>(held) && bad.last()
        == Err::<Seq<Held>, Seq<char>>(why));
    assert(listed_as(Ok(held))->Ok_0 =~= Seq::new(held.len(), |j: int| (held[j].0, held[j].1)));
    assert(pull_calls(tags, good, gone) =~= seq![
        StoreCall::List(
            bs58_text(tag@),
            Ok(Seq::new(held.len(), |j: int| (held[j].0, held[j].1))),
        ),
    ] + delete_calls(tag@, held, deleted));
    assert(joined(good) =~= held);
    assert(pull_lines(before, tags, good) =~= fresh_lines(before, tag@, held));
    assert(pull_calls(tags, bad, none) =~= seq![StoreCall::List(bs58_text(tag@), Err(why))]);
    assert(joined(bad) =~= Seq::<Held>::empty());
    assert(pull_lines(before, tags, bad) =~= seq![
        (false, "spool: list_mailbox"@ + " failed: "@ + why),
    ]);
}

/// However many mailboxes are wanted, they are read one after the other, and none is left out for
/// where it stands.
pub proof fn law_reading_goes_on_to_the_end<const N: usize>(
    before: PullMap,
    wanted_a: Seq<[u8; N]>,
    wanted_b: Seq<[u8; N]>,
    reads_a: Seq<Read>,
    reads_b: Seq<Read>,
    gone_a: Seq<Seq<bool>>,
    gone_b: Seq<Seq<bool>>,
)
    requires
        reads_a.len() == wanted_a.len(),
        reads_b.len() == wanted_b.len(),
        gone_a.len() == wanted_a.len(),
        gone_b.len() == wanted_b.len(),
    ensures
        pull_calls(wanted_a + wanted_b, reads_a + reads_b, gone_a + gone_b) == pull_calls(
            wanted_a,
            reads_a,
            gone_a,
        ) + pull_calls(wanted_b, reads_b, gone_b),
        joined(reads_a + reads_b) == joined(reads_a) + joined(reads_b),
        pull_lines(before, wanted_a + wanted_b, reads_a + reads_b) == pull_lines(
            before,
            wanted_a,
            reads_a,
        ) + pull_lines(pull_all(before, joined(reads_a)).0, wanted_b, reads_b),
    decreases wanted_b.len(),
{
    let (wanted, reads, gone) = (wanted_a + wanted_b, reads_a + reads_b, gone_a + gone_b);
    let calls = pull_calls(wanted_a, reads_a, gone_a);
    let lines = pull_lines(before, wanted_a, reads_a);
    let m = pull_all(before, joined(reads_a)).0;
    if wanted_b.len() == 0 {
        assert(wanted =~= wanted_a && reads =~= reads_a && gone =~= gone_a);
        assert(calls + pull_calls(wanted_b, reads_b, gone_b) =~= calls);
        assert(joined(reads_a) + joined(reads_b) =~= joined(reads_a));
        assert(lines + pull_lines(m, wanted_b, reads_b) =~= lines);
    } else {
        let (w, r, g) = (wanted_b.drop_last(), reads_b.drop_last(), gone_b.drop_last());
        law_reading_goes_on_to_the_end(before, wanted_a, w, reads_a, r, gone_a, g);
        assert(wanted.drop_last() =~= wanted_a + w);
        assert(reads.drop_last() =~= reads_a + r);
        assert(gone.drop_last() =~= gone_a + g);
        assert(wanted.last() == wanted_b.last() && reads.last() == reads_b.last() && gone.last()
            == gone_b.last());
        lemma_pull_all_joins(before, joined(reads_a), joined(r));
        assert(pull_calls(wanted, reads, gone) =~= calls + pull_calls(wanted_b, reads_b, gone_b));
        assert(joined(reads) =~= joined(reads_a) + joined(reads_b));
        assert(pull_lines(before, wanted, reads) =~= lines + pull_lines(m, wanted_b, reads_b));
    }
}

proof fn lemma_deletions_list_nothing(tag: Seq<u8>, held: Seq<Held>, deleted: Seq<bool>)
    requires
        deleted.len() == held.len(),
    ensures
        delete_calls(tag, held, deleted).filter(|c: StoreCall| c is List).len() == 0,
    decreases held.len(),
{
    reveal(Seq::filter);
    if held.len() > 0 {
        let (rest, answers) = (held.drop_last(), deleted.drop_last());
        lemma_deletions_list_nothing(tag, rest, answers);
        if held.last().2 is Some {
            assert(delete_calls(tag, held, deleted).drop_last() =~= delete_calls(
                tag,
                rest,
                answers,
            ));
        }
    }
}

/// Of the calls of a round exactly one for each wanted tag is a listing, in order: the `k`-th is of
/// the `k`-th tag, and its answer is what is read for that tag.
pub proof fn law_each_wanted_mailbox_is_listed_once<const N: usize>(
    wanted: Seq<[u8; N]>,
    reads: Seq<Read>,
    deleted: Seq<Seq<bool>>,
)
    requires
        reads.len() == wanted.len(),
        deleted.len() == wanted.len(),
        forall|k: int|
            0 <= k < wanted.len() ==> (#[trigger] deleted[k]).len() == match reads[k] {
                Ok(held) => held.len(),
                Err(_) => 0,
            },
    ensures
        pull_calls(wanted, reads, deleted).filter(|c: StoreCall| c is List).len() == wanted.len(),
        forall|k: int|
            0 <= k < wanted.len() ==> match pull_calls(wanted, reads, deleted).filter(
                |c: StoreCall| c is List,
            )[k] {
                StoreCall::List(tag, answer) => tag == bs58_text((#[trigger] wanted[k])@) && match (
                    answer,
                    reads[k],
                ) {
                    (Ok(listed), Ok(held)) => listed.len() == held.len() && forall|j: int|
                        0 <= j < held.len() ==> #[trigger] listed[j] == (held[j].0, held[j].1),
                    (Err(a), Err(b)) => a == b,
                    _ => false,
                },
                _ => false,
            },
    decreases wanted.len(),
{
    let is_list = |c: StoreCall| c is List;
    let calls = pull_calls(wanted, reads, deleted);
    if wanted.len() == 0 {
        calls.lemma_filter_len(is_list);
    } else {
        let n = wanted.len() - 1;
        let (w, r, g) = (wanted.drop_last(), reads.drop_last(), deleted.drop_last());
        assert forall|k: int| 0 <= k < w.len() implies (#[trigger] g[k]).len() == match r[k] {
            Ok(held) => held.len(),
            Err(_) => 0,
        } by {
            assert(g[k] == deleted[k]);
        }
        law_each_wanted_mailbox_is_listed_once(w, r, g);
        assert(deleted[n] == deleted.last());
        let rest = pull_calls(w, r, g);
        let one = seq![StoreCall::List(bs58_text(wanted[n]@), listed_as(reads[n]))];
        let gone = delete_calls(wanted[n]@, held_in(reads[n]), deleted[n]);
        assert(calls =~= rest + (one + gone));
        Seq::filter_distributes_over_add(rest, one + gone, is_list);
        Seq::filter_distributes_over_add(one, gone, is_list);
        lemma_deletions_list_nothing(wanted[n]@, held_in(reads[n]), deleted[n]);
        assert(one.filter(is_list) =~= one) by {
            reveal_with_fuel(Seq::filter, 2);
        }
        assert(calls.filter(is_list) =~= rest.filter(is_list) + one);
        assert forall|k: int| 0 <= k < wanted.len() implies match calls.filter(is_list)[k] {
            StoreCall::List(tag, answer) => tag == bs58_text((#[trigger] wanted[k])@) && match (
                answer,
                reads[k],
            ) {
                (Ok(listed), Ok(held)) => listed.len() == held.len() && forall|j: int|
                    0 <= j < held.len() ==> #[trigger] listed[j] == (held[j].0, held[j].1),
                (Err(a), Err(b)) => a == b,
                _ => false,
            },
            _ => false,
        } by {
            if k < n {
                assert(calls.filter(is_list)[k] == rest.filter(is_list)[k]);
                assert(w[k] == wanted[k] && r[k] == reads[k]);
            } else {
                assert(calls.filter(is_list)[k] == one[0]);
            }
        }
    }
}

/// Whatever bundle is listed under any of the wanted tags is remembered as pulled, is ingested
/// where it was not pulled before, and is deleted under that tag.
pub proof fn law_every_wanted_bundle_is_ingested_and_deleted<const N: usize>(
    before: PullMap,
    wanted: Seq<[u8; N]>,
    reads: Seq<Read>,
    deleted: Seq<Seq<bool>>,
    k: int,
    held: Seq<Held>,
    j: int,
    id: Seq<u8>,
)
    requires
        reads.len() == wanted.len(),
        deleted.len() == wanted.len(),
        0 <= k < wanted.len(),
        reads[k] == Ok::<Seq<Held>, Seq<char>>(held),
        deleted[k].len() == held.len(),
        0 <= j < held.len(),
        held[j].2 == Some(id),
    ensures
        pull_all(before, joined(reads)).0.contains_key(id),
        !before.contains_key(id) ==> exists|m: int|
            0 <= m < pull_all(before, joined(reads)).1.len() && (#[trigger] pull_all(
                before,
                joined(reads),
            ).1[m]).0 == id,
        pull_calls(wanted, reads, deleted).contains(
            StoreCall::Delete(bs58_text(wanted[k]@), id, deleted[k][j]),
        ),
{
    lemma_listed_is_joined(reads, k, held, j);
    let at = choose|at: int| 0 <= at < joined(reads).len() && joined(reads)[at] == held[j];
    law_pulled_means_held(before, joined(reads), id);
    assert(joined(reads)[at].2 == Some(id));
    if !before.contains_key(id) {
        law_every_fresh_bundle_is_ingested(before, joined(reads), at);
    }
    lemma_listed_is_deleted(wanted, reads, deleted, k, held, j, id);
}

proof fn lemma_listed_is_joined(reads: Seq<Read>, k: int, held: Seq<Held>, j: int)
    requires
        0 <= k < reads.len(),
        reads[k] == Ok::<Seq<Held>, Seq<char>>(held),
        0 <= j < held.len(),
    ensures
        exists|at: int| 0 <= at < joined(reads).len() && joined(reads)[at] == held[j],
    decreases reads.len(),
{
    let before = joined(reads.drop_last());
    if k == reads.len() - 1 {
        assert(joined(reads)[before.len() + j] == held[j]);
    } else {
        lemma_listed_is_joined(reads.drop_last(), k, held, j);
        let at = choose|at: int| 0 <= at < before.len() && before[at] == held[j];
        assert(joined(reads)[at] == held[j]);
    }
}

proof fn lemma_listed_is_deleted<const N: usize>(
    wanted: Seq<[u8; N]>,
    reads: Seq<Read>,
    deleted: Seq<Seq<bool>>,
    k: int,
    held: Seq<Held>,
    j: int,
    id: Seq<u8>,
)
    requires
        reads.len() == wanted.len(),
        deleted.len() == wanted.len(),
        0 <= k < wanted.len(),
        reads[k] == Ok::<Seq<Held>, Seq<char>>(held),
        deleted[k].len() == held.len(),
        0 <= j < held.len(),
        held[j].2 == Some(id),
    ensures
        pull_calls(wanted, reads, deleted).contains(
            StoreCall::Delete(bs58_text(wanted[k]@), id, deleted[k][j]),
        ),
    decreases wanted.len(),
{
    let (w, r, g) = (wanted.drop_last(), reads.drop_last(), deleted.drop_last());
    let call = StoreCall::Delete(bs58_text(wanted[k]@), id, deleted[k][j]);
    let (rest, calls) = (pull_calls(w, r, g), pull_calls(wanted, reads, deleted));
    if k == wanted.len() - 1 {
        lemma_entry_is_deleted(wanted[k]@, held, deleted[k], j, id);
        let gone = delete_calls(wanted[k]@, held, deleted[k]);
        let c = choose|c: int| 0 <= c < gone.len() && gone[c] == call;
        assert(calls[rest.len() + 1 + c] == call);
    } else {
        lemma_listed_is_deleted(w, r, g, k, held, j, id);
        let c = choose|c: int| 0 <= c < rest.len() && rest[c] == call;
        assert(calls[c] == call);
    }
}

proof fn lemma_entry_is_deleted(
    tag: Seq<u8>,
    held: Seq<Held>,
    deleted: Seq<bool>,
    j: int,
    id: Seq<u8>,
)
    requires
        deleted.len() == held.len(),
        0 <= j < held.len(),
        held[j].2 == Some(id),
    ensures
        delete_calls(tag, held, deleted).contains(
            StoreCall::Delete(bs58_text(tag), id, deleted[j]),
        ),
    decreases held.len(),
{
    let (rest, answers) = (held.drop_last(), deleted.drop_last());
    let call = StoreCall::Delete(bs58_text(tag), id, deleted[j]);
    let (calls, fewer) = (delete_calls(tag, held, deleted), delete_calls(tag, rest, answers));
    if j == held.len() - 1 {
        assert(calls[fewer.len() as int] == call);
    } else {
        lemma_entry_is_deleted(tag, rest, answers, j, id);
        let c = choose|c: int| 0 <= c < fewer.len() && fewer[c] == call;
        assert(calls[c] == call);
    }
}

/// The ids that are worked with are those that the bundles carry: each is what `id_of` gave for
/// the very bytes that were listed, and there is an answer for each entry.
pub proof fn law_ids_are_the_bundles_own<F: Fn(&Vec<u8>) -> Option<BundleId>, const N: usize>(
    id_of: F,
    spool: Seq<SpoolItem<N>>,
    wanted: Seq<[u8; N]>,
    stored: Seq<Taken>,
    reads: Seq<Read>,
    deleted: Seq<Seq<bool>>,
    k: int,
    held: Seq<Held>,
    j: int,
)
    requires
        round_answers(id_of, spool, wanted, stored, reads, deleted),
        0 <= k < wanted.len(),
        reads[k] == Ok::<Seq<Held>, Seq<char>>(held),
        0 <= j < held.len(),
    ensures
        stored.len() == spool.len(),
        reads.len() == wanted.len(),
        deleted.len() == wanted.len(),
        deleted[k].len() == held.len(),
        exists|b: Vec<u8>, r: Option<BundleId>| #[trigger]
            call_ensures(id_of, (&b,), r) && b@ == held[j].0 && (r is Some <==> held[j].2 is Some)
                && (r is Some ==> held[j].2 == Some(r->0@)),
{
    assert(read_answers(id_of, reads[k], deleted[k]));
    assert(held_in(reads[k])[j] == held[j]);
    let (b, r) = choose|b: Vec<u8>, r: Option<BundleId>| #[trigger]
        call_ensures(id_of, (&b,), r) && b@ == held[j].0 && match r {
            Some(x) => held[j].2 == Some(x@),
            None => held[j].2 is None,
        };
    assert(call_ensures(id_of, (&b,), r));
}

/// What is kept of a table of what has been done: entries whose expiry is `0` or lies ahead, as
/// they were; all of those where they are at most a hundred thousand, else just as many.
pub proof fn law_what_eviction_keeps<K>(before: Map<K, u64>, now_ms: u64, after: Map<K, u64>)
    requires
        before.dom().finite(),
        evicted_expired(before, now_ms, after),
    ensures
        forall|k: K| #[trigger]
            after.contains_key(k) ==> before.contains_key(k) && after[k] == before[k] && (before[k]
                == 0 || before[k] > now_ms),
        before.dom().filter(|k: K| before[k] == 0 || before[k] > now_ms).len() <= 100_000
            ==> forall|k: K| #[trigger]
            before.contains_key(k) && (before[k] == 0 || before[k] > now_ms) ==> after.contains_key(
                k,
            ),
        before.dom().filter(|k: K| before[k] == 0 || before[k] > now_ms).len() > 100_000
            ==> after.len() == 100_000,
{
    let live = live_part(before, now_ms);
    assert(live.dom() =~= before.dom().filter(|k: K| before[k] == 0 || before[k] > now_ms));
    assert forall|k: K| #[trigger] after.contains_key(k) implies before.contains_key(k) && after[k]
        == before[k] && (before[k] == 0 || before[k] > now_ms) by {
        assert(after.dom().contains(k));
        assert(live.dom().contains(k) && live[k] == after[k]);
    }
}

/// What a store answers is recorded as it is: whether it took a bundle, and why not; and what it
/// listed, or why it could not.
pub proof fn law_answers_are_recorded_as_they_are(
    put: Result<(), String>,
    list: Result<Vec<(Vec<u8>, u64)>, String>,
    bytes: Seq<Vec<u8>>,
    got: Seq<(Seq<u8>, Seq<u8>)>,
)
    ensures
        put is Ok <==> taken(put) == Ok::<(), Seq<char>>(()),
        put matches Err(e) ==> taken(put) == Err::<(), Seq<char>>(e@),
        list matches Err(e) ==> listing(list) == Err::<Seq<(Seq<u8>, u64)>, Seq<char>>(e@),
        list matches Ok(v) ==> (listing(list) matches Ok(pairs) && pairs.len() == v@.len()
            && forall|j: int|
            0 <= j < v@.len() ==> #[trigger] pairs[j] == (v@[j].0@, v@[j].1)),
        byte_views(bytes) == ingested_bytes(got) <==> bytes.len() == got.len() && forall|j: int|
            0 <= j < got.len() ==> (#[trigger] bytes[j])@ == got[j].1,
{
    if byte_views(bytes) == ingested_bytes(got) {
        assert(byte_views(bytes).len() == bytes.len());
        assert forall|j: int| 0 <= j < got.len() implies (#[trigger] bytes[j])@ == got[j].1 by {
            assert(byte_views(bytes)[j] == ingested_bytes(got)[j]);
        }
    }
    if bytes.len() == got.len() && forall|j: int|
        0 <= j < got.len() ==> (#[trigger] bytes[j])@ == got[j].1 {
        assert(byte_views(bytes) =~= ingested_bytes(got));
    }
}

proof fn lemma_ingested_was_held(before: PullMap, held: Seq<Held>, m: int)
    requires
        0 <= m < pull_all(before, held).1.len(),
    ensures
        exists|at: int|
            0 <= at < held.len() && (#[trigger] held[at]).0 == pull_all(before, held).1[m].1
                && held[at].2 == Some(pull_all(before, held).1[m].0),
    decreases held.len(),
{
    let rest = held.drop_last();
    let (old_got, got) = (pull_all(before, rest).1, pull_all(before, held).1);
    if m < old_got.len() {
        lemma_ingested_was_held(before, rest, m);
        assert(got[m] == old_got[m]);
        let at = choose|at: int|
            0 <= at < rest.len() && (#[trigger] rest[at]).0 == old_got[m].1 && rest[at].2 == Some(
                old_got[m].0,
            );
        assert(held[at] == rest[at]);
    } else {
        assert(held[held.len() - 1] == held.last());
    }
}

/// A round in full: of the calls that it makes behind those that were made before, exactly one for
/// each wanted tag is a listing, in order. Of each that was answered, every entry that is a bundle
/// is deleted under that tag and remembered; and where it was not remembered before, bytes of this
/// bundle are ingested.
pub proof fn law_a_round_reads_every_wanted_mailbox<
    M: MailboxStore,
    F: Fn(&Vec<u8>) -> Option<BundleId>,
    const N: usize,
>(
    store: &mut M,
    spool: &[SpoolItem<N>],
    wanted: &[[u8; N]],
    spooled: &mut Dedup<(BundleId, [u8; N])>,
    pulled: &mut Dedup<BundleId>,
    id_of: F,
    res: MailboxRound,
)
    requires
        call_ensures(
            process_mailbox::<M, F, N>,
            (store, spool, wanted, spooled, pulled, id_of),
            res,
        ),
    ensures
        old(store).calls().is_prefix_of(final(store).calls()),
        ({
            let made = final(store).calls().skip(old(store).calls().len() as int);
            let lists = made.filter(|c: StoreCall| c is List);
            &&& lists.len() == wanted@.len()
            &&& forall|k: int|
                0 <= k < wanted@.len() ==> match lists[k] {
                    StoreCall::List(tag, answer) => {
                        &&& tag == bs58_text((#[trigger] wanted@[k])@)
                        &&& answer matches Ok(listed) ==> forall|j: int, b: Vec<u8>, id: BundleId|
                            0 <= j < listed.len() && b@ == (#[trigger] listed[j]).0 && (forall|
                                c: Vec<u8>,
                                r: Option<BundleId>,
                            |
                                c@ == b@ && #[trigger] call_ensures(id_of, (&c,), r) ==> r == Some(
                                    id,
                                )) && #[trigger] call_ensures(id_of, (&b,), Some(id)) ==> {
                                &&& final(pulled)@.contains_key(id@)
                                &&& exists|done: bool| #[trigger]
                                    made.contains(StoreCall::Delete(tag, id@, done))
                                &&& !old(pulled)@.contains_key(id@) ==> exists|m: int|
                                    0 <= m < res.ingest@.len() && id_given(
                                        id_of,
                                        (#[trigger] res.ingest@[m])@,
                                        Some(id@),
                                    )
                            }
                    },
                    _ => false,
                }
        }),
{
    let (stored, reads, deleted) = choose|
        stored: Seq<Taken>,
        reads: Seq<Read>,
        deleted: Seq<Seq<bool>>,
    | #[trigger]
        round_answers(id_of, spool@, wanted@, stored, reads, deleted) && final(store).calls()
            == old(store).calls() + spool_calls(old(spooled)@, spool@, stored) + pull_calls(
            wanted@,
            reads,
            deleted,
        ) && final(spooled)@ == spooled_after(old(spooled)@, spool@, stored) && final(pulled)@
            == pull_all(old(pulled)@, joined(reads)).0 && byte_views(res.ingest@) == ingested_bytes(
            pull_all(old(pulled)@, joined(reads)).1,
        ) && operator_views(res.lines@) == spool_lines(old(spooled)@, spool@, stored) + pull_lines(
            old(pulled)@,
            wanted@,
            reads,
        );
    let (before, is_list) = (old(pulled)@, |c: StoreCall| c is List);
    let spooling = spool_calls(old(spooled)@, spool@, stored);
    let reading = pull_calls(wanted@, reads, deleted);
    lemma_spooling_lists_nothing(old(spooled)@, spool@, stored);
    let made = final(store).calls().skip(old(store).calls().len() as int);
    assert(made =~= spooling + reading);
    assert(old(store).calls() =~= final(store).calls().subrange(
        0,
        old(store).calls().len() as int,
    ));
    Seq::filter_distributes_over_add(spooling, reading, is_list);
    assert forall|k: int| 0 <= k < wanted@.len() implies (#[trigger] deleted[k]).len()
        == match reads[k] {
        Ok(held) => held.len(),
        Err(_) => 0,
    } by {
        assert(read_answers(id_of, reads[k], deleted[k]));
    }
    law_each_wanted_mailbox_is_listed_once(wanted@, reads, deleted);
    let lists = made.filter(is_list);
    assert(lists =~= reading.filter(is_list));
    assert forall|k: int| 0 <= k < wanted@.len() implies match lists[k] {
        StoreCall::List(tag, answer) => {
            &&& tag == bs58_text((#[trigger] wanted@[k])@)
            &&& answer matches Ok(listed) ==> forall|j: int, b: Vec<u8>, id: BundleId|
                0 <= j < listed.len() && b@ == (#[trigger] listed[j]).0 && (forall|
                    c: Vec<u8>,
                    r: Option<BundleId>,
                |
                    c@ == b@ && #[trigger] call_ensures(id_of, (&c,), r) ==> r == Some(id))
                    && #[trigger] call_ensures(id_of, (&b,), Some(id)) ==> {
                    &&& final(pulled)@.contains_key(id@)
                    &&& exists|done: bool| #[trigger]
                        made.contains(StoreCall::Delete(tag, id@, done))
                    &&& !old(pulled)@.contains_key(id@) ==> exists|m: int|
                        0 <= m < res.ingest@.len() && id_given(
                            id_of,
                            (#[trigger] res.ingest@[m])@,
                            Some(id@),
                        )
                }
        },
        _ => false,
    } by {
        let tag = bs58_text(wanted@[k]@);
        if let Ok(held) = reads[k] {
            let listed = lists[k]->List_1->Ok_0;
            assert forall|j: int, b: Vec<u8>, id: BundleId|
                0 <= j < listed.len() && b@ == (#[trigger] listed[j]).0 && (forall|
                    c: Vec<u8>,
                    r: Option<BundleId>,
                |
                    c@ == b@ && #[trigger] call_ensures(id_of, (&c,), r) ==> r == Some(id))
                    && #[trigger] call_ensures(id_of, (&b,), Some(id)) implies {
                &&& final(pulled)@.contains_key(id@)
                &&& exists|done: bool| #[trigger]
                    made.contains(StoreCall::Delete(tag, id@, done))
                &&& !old(pulled)@.contains_key(id@) ==> exists|m: int|
                    0 <= m < res.ingest@.len() && id_given(
                        id_of,
                        (#[trigger] res.ingest@[m])@,
                        Some(id@),
                    )
            } by {
                law_ids_are_the_bundles_own(
                    id_of,
                    spool@,
                    wanted@,
                    stored,
                    reads,
                    deleted,
                    k,
                    held,
                    j,
                );
                assert(listed[j] == (held[j].0, held[j].1));
                assert(held[j].2 == Some(id@));
                law_every_wanted_bundle_is_ingested_and_deleted(
                    before,
                    wanted@,
                    reads,
                    deleted,
                    k,
                    held,
                    j,
                    id@,
                );
                let call = StoreCall::Delete(tag, id@, deleted[k][j]);
                let c = choose|c: int| 0 <= c < reading.len() && reading[c] == call;
                assert(made[spooling.len() + c] == call);
                assert(made.contains(call));
                if !before.contains_key(id@) {
                    let got = pull_all(before, joined(reads)).1;
                    let m = choose|m: int| 0 <= m < got.len() && (#[trigger] got[m]).0 == id@;
                    lemma_ingested_was_held(before, joined(reads), m);
                    let at = choose|at: int|
                        0 <= at < joined(reads).len() && (#[trigger] joined(reads)[at]).0
                            == got[m].1 && joined(reads)[at].2 == Some(got[m].0);
                    lemma_joined_ids_are_given(id_of, reads, deleted, at);
                    assert(byte_views(res.ingest@)[m] == ingested_bytes(got)[m]);
                    assert(byte_views(res.ingest@).len() == ingested_bytes(got).len());
                    assert(res.ingest@[m]@ == got[m].1);
                    assert(id_given(id_of, res.ingest@[m]@, Some(id@)));
                }
            }
        }
    }
}

proof fn lemma_spooling_lists_nothing<const N: usize>(
    before: SpoolMap,
    spool: Seq<SpoolItem<N>>,
    stored: Seq<Taken>,
)
    ensures
        spool_calls(before, spool, stored).filter(|c: StoreCall| c is List).len() == 0,
    decreases spool.len(),
{
    reveal(Seq::filter);
    if spool.len() > 0 {
        let rest = spool_calls(before, spool.drop_last(), stored);
        lemma_spooling_lists_nothing(before, spool.drop_last(), stored);
        if spool_calls(before, spool, stored) != rest {
            assert(spool_calls(before, spool, stored).drop_last() =~= rest);
        }
    }
}

proof fn lemma_joined_ids_are_given<F: Fn(&Vec<u8>) -> Option<BundleId>>(
    id_of: F,
    reads: Seq<Read>,
    deleted: Seq<Seq<bool>>,
    at: int,
)
    requires
        deleted.len() == reads.len(),
        forall|i: int|
            0 <= i < reads.len() ==> read_answers(id_of, #[trigger] reads[i], deleted[i]),
        0 <= at < joined(reads).len(),
    ensures
        id_given(id_of, joined(reads)[at].0, joined(reads)[at].2),
    decreases reads.len(),
{
    let (rest, gone) = (reads.drop_last(), deleted.drop_last());
    let before = joined(rest);
    if at < before.len() {
        assert forall|i: int| 0 <= i < rest.len() implies read_answers(
            id_of,
            #[trigger] rest[i],
            gone[i],
        ) by {
            assert(read_answers(id_of, reads[i], deleted[i]));
        }
        lemma_joined_ids_are_given(id_of, rest, gone, at);
        assert(joined(reads)[at] == before[at]);
    } else {
        let n = reads.len() - 1;
        assert(read_answers(id_of, reads[n], deleted[n]));
        assert(joined(reads)[at] == held_in(reads[n])[at - before.len()]);
    }
}

} // verus!
