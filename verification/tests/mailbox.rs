//! The blind-spool mailbox and its dedup tables.

use std::collections::HashMap;

use hop_relayd::keys::BundleId;
use hop_relayd::mailbox::{
    evict_expired, process_mailbox, pull_fresh, spool_due, spool_settled, Dedup, MailboxStore,
    DEDUP_CAP,
};

type Tag = [u8; 16];

/// One shared in-memory mailbox store; two workers over the same store simulate one region
/// spooling and another pulling.
#[derive(Default)]
struct FakeMailbox {
    // tag_b58 -> (bundle id -> bytes)
    boxes: HashMap<String, HashMap<BundleId, Vec<u8>>>,
    /// How many of the next calls that spool are refused.
    refusals: usize,
    /// A tag that cannot be listed.
    unlisted: Option<String>,
    keeps: bool,
    spooled: Vec<(String, BundleId, Vec<u8>, u64)>,
    listed: Vec<String>,
    deleted: Vec<(String, BundleId)>,
}

impl MailboxStore for FakeMailbox {
    fn spool_to_mailbox(
        &mut self,
        tag_b58: &str,
        id: &BundleId,
        data: &[u8],
        expires_at: u64,
    ) -> Result<(), String> {
        self.spooled.push((tag_b58.to_string(), *id, data.to_vec(), expires_at));
        if self.refusals > 0 {
            self.refusals -= 1;
            return Err("unavailable".to_string());
        }
        self.boxes.entry(tag_b58.to_string()).or_default().insert(*id, data.to_vec());
        Ok(())
    }

    fn list_mailbox(&mut self, tag_b58: &str) -> Result<Vec<(Vec<u8>, u64)>, String> {
        self.listed.push(tag_b58.to_string());
        if self.unlisted.as_deref() == Some(tag_b58) {
            return Err("unavailable".to_string());
        }
        Ok(self
            .boxes
            .get(tag_b58)
            .map(|m| m.values().map(|v| (v.clone(), 0)).collect())
            .unwrap_or_default())
    }

    fn delete_mailbox_bundle(&mut self, tag_b58: &str, id: &BundleId) -> Result<(), String> {
        self.deleted.push((tag_b58.to_string(), *id));
        if self.keeps {
            return Err("unavailable".to_string());
        }
        if let Some(m) = self.boxes.get_mut(tag_b58) {
            m.remove(id);
        }
        Ok(())
    }
}

/// A stand-in for a sealed bundle: its id in front of a body.
fn bundle(seed: u8, body: &[u8]) -> (BundleId, Vec<u8>) {
    let id = [seed; 32];
    let mut bytes = id.to_vec();
    bytes.extend_from_slice(body);
    (id, bytes)
}

fn id_of(bytes: &Vec<u8>) -> Option<BundleId> {
    bytes.get(..32).map(|head| head.try_into().unwrap())
}

fn b58(tag: &Tag) -> String {
    bs58::encode(tag).into_string()
}

fn fresh() -> (Dedup<(BundleId, Tag)>, Dedup<BundleId>) {
    (Dedup::new(), Dedup::new())
}

#[test]
fn cross_region_spool_then_want_beacon_pulls_exactly_once() {
    let mut store = FakeMailbox::default();
    let (id, bytes) = bundle(1, b"cross-region");
    let mut tag: Tag = [0; 16];
    tag[..2].copy_from_slice(&[0xab, 0xcd]);

    // Region A: no live route, so it spools the bundle. Its own dedup tables.
    let (mut sp_a, mut pl_a) = fresh();
    let out_a = process_mailbox(
        &mut store,
        &[(id, tag, bytes.clone(), 0)],
        &[],
        &mut sp_a,
        &mut pl_a,
        id_of,
    )
    .ingest;
    assert!(out_a.is_empty(), "spooling ingests nothing");
    assert_eq!(
        store.list_mailbox(&b58(&tag)).unwrap().len(),
        1,
        "bundle is durably spooled by mailbox-tag"
    );

    // Region B (another worker, the same store): the recipient asks for the tag.
    let (mut sp_b, mut pl_b) = fresh();
    let out_b = process_mailbox(&mut store, &[], &[tag], &mut sp_b, &mut pl_b, id_of).ingest;
    assert_eq!(
        out_b.len(),
        1,
        "want-beacon in region B pulls the bundle spooled in region A"
    );
    assert_eq!(id_of(&out_b[0]).unwrap(), id, "pulled the right bundle");
    assert_eq!(out_b[0], bytes);

    // Exactly once: the spool copy is deleted, so asking again pulls nothing.
    assert!(
        store.list_mailbox(&b58(&tag)).unwrap().is_empty(),
        "spool copy deleted after pull"
    );
    let (mut sp_c, mut pl_c) = fresh();
    assert!(
        process_mailbox(&mut store, &[], &[tag], &mut sp_c, &mut pl_c, id_of).ingest.is_empty(),
        "no double-delivery on re-beacon"
    );
}

#[test]
fn same_worker_pull_dedups_within_its_pulled_set() {
    let mut store = FakeMailbox::default();
    let (id, bytes) = bundle(2, b"once");
    let tag: Tag = [5; 16];
    let (mut sp, mut pl) = fresh();
    process_mailbox(&mut store, &[(id, tag, bytes, 0)], &[], &mut sp, &mut pl, id_of);
    // Put something else behind the worker's back.
    let _ = store.spool_to_mailbox(&b58(&tag), &id, b"x", 0);
    let again = process_mailbox(&mut store, &[], &[tag], &mut sp, &mut pl, id_of).ingest;
    assert!(
        again.is_empty(),
        "a bundle id already pulled by this worker is not re-ingested"
    );
}

#[test]
fn a_bundle_that_comes_back_is_not_ingested_again_but_is_deleted() {
    let mut store = FakeMailbox::default();
    let (id, bytes) = bundle(2, b"once");
    let tag: Tag = [5; 16];
    let (mut sp, mut pl) = fresh();
    let _ = store.spool_to_mailbox(&b58(&tag), &id, &bytes, 0);
    assert_eq!(
        process_mailbox(&mut store, &[], &[tag], &mut sp, &mut pl, id_of).ingest,
        vec![bytes.clone()]
    );
    let _ = store.spool_to_mailbox(&b58(&tag), &id, &bytes, 0);
    assert!(process_mailbox(&mut store, &[], &[tag], &mut sp, &mut pl, id_of).ingest.is_empty());
    assert!(store.list_mailbox(&b58(&tag)).unwrap().is_empty());
}

#[test]
fn a_bundle_under_two_wanted_tags_is_ingested_once() {
    let mut store = FakeMailbox::default();
    let (id, bytes) = bundle(3, b"twice");
    let tags: [Tag; 2] = [[1; 16], [2; 16]];
    for tag in &tags {
        let _ = store.spool_to_mailbox(&b58(tag), &id, &bytes, 0);
    }
    let (mut sp, mut pl) = fresh();
    let out = process_mailbox(&mut store, &[], &tags, &mut sp, &mut pl, id_of).ingest;
    assert_eq!(out, vec![bytes]);
    for tag in &tags {
        assert!(store.list_mailbox(&b58(tag)).unwrap().is_empty());
    }
}

#[test]
fn what_is_no_bundle_is_passed_over_and_left_where_it_is() {
    let mut store = FakeMailbox::default();
    let tag: Tag = [9; 16];
    let _ = store.spool_to_mailbox(&b58(&tag), &[1; 32], b"short", 0);
    let (mut sp, mut pl) = fresh();
    assert!(process_mailbox(&mut store, &[], &[tag], &mut sp, &mut pl, id_of).ingest.is_empty());
    assert_eq!(store.list_mailbox(&b58(&tag)).unwrap().len(), 1);
    assert_eq!(pl.len(), 0);
}

#[test]
fn a_spooled_bundle_is_not_spooled_again_and_takes_the_newer_expiry() {
    let mut store = FakeMailbox::default();
    let (id, bytes) = bundle(4, b"");
    let tag: Tag = [1; 16];
    let (mut sp, mut pl) = fresh();
    let item = |expires: u64| (id, tag, bytes.clone(), expires);
    process_mailbox(&mut store, &[item(10), item(20)], &[], &mut sp, &mut pl, id_of);
    process_mailbox(&mut store, &[item(30)], &[], &mut sp, &mut pl, id_of);
    assert_eq!(
        store.spooled,
        vec![(b58(&tag), id, bytes.clone(), 10)],
        "the store is given the bundle once, under its tag in base58"
    );
    assert_eq!(sp.get(&(id, tag)), Some(&30));
    // The same bundle under another tag is another matter.
    process_mailbox(&mut store, &[(id, [2; 16], bytes.clone(), 40)], &[], &mut sp, &mut pl, id_of);
    assert_eq!(store.spooled.len(), 2);
}

#[test]
fn a_refused_bundle_is_retried() {
    let mut store = FakeMailbox { refusals: 3, ..FakeMailbox::default() };
    let (id, bytes) = bundle(4, b"");
    let tag: Tag = [1; 16];
    let (mut sp, mut pl) = fresh();
    for _ in 0..3 {
        process_mailbox(&mut store, &[(id, tag, bytes.clone(), 9)], &[tag], &mut sp, &mut pl, id_of);
        assert!(!sp.contains_key(&(id, tag)));
    }
    assert_eq!(store.spooled.len(), 3);
}

#[test]
fn a_bundle_is_given_to_the_store_until_it_is_taken_and_no_more() {
    let mut store = FakeMailbox { refusals: 1, ..FakeMailbox::default() };
    let (id, tag): (BundleId, Tag) = ([1; 32], [2; 16]);
    let (mut sp, mut pl) = fresh();
    for round in 0..3 {
        let out =
            process_mailbox(&mut store, &[(id, tag, vec![9], 5)], &[], &mut sp, &mut pl, id_of).ingest;
        assert!(out.is_empty());
        assert_eq!(sp.len(), if round == 0 { 0 } else { 1 });
        assert_eq!(sp.get(&(id, tag)), if round == 0 { None } else { Some(&5) });
    }
    assert_eq!(store.spooled, vec![(b58(&tag), id, vec![9], 5); 2]);
    assert_eq!(pl.len(), 0);
    assert!(store.listed.is_empty() && store.deleted.is_empty());
}

#[test]
fn every_bundle_is_deleted_once_and_nothing_else_is() {
    let mut store = FakeMailbox::default();
    let tag: Tag = [9; 16];
    let (fresh_id, fresh_bytes) = bundle(1, b"fresh");
    let (known_id, known_bytes) = bundle(2, b"known");
    let _ = store.spool_to_mailbox(&b58(&tag), &fresh_id, &fresh_bytes, 0);
    let _ = store.spool_to_mailbox(&b58(&tag), &known_id, &known_bytes, 0);
    let _ = store.spool_to_mailbox(&b58(&tag), &[3; 32], b"no bundle", 0);
    let (mut sp, mut pl) = fresh();
    pl.insert(known_id, 0);
    let out = process_mailbox(&mut store, &[], &[tag], &mut sp, &mut pl, id_of).ingest;
    assert_eq!(out, vec![fresh_bytes]);
    let mut deleted = store.deleted.clone();
    deleted.sort();
    assert_eq!(deleted, vec![(b58(&tag), fresh_id), (b58(&tag), known_id)]);
    assert_eq!(store.listed, vec![b58(&tag)]);
}

#[test]
fn a_failed_deletion_changes_nothing_else() {
    let mut store = FakeMailbox { keeps: true, ..FakeMailbox::default() };
    let tag: Tag = [9; 16];
    let (id, bytes) = bundle(1, b"kept");
    let _ = store.spool_to_mailbox(&b58(&tag), &id, &bytes, 0);
    let (mut sp, mut pl) = fresh();
    assert_eq!(process_mailbox(&mut store, &[], &[tag], &mut sp, &mut pl, id_of).ingest, vec![bytes]);
    assert!(pl.contains_key(&id));
    assert!(process_mailbox(&mut store, &[], &[tag], &mut sp, &mut pl, id_of).ingest.is_empty());
    assert_eq!(store.deleted, vec![(b58(&tag), id); 2]);
}

#[test]
fn a_mailbox_that_cannot_be_listed_is_passed_over() {
    let tags: [Tag; 2] = [[1; 16], [2; 16]];
    let mut store = FakeMailbox { unlisted: Some(b58(&tags[0])), ..FakeMailbox::default() };
    let (hidden, hidden_bytes) = bundle(1, b"hidden");
    let (id, bytes) = bundle(2, b"listed");
    let _ = store.spool_to_mailbox(&b58(&tags[0]), &hidden, &hidden_bytes, 0);
    let _ = store.spool_to_mailbox(&b58(&tags[1]), &id, &bytes, 0);
    let (mut sp, mut pl) = fresh();
    assert_eq!(process_mailbox(&mut store, &[], &tags, &mut sp, &mut pl, id_of).ingest, vec![bytes]);
    assert_eq!(store.listed, vec![b58(&tags[0]), b58(&tags[1])]);
    assert_eq!(store.deleted, vec![(b58(&tags[1]), id)]);
    assert!(pl.contains_key(&id) && !pl.contains_key(&hidden));
}

#[test]
fn the_operator_is_told_of_each_spool_each_pull_and_each_failure() {
    let tags: [Tag; 2] = [[1; 16], [2; 16]];
    let mut store = FakeMailbox {
        refusals: 1,
        unlisted: Some(b58(&tags[0])),
        ..FakeMailbox::default()
    };
    let (a, b, c) = (bundle(1, b"a"), bundle(2, b"b"), bundle(3, b"c"));
    let (mut sp, mut pl) = fresh();
    pl.insert(c.0, 0);
    store.boxes.entry(b58(&tags[1])).or_default().insert(c.0, c.1.clone());
    let spool = [
        (a.0, tags[0], a.1.clone(), 9),
        (b.0, tags[1], b.1.clone(), 9),
        (b.0, tags[1], b.1.clone(), 9),
    ];
    let round = process_mailbox(&mut store, &spool, &tags, &mut sp, &mut pl, id_of);
    assert_eq!(round.ingest, vec![b.1]);
    let short = |id: &BundleId| bs58::encode(id).into_string()[..10].to_string();
    let lines: Vec<(bool, String)> =
        round.lines.into_iter().map(|l| (l.timed, l.text)).collect();
    assert_eq!(
        lines,
        vec![
            (
                true,
                format!(
                    "spool FAILED: msg {} → mailbox {}: unavailable",
                    short(&a.0),
                    &b58(&tags[0])[..8]
                )
            ),
            (true, format!("spool: msg {} → mailbox {}", short(&b.0), &b58(&tags[1])[..8])),
            (false, "spool: list_mailbox failed: unavailable".to_string()),
            (
                true,
                format!(
                    "want-beacon: pulled msg {} from mailbox {}",
                    short(&b.0),
                    &b58(&tags[1])[..8]
                )
            ),
        ]
    );
}

#[test]
fn the_steps_of_a_round() {
    let (mut sp, mut pl) = fresh();
    let (id, tag) = ([1; 32], [2; 16]);
    assert!(spool_due(&mut sp, &id, &tag, 5));
    assert!(!spool_due(&mut sp, &id, &tag, 6));
    assert_eq!(sp.get(&(id, tag)), Some(&6));
    spool_settled(&mut sp, &id, &tag, true);
    assert!(!spool_due(&mut sp, &id, &tag, 6));
    spool_settled(&mut sp, &id, &tag, false);
    assert!(spool_due(&mut sp, &id, &tag, 7));
    assert!(pull_fresh(&mut pl, &id, 1));
    assert!(!pull_fresh(&mut pl, &id, 2));
    assert_eq!(pl.get(&id), Some(&2));
}

#[test]
fn evict_expired_drops_only_past_entries_and_keeps_live_ones() {
    let now = 1_000_000u64;
    let mut m: Dedup<u32> = Dedup::new();
    m.insert(1, now - 1); // expired
    m.insert(2, now); // exactly now -> expired (not > now)
    m.insert(3, now + 1); // still live
    m.insert(4, 0); // never-expire sentinel -> kept
    evict_expired(&mut m, now);
    assert!(!m.contains_key(&1), "past entry dropped");
    assert!(!m.contains_key(&2), "at-now entry dropped");
    assert!(m.contains_key(&3), "future entry kept (still deduped, not re-written)");
    assert!(m.contains_key(&4), "never-expire entry kept");
}

#[test]
fn reload_ingest_dedup_map_evicts_expired_ids_so_it_is_bounded_not_a_leak() {
    let id_a: BundleId = [1u8; 32];
    let id_b: BundleId = [2u8; 32];
    let mut ingested: Dedup<BundleId> = Dedup::new();

    let mut t = 1_000u64;
    evict_expired(&mut ingested, t);
    assert!(ingested.insert(id_a, t + 100).is_none(), "a ingested once");
    assert!(ingested.insert(id_b, t + 5_000).is_none(), "b ingested once");
    assert!(ingested.insert(id_a, t + 100).is_some(), "a deduped");
    assert!(ingested.insert(id_b, t + 5_000).is_some(), "b deduped");

    t = 1_200;
    evict_expired(&mut ingested, t);
    assert!(!ingested.contains_key(&id_a), "expired id forgotten (bounded, no leak)");
    assert!(ingested.contains_key(&id_b), "still-live id kept (stays deduped)");
}

#[test]
fn evict_expired_bounds_a_pathological_all_future_set_without_a_wholesale_clear() {
    let now = 1_000u64;
    let cap = 100_000usize;
    assert_eq!(cap, DEDUP_CAP);
    let mut m: Dedup<u64> = Dedup::new();
    // cap + 25 entries, all far in the future.
    for i in 0..(cap as u64 + 25) {
        m.insert(i, now + 10_000_000 + i); // strictly increasing future expiries
    }
    evict_expired(&mut m, now);
    assert_eq!(m.len(), cap, "trimmed to exactly the cap, not wiped to empty");
    assert!(!m.contains_key(&0), "nearest-to-expiry evicted");
    assert!(
        m.contains_key(&(cap as u64 + 24)),
        "far-future entry retained (still deduped)"
    );
    assert!(!m.contains_key(&24));
    assert!(m.contains_key(&25));
}
