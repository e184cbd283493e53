//! What the handoff worker does over all its cycles.
//!
//! [`crate::handoff`] says what the worker does at each turn, by the table of what it has handed
//! over. Here that is told from the writes themselves: a bundle is written into a region's
//! partition exactly where its device was last seen there and no write of it that succeeded is
//! still remembered.

use vstd::prelude::*;

use crate::handoff::{
    cycle_acts, cycle_after, cycle_answers, handed_by_cycle, locate_from, region_found, CycleAction,
    CycleEvent, CycleView, HandedMap,
};
use crate::identity::{blake3_hash, region_seed_input};
use crate::keys::{BundleId, PubKeyBytes};
use crate::mailbox::{evicted_expired, DEDUP_CAP};
use crate::table::{live_part, Aged};

verus! {

/// Bundles for devices that are not here: id, device, bytes, expiry.
pub type Undeliverable = Seq<(BundleId, PubKeyBytes, Vec<u8>, u64)>;

/// A step of the worker.
pub enum WorkerStep {
    /// [`crate::handoff::HandoffWorker::begin_cycle`] at this time.
    Begin(u64),
    /// [`crate::handoff::handoff_turn`] with so many devices, these bundles and this event.
    Turn(nat, Undeliverable, CycleEvent),
}

/// The `k`-th step leads from where the worker stands, and from what it remembers as handed over,
/// to the next. Within a cycle the devices and the bundles stay the same.
pub open spec fn worker_step(
    here: Seq<char>,
    steps: Seq<WorkerStep>,
    phases: Seq<CycleView>,
    handed: Seq<HandedMap>,
    k: int,
) -> bool {
    match steps[k] {
        WorkerStep::Begin(now) => {
            &&& phases[k] is Over
            &&& phases[k + 1] is Over
            &&& evicted_expired(handed[k], now, handed[k + 1])
        },
        WorkerStep::Turn(devices, bundles, ev) => {
            &&& cycle_answers(phases[k], ev, devices, bundles.len())
            &&& phases[k + 1] == cycle_after(phases[k], ev, handed[k], here, devices, bundles)
            &&& handed[k + 1] == handed_by_cycle(phases[k], ev, handed[k], here, bundles)
            &&& phases[k] is Over || (k > 0 && (steps[k - 1] matches WorkerStep::Turn(d, b, _) && d
                == devices && b == bundles))
        },
    }
}

/// `phases` are where the worker of the region `here` stands before, between and after its steps,
/// and `handed` is what it then remembers as handed over: at first nothing.
pub open spec fn worker_run(
    here: Seq<char>,
    steps: Seq<WorkerStep>,
    phases: Seq<CycleView>,
    handed: Seq<HandedMap>,
) -> bool {
    &&& phases.len() == steps.len() + 1
    &&& handed.len() == steps.len() + 1
    &&& phases[0] is Over
    &&& handed[0] == HandedMap::empty()
    &&& forall|k: int|
        0 <= k < steps.len() ==> #[trigger] worker_step(here, steps, phases, handed, k)
}

/// Does the `k`-th step tell that the device of the bundle `key.0` was last seen in the region
/// `key.1`?
pub open spec fn sights(
    steps: Seq<WorkerStep>,
    phases: Seq<CycleView>,
    k: int,
    key: (Seq<u8>, Seq<char>),
) -> bool {
    match (phases[k], steps[k]) {
        (
            CycleView::Locating(i),
            WorkerStep::Turn(_, bundles, CycleEvent::Located(answer)),
        ) => bundles[i as int].0@ == key.0 && region_found(answer) == Some(key.1),
        _ => false,
    }
}

/// The expiry of the bundle that the `k`-th step is about.
pub open spec fn expiry_at(steps: Seq<WorkerStep>, phases: Seq<CycleView>, k: int) -> u64 {
    match (phases[k], steps[k]) {
        (CycleView::Locating(i), WorkerStep::Turn(_, bundles, _)) => bundles[i as int].3,
        _ => 0,
    }
}

/// Does the `k`-th step tell that the bundle `key.0` was written into the partition of the region
/// `key.1`?
pub open spec fn stores(
    steps: Seq<WorkerStep>,
    phases: Seq<CycleView>,
    k: int,
    key: (Seq<u8>, Seq<char>),
) -> bool {
    match (phases[k], steps[k]) {
        (
            CycleView::Handing(i, region),
            WorkerStep::Turn(_, bundles, CycleEvent::Handed(error)),
        ) => error is None && bundles[i as int].0@ == key.0 && region == key.1,
        _ => false,
    }
}

/// The expiry that the bundle `key.0` had when its device was last seen in the region `key.1`,
/// before the `n`-th step.
pub open spec fn recorded_expiry(
    steps: Seq<WorkerStep>,
    phases: Seq<CycleView>,
    n: int,
    key: (Seq<u8>, Seq<char>),
) -> u64
    decreases n,
{
    if n <= 0 {
        0
    } else if sights(steps, phases, n - 1, key) {
        expiry_at(steps, phases, n - 1)
    } else {
        recorded_expiry(steps, phases, n - 1, key)
    }
}

/// Was the recorded expiry ahead whenever a cycle began between the `k`-th and the `n`-th step?
pub open spec fn unexpired_since(
    steps: Seq<WorkerStep>,
    phases: Seq<CycleView>,
    k: int,
    n: int,
    key: (Seq<u8>, Seq<char>),
) -> bool {
    forall|d: int|
        k < d < n && (#[trigger] steps[d]) is Begin ==> recorded_expiry(
            steps,
            phases,
            d,
            key,
        ).live_at(steps[d]->Begin_0)
}

/// Was the bundle `key.0` written into the partition of the region `key.1` before the `n`-th step,
/// and has it not expired since?
pub open spec fn handed_already(
    steps: Seq<WorkerStep>,
    phases: Seq<CycleView>,
    n: int,
    key: (Seq<u8>, Seq<char>),
) -> bool {
    exists|k: int|
        0 <= k < n && #[trigger] stores(steps, phases, k, key) && unexpired_since(
            steps,
            phases,
            k,
            n,
            key,
        )
}

/// Has the table of what was handed over never had to be cut down to [`DEDUP_CAP`]?
pub open spec fn within_dedup_cap(steps: Seq<WorkerStep>, handed: Seq<HandedMap>) -> bool {
    forall|d: int|
        0 <= d < steps.len() && (#[trigger] steps[d]) is Begin ==> live_part(
            handed[d],
            steps[d]->Begin_0,
        ).len() <= DEDUP_CAP
}

/// Is the bundle `key.0` being written, before the `n`-th step, into the partition of `key.1`?
spec fn pending(
    steps: Seq<WorkerStep>,
    phases: Seq<CycleView>,
    n: int,
    key: (Seq<u8>, Seq<char>),
) -> bool {
    match phases[n] {
        CycleView::Handing(i, region) => n > 0 && (steps[n - 1] matches WorkerStep::Turn(_, b, _)
            && b[i as int].0@ == key.0 && region == key.1),
        _ => false,
    }
}

proof fn lemma_handed_already_step(
    steps: Seq<WorkerStep>,
    phases: Seq<CycleView>,
    n: int,
    key: (Seq<u8>, Seq<char>),
)
    requires
        0 <= n < steps.len(),
    ensures
        handed_already(steps, phases, n + 1, key) <==> stores(steps, phases, n, key) || (
        handed_already(steps, phases, n, key) && (steps[n] matches WorkerStep::Begin(now)
            ==> recorded_expiry(steps, phases, n, key).live_at(now))),
{
    if handed_already(steps, phases, n + 1, key) && !stores(steps, phases, n, key) {
        let k = choose|k: int|
            0 <= k < n + 1 && #[trigger] stores(steps, phases, k, key) && unexpired_since(
                steps,
                phases,
                k,
                n + 1,
                key,
            );
        assert(unexpired_since(steps, phases, k, n, key));
        let last = steps[n];
    }
    if stores(steps, phases, n, key) {
        assert(unexpired_since(steps, phases, n, n + 1, key));
    }
    if handed_already(steps, phases, n, key) && (steps[n] matches WorkerStep::Begin(now)
        ==> recorded_expiry(steps, phases, n, key).live_at(now)) {
        let k = choose|k: int|
            0 <= k < n && #[trigger] stores(steps, phases, k, key) && unexpired_since(
                steps,
                phases,
                k,
                n,
                key,
            );
        assert(unexpired_since(steps, phases, k, n + 1, key));
    }
}

/// What is remembered as handed over is what was written and has not expired, and what is being
/// written.
proof fn lemma_table_follows_the_writes(
    here: Seq<char>,
    steps: Seq<WorkerStep>,
    phases: Seq<CycleView>,
    handed: Seq<HandedMap>,
    n: int,
    key: (Seq<u8>, Seq<char>),
)
    requires
        worker_run(here, steps, phases, handed),
        within_dedup_cap(steps, handed),
        0 <= n <= steps.len(),
    ensures
        handed[n].contains_key(key) <==> handed_already(steps, phases, n, key) || pending(
            steps,
            phases,
            n,
            key,
        ),
        pending(steps, phases, n, key) ==> !handed_already(steps, phases, n, key),
        handed[n].contains_key(key) ==> handed[n][key] == recorded_expiry(steps, phases, n, key),
        handed[n].contains_key(key) ==> key.1 != here,
        phases[n] is Handing ==> n > 0 && steps[n - 1] is Turn,
    decreases n,
{
    if n > 0 {
        let i = n - 1;
        lemma_table_follows_the_writes(here, steps, phases, handed, i, key);
        assert(worker_step(here, steps, phases, handed, i));
        lemma_handed_already_step(steps, phases, i, key);
        match steps[i] {
            WorkerStep::Begin(now) => {
                let live = live_part(handed[i], now);
                assert(live.len() <= DEDUP_CAP);
                assert(handed[n] == live);
                assert(live.contains_key(key) <==> handed[i].contains_key(key)
                    && handed[i][key].live_at(now));
            },
            WorkerStep::Turn(devices, bundles, ev) => {},
        }
    }
}

/// Over all cycles, a bundle is written into the partition of a region exactly where its device
/// was last seen there, that is not our own region, and no earlier write of it into that partition
/// which succeeded is still unexpired: each expiry that was recorded since was ahead when the next
/// cycle began. It is written under the identity of that region's relay. Where it is not written,
/// the worker goes on to the next bundle.
///
/// This holds while the table of what was handed over is within its cap.
pub proof fn law_handed_over_exactly_where_owed(
    here: Seq<char>,
    base_seed: Seq<u8>,
    steps: Seq<WorkerStep>,
    phases: Seq<CycleView>,
    handed: Seq<HandedMap>,
    n: int,
    i: nat,
    devices: nat,
    bundles: Undeliverable,
    answer: Result<Option<String>, String>,
    action: CycleAction,
)
    requires
        worker_run(here, steps, phases, handed),
        within_dedup_cap(steps, handed),
        0 <= n < steps.len(),
        phases[n] == CycleView::Locating(i),
        steps[n] == WorkerStep::Turn(devices, bundles, CycleEvent::Located(answer)),
        cycle_acts(phases[n + 1], base_seed, bundles, action),
    ensures
        action is Hand <==> (region_found(answer) matches Some(r) && r != here && !handed_already(
            steps,
            phases,
            n,
            (bundles[i as int].0@, r),
        )),
        action matches CycleAction::Hand(at, write) ==> at == i && Some(write.region@)
            == region_found(answer) && write.seed@ == blake3_hash(
            region_seed_input(base_seed, write.region@),
        ),
        action !is Hand ==> phases[n + 1] == locate_from(i + 1, bundles.len()),
{
    assert(worker_step(here, steps, phases, handed, n));
    if let Some(r) = region_found(answer) {
        lemma_table_follows_the_writes(
            here,
            steps,
            phases,
            handed,
            n,
            (bundles[i as int].0@, r),
        );
    }
}

/// A write that succeeded is behind a sighting, one step before it.
proof fn lemma_a_write_follows_its_sighting(
    here: Seq<char>,
    steps: Seq<WorkerStep>,
    phases: Seq<CycleView>,
    handed: Seq<HandedMap>,
    k: int,
    key: (Seq<u8>, Seq<char>),
)
    requires
        worker_run(here, steps, phases, handed),
        0 <= k < steps.len(),
        stores(steps, phases, k, key),
    ensures
        k > 0,
        sights(steps, phases, k - 1, key),
{
    assert(worker_step(here, steps, phases, handed, k));
    assert(worker_step(here, steps, phases, handed, k - 1));
}

proof fn lemma_one_expiry(
    steps: Seq<WorkerStep>,
    phases: Seq<CycleView>,
    n: int,
    key: (Seq<u8>, Seq<char>),
    k: int,
    expires: u64,
)
    requires
        0 <= k < n <= steps.len(),
        sights(steps, phases, k, key),
        forall|j: int|
            0 <= j < steps.len() && #[trigger] sights(steps, phases, j, key) ==> expiry_at(
                steps,
                phases,
                j,
            ) == expires,
    ensures
        recorded_expiry(steps, phases, n, key) == expires,
    decreases n,
{
    if !sights(steps, phases, n - 1, key) {
        lemma_one_expiry(steps, phases, n - 1, key, k, expires);
    }
}

/// The same, for a bundle whose expiry does not change and under a clock that does not go back: it
/// is written into the partition of another region where its device was last seen, exactly where
/// it has expired by the beginning of the cycle or was never yet written there with success.
///
/// The one exception is a bundle that had expired when the cycle began and is listed in it twice:
/// `begun` is the step at which the cycle began, and such a bundle is left out.
pub proof fn law_handed_over_once_until_it_expires(
    here: Seq<char>,
    base_seed: Seq<u8>,
    steps: Seq<WorkerStep>,
    phases: Seq<CycleView>,
    handed: Seq<HandedMap>,
    begun: int,
    now: u64,
    n: int,
    i: nat,
    devices: nat,
    bundles: Undeliverable,
    answer: Result<Option<String>, String>,
    region: Seq<char>,
    action: CycleAction,
)
    requires
        worker_run(here, steps, phases, handed),
        within_dedup_cap(steps, handed),
        0 <= begun < n < steps.len(),
        steps[begun] == WorkerStep::Begin(now),
        forall|d: int| begun < d < n ==> (#[trigger] steps[d]) !is Begin,
        forall|d: int|
            0 <= d < begun && (#[trigger] steps[d]) is Begin ==> steps[d]->Begin_0 <= now,
        phases[n] == CycleView::Locating(i),
        steps[n] == WorkerStep::Turn(devices, bundles, CycleEvent::Located(answer)),
        cycle_acts(phases[n + 1], base_seed, bundles, action),
        region_found(answer) == Some(region),
        forall|j: int|
            0 <= j < steps.len() && #[trigger] sights(
                steps,
                phases,
                j,
                (bundles[i as int].0@, region),
            ) ==> expiry_at(steps, phases, j) == bundles[i as int].3,
        bundles[i as int].3.live_at(now) || forall|j: int|
            begun < j < n ==> !#[trigger] sights(
                steps,
                phases,
                j,
                (bundles[i as int].0@, region),
            ),
    ensures
        action is Hand <==> region != here && !(bundles[i as int].3.live_at(now) && exists|k: int|
            0 <= k < n && #[trigger] stores(steps, phases, k, (bundles[i as int].0@, region))),
{
    let (key, expires) = ((bundles[i as int].0@, region), bundles[i as int].3);
    law_handed_over_exactly_where_owed(
        here,
        base_seed,
        steps,
        phases,
        handed,
        n,
        i,
        devices,
        bundles,
        answer,
        action,
    );
    let ever = exists|k: int| 0 <= k < n && #[trigger] stores(steps, phases, k, key);
    if handed_already(steps, phases, n, key) {
        let k = choose|k: int|
            0 <= k < n && #[trigger] stores(steps, phases, k, key) && unexpired_since(
                steps,
                phases,
                k,
                n,
                key,
            );
        lemma_a_write_follows_its_sighting(here, steps, phases, handed, k, key);
        if k < begun {
            lemma_one_expiry(steps, phases, begun, key, k - 1, expires);
            assert(steps[begun] is Begin);
        } else {
            assert(worker_step(here, steps, phases, handed, begun));
            assert(k != begun);
            assert(k - 1 != begun);
            assert(sights(steps, phases, k - 1, key));
        }
    }
    if ever && expires.live_at(now) {
        let k = choose|k: int| 0 <= k < n && #[trigger] stores(steps, phases, k, key);
        lemma_a_write_follows_its_sighting(here, steps, phases, handed, k, key);
        assert forall|d: int| k < d < n && (#[trigger] steps[d]) is Begin implies recorded_expiry(
            steps,
            phases,
            d,
            key,
        ).live_at(steps[d]->Begin_0) by {
            lemma_one_expiry(steps, phases, d, key, k - 1, expires);
            if d > begun {
                assert(steps[d] !is Begin);
            }
        }
        assert(unexpired_since(steps, phases, k, n, key));
    }
}

} // verus!
