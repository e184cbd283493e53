//! The backbone: which peer relays to dial.
//!
//! A relay reads in a registry which others are online. It may dial a few of those; it never dials
//! one that is not online, since that would wake it.

use vstd::prelude::*;
use vstd::string::*;

use crate::handoff::KnownRelays;
use crate::text::{same_text, texts};

verus! {

/// How often our liveness is announced.
pub const HEARTBEAT_SECS: u64 = 30;

/// How often the registry is read.
pub const OBSERVE_SECS: u64 = 30;

/// A relay that has been silent for longer than this is offline.
pub const TTL_MS: u64 = 90_000;

/// A relay that is online.
#[derive(Debug)]
pub struct OnlineRelay {
    /// Its address, in base58.
    pub node: String,
    /// Where it is reached.
    pub endpoint: String,
}

/// Node and endpoint of each relay.
pub open spec fn relay_texts(peers: Seq<OnlineRelay>) -> Seq<(Seq<char>, Seq<char>)> {
    peers.map_values(|p: OnlineRelay| (p.node@, p.endpoint@))
}

/// Is a relay online at `endpoint`?
pub open spec fn online_at(peers: Seq<(Seq<char>, Seq<char>)>, endpoint: Seq<char>) -> bool {
    exists|i: int| 0 <= i < peers.len() && (#[trigger] peers[i]).1 == endpoint
}

/// Those of `held` where a relay is online, in order.
pub open spec fn online_part(
    held: Seq<Seq<char>>,
    peers: Seq<(Seq<char>, Seq<char>)>,
) -> Seq<Seq<char>>
    decreases held.len(),
{
    if held.len() == 0 {
        Seq::empty()
    } else {
        let before = online_part(held.drop_last(), peers);
        if online_at(peers, held.last()) {
            before.push(held.last())
        } else {
            before
        }
    }
}

/// The endpoints to dial, where links to `held` are there already and `counted` of them count: in
/// the order of `peers`, none that is our own or already held, until `fanout` count in all.
pub open spec fn dials_beside(
    held: Seq<Seq<char>>,
    counted: nat,
    peers: Seq<(Seq<char>, Seq<char>)>,
    me: Seq<char>,
    fanout: nat,
) -> Seq<Seq<char>>
    decreases peers.len(),
{
    if peers.len() == 0 {
        Seq::empty()
    } else {
        let before = dials_beside(held, counted, peers.drop_last(), me, fanout);
        let (node, endpoint) = peers.last();
        if counted + before.len() >= fanout || node == me || held.contains(endpoint)
            || before.contains(endpoint) {
            before
        } else {
            before.push(endpoint)
        }
    }
}

/// The endpoints to dial, where links to `held` are there already. Of those only the ones whose
/// relays are online count toward `fanout`.
pub open spec fn to_dial(
    held: Seq<Seq<char>>,
    peers: Seq<(Seq<char>, Seq<char>)>,
    me: Seq<char>,
    fanout: nat,
) -> Seq<Seq<char>> {
    dials_beside(held, online_part(held, peers).len(), peers, me, fanout)
}

/// Learns the relays that are online.
pub fn learn_relays(known: &mut KnownRelays, peers: &[OnlineRelay])
    requires
        old(known).wf(),
    ensures
        final(known).wf(),
        forall|node: Seq<char>| #[trigger]
            final(known)@.contains_key(node) <==> (old(known)@.contains_key(node) || exists|i: int|
                0 <= i < peers@.len() && (#[trigger] peers@[i]).node@ == node),
{
    let ghost before = known@;
    let mut i: usize = 0;
    while i < peers.len()
        invariant
            i <= peers.len(),
            known.wf(),
            forall|node: Seq<char>| #[trigger]
                known@.contains_key(node) <==> (before.contains_key(node) || exists|j: int|
                    0 <= j < i && (#[trigger] peers@[j]).node@ == node),
        decreases peers.len() - i,
    {
        let ghost m = known@;
        known.insert(peers[i].node.clone(), ());
        proof {
            let new = peers@[i as int].node@;
            assert forall|node: Seq<char>| #[trigger]
                known@.contains_key(node) <==> (before.contains_key(node) || exists|j: int|
                    0 <= j < i + 1 && (#[trigger] peers@[j]).node@ == node) by {
                assert(known@.contains_key(node) <==> m.contains_key(node) || node == new);
                if m.contains_key(node) && !before.contains_key(node) {
                    let j = choose|j: int| 0 <= j < i && (#[trigger] peers@[j]).node@ == node;
                    assert(peers@[j].node@ == node);
                }
                if !before.contains_key(node) && exists|j: int|
                    0 <= j < i + 1 && (#[trigger] peers@[j]).node@ == node {
                    let j = choose|j: int| 0 <= j < i + 1 && (#[trigger] peers@[j]).node@ == node;
                    if j < i {
                        assert(m.contains_key(node));
                    }
                }
            }
        }
        i += 1;
    }
}

/// The endpoints that we hold a dialed link to, or are dialing.
pub struct Dialed {
    held: Vec<String>,
}

/// The endpoints, in the order in which they were dialed.
impl View for Dialed {
    type V = Seq<Seq<char>>;

    closed spec fn view(&self) -> Seq<Seq<char>> {
        texts(self.held@)
    }
}

/// Does `list` hold `endpoint`?
fn holds(list: &Vec<String>, endpoint: &str) -> (res: bool)
    ensures
        res == texts(list@).contains(endpoint@),
{
    let mut i: usize = 0;
    while i < list.len()
        invariant
            i <= list.len(),
            forall|j: int| 0 <= j < i ==> texts(list@)[j] != endpoint@,
        decreases list.len() - i,
    {
        if same_text(list[i].as_str(), endpoint) {
            assert(texts(list@)[i as int] == endpoint@);
            return true;
        }
        i += 1;
    }
    false
}

/// Is a relay online at `endpoint`?
fn is_online_at(peers: &[OnlineRelay], endpoint: &str) -> (res: bool)
    ensures
        res == online_at(relay_texts(peers@), endpoint@),
{
    let ghost all = relay_texts(peers@);
    let mut i: usize = 0;
    while i < peers.len()
        invariant
            i <= peers.len(),
            all == relay_texts(peers@),
            forall|j: int| 0 <= j < i ==> (#[trigger] all[j]).1 != endpoint@,
        decreases peers.len() - i,
    {
        assert(all[i as int].1 == peers@[i as int].endpoint@);
        if same_text(peers[i].endpoint.as_str(), endpoint) {
            return true;
        }
        i += 1;
    }
    false
}

impl Dialed {
    /// No link is held.
    pub fn new() -> (res: Self)
        ensures
            res@ == Seq::<Seq<char>>::empty(),
    {
        let res = Dialed { held: Vec::new() };
        assert(res@ =~= Seq::empty());
        res
    }

    /// How many of the held links lead to relays that are online.
    fn count_online(&self, peers: &[OnlineRelay]) -> (n: usize)
        ensures
            n == online_part(self@, relay_texts(peers@)).len(),
    {
        let ghost (held, all) = (self@, relay_texts(peers@));
        let mut n: usize = 0;
        let mut i: usize = 0;
        assert(held.take(0) =~= Seq::empty());
        while i < self.held.len()
            invariant
                held == texts(self.held@),
                all == relay_texts(peers@),
                n <= i <= self.held.len(),
                n == online_part(held.take(i as int), all).len(),
            decreases self.held.len() - i,
        {
            assert(held.take(i + 1).drop_last() =~= held.take(i as int));
            assert(held.take(i + 1).last() == self.held@[i as int]@);
            if is_online_at(peers, self.held[i].as_str()) {
                n += 1;
            }
            i += 1;
        }
        assert(held.take(i as int) =~= held);
        n
    }

    /// Decides which relays to dial, of those that are online: at most so many that links to
    /// `fanout` online relays are held. A link is held, and its relay not dialed, until it is
    /// closed; but it counts only while its relay is in the registry. With a `fanout` of `0`
    /// nothing is dialed. `me` is our own address, in base58.
    pub fn plan(&mut self, peers: &[OnlineRelay], me: &str, fanout: usize) -> (dials: Vec<String>)
        ensures
            texts(dials@) == to_dial(old(self)@, relay_texts(peers@), me@, fanout as nat),
            final(self)@ == old(self)@ + texts(dials@),
    {
        let ghost before = self@;
        let ghost all = relay_texts(peers@);
        let counted: usize = self.count_online(peers);
        let mut dials: Vec<String> = Vec::new();
        let mut j: usize = 0;
        assert(texts(dials@) =~= Seq::empty());
        assert(all.take(0) =~= Seq::empty());
        assert(self@ =~= before + texts(dials@));
        while j < peers.len()
            invariant
                all == relay_texts(peers@),
                j <= peers.len(),
                texts(dials@) == dials_beside(
                    before,
                    counted as nat,
                    all.take(j as int),
                    me@,
                    fanout as nat,
                ),
                dials.len() == 0 || counted + dials.len() <= fanout,
                self@ == texts(self.held@),
                self@ == before + texts(dials@),
            decreases peers.len() - j,
        {
            let ghost (had, had_held) = (texts(dials@), self@);
            let ghost (node, endpoint) = (peers@[j as int].node@, peers@[j as int].endpoint@);
            proof {
                assert(all.take(j + 1).drop_last() =~= all.take(j as int));
                assert(all.take(j + 1).last() == (node, endpoint));
                lemma_concat_contains(before, had, endpoint);
            }
            let room = counted < fanout && dials.len() < fanout - counted;
            if room && !same_text(peers[j].node.as_str(), me) && !holds(
                &self.held,
                peers[j].endpoint.as_str(),
            ) {
                self.held.push(peers[j].endpoint.clone());
                dials.push(peers[j].endpoint.clone());
                proof {
                    assert(texts(dials@) =~= had.push(endpoint));
                    assert(self@ =~= had_held.push(endpoint));
                    assert(self@ =~= before + texts(dials@));
                }
            }
            j += 1;
        }
        assert(all.take(j as int) =~= all);
        dials
    }

    /// A dialed link is gone: it may be dialed again.
    pub fn closed(&mut self, endpoint: &str)
        ensures
            final(self)@ == without(old(self)@, endpoint@),
    {
        let mut kept: Vec<String> = Vec::new();
        let ghost before = self@;
        let mut i: usize = 0;
        assert(texts(kept@) =~= Seq::empty());
        assert(before.take(0) =~= Seq::empty());
        while i < self.held.len()
            invariant
                before == texts(self.held@),
                before == self@,
                i <= self.held.len(),
                texts(kept@) == without(before.take(i as int), endpoint@),
            decreases self.held.len() - i,
        {
            let ghost had = kept@;
            assert(before.take(i + 1).drop_last() =~= before.take(i as int));
            assert(before.take(i + 1).last() == self.held@[i as int]@);
            if !same_text(self.held[i].as_str(), endpoint) {
                kept.push(self.held[i].clone());
                assert(texts(kept@) =~= texts(had).push(self.held@[i as int]@));
            }
            i += 1;
        }
        assert(before.take(i as int) =~= before);
        self.held = kept;
    }
}

/// `list` without `endpoint`.
pub open spec fn without(list: Seq<Seq<char>>, endpoint: Seq<char>) -> Seq<Seq<char>>
    decreases list.len(),
{
    if list.len() == 0 {
        Seq::empty()
    } else {
        let before = without(list.drop_last(), endpoint);
        if list.last() == endpoint {
            before
        } else {
            before.push(list.last())
        }
    }
}

proof fn lemma_concat_contains<T>(a: Seq<T>, b: Seq<T>, x: T)
    ensures
        (a + b).contains(x) <==> a.contains(x) || b.contains(x),
{
    let s = a + b;
    if a.contains(x) {
        let i = choose|i: int| 0 <= i < a.len() && a[i] == x;
        assert(s[i] == x);
    }
    if b.contains(x) {
        let i = choose|i: int| 0 <= i < b.len() && b[i] == x;
        assert(s[a.len() + i] == x);
    }
    if s.contains(x) {
        let i = choose|i: int| 0 <= i < s.len() && s[i] == x;
        if i < a.len() {
            assert(a[i] == x);
        } else {
            assert(b[i - a.len()] == x);
        }
    }
}

proof fn lemma_dials(
    held: Seq<Seq<char>>,
    counted: nat,
    peers: Seq<(Seq<char>, Seq<char>)>,
    me: Seq<char>,
    fanout: nat,
)
    ensures
        forall|i: int|
            #![trigger dials_beside(held, counted, peers, me, fanout)[i]]
            0 <= i < dials_beside(held, counted, peers, me, fanout).len() ==> {
                let endpoint = dials_beside(held, counted, peers, me, fanout)[i];
                &&& exists|j: int|
                    0 <= j < peers.len() && (#[trigger] peers[j]).1 == endpoint && peers[j].0 != me
                &&& !held.contains(endpoint)
            },
        dials_beside(held, counted, peers, me, fanout).no_duplicates(),
        dials_beside(held, counted, peers, me, fanout).len() > 0 || counted <= fanout ==> counted
            + dials_beside(held, counted, peers, me, fanout).len() <= fanout,
    decreases peers.len(),
{
    if peers.len() > 0 {
        let rest = peers.drop_last();
        lemma_dials(held, counted, rest, me, fanout);
        let before = dials_beside(held, counted, rest, me, fanout);
        let all = dials_beside(held, counted, peers, me, fanout);
        assert forall|i: int| #![trigger all[i]] 0 <= i < all.len() implies {
            &&& exists|j: int|
                0 <= j < peers.len() && (#[trigger] peers[j]).1 == all[i] && peers[j].0 != me
            &&& !held.contains(all[i])
        } by {
            if i < before.len() {
                assert(all[i] == before[i]);
                let j = choose|j: int|
                    0 <= j < rest.len() && (#[trigger] rest[j]).1 == before[i] && rest[j].0 != me;
                assert(peers[j] == rest[j]);
            } else {
                assert(peers[peers.len() - 1].1 == all[i]);
            }
        }
        assert forall|i: int, j: int|
            0 <= i < all.len() && 0 <= j < all.len() && i != j implies all[i] != all[j] by {
            if i < before.len() {
                assert(before.contains(before[i]));
            }
            if j < before.len() {
                assert(before.contains(before[j]));
            }
        }
    }
}

proof fn lemma_online_part_joins(
    a: Seq<Seq<char>>,
    b: Seq<Seq<char>>,
    peers: Seq<(Seq<char>, Seq<char>)>,
)
    requires
        forall|i: int| 0 <= i < b.len() ==> online_at(peers, #[trigger] b[i]),
    ensures
        online_part(a + b, peers) == online_part(a, peers) + b,
    decreases b.len(),
{
    if b.len() == 0 {
        assert(a + b =~= a);
        assert(online_part(a, peers) + b =~= online_part(a, peers));
    } else {
        assert((a + b).drop_last() =~= a + b.drop_last());
        assert((a + b).last() == b[b.len() - 1]);
        assert forall|i: int| 0 <= i < b.drop_last().len() implies online_at(
            peers,
            #[trigger] b.drop_last()[i],
        ) by {
            assert(b.drop_last()[i] == b[i]);
        }
        lemma_online_part_joins(a, b.drop_last(), peers);
        assert(online_part(a + b, peers) =~= online_part(a, peers) + b);
    }
}

/// Whatever is dialed is online, is not ourselves, is not held already, and is dialed once. Links
/// to no more than `fanout` online relays come to be held by it: where there were no more, there
/// are no more.
pub proof fn law_dialing_is_bounded_and_wakes_nobody(
    held: Seq<Seq<char>>,
    peers: Seq<(Seq<char>, Seq<char>)>,
    me: Seq<char>,
    fanout: nat,
)
    ensures
        forall|i: int|
            #![trigger to_dial(held, peers, me, fanout)[i]]
            0 <= i < to_dial(held, peers, me, fanout).len() ==> {
                let endpoint = to_dial(held, peers, me, fanout)[i];
                &&& exists|j: int|
                    0 <= j < peers.len() && (#[trigger] peers[j]).1 == endpoint && peers[j].0 != me
                &&& !held.contains(endpoint)
            },
        to_dial(held, peers, me, fanout).no_duplicates(),
        online_part(held + to_dial(held, peers, me, fanout), peers) == online_part(held, peers)
            + to_dial(held, peers, me, fanout),
        to_dial(held, peers, me, fanout).len() > 0 || online_part(held, peers).len() <= fanout
            ==> online_part(held + to_dial(held, peers, me, fanout), peers).len() <= fanout,
        fanout == 0 ==> to_dial(held, peers, me, fanout).len() == 0,
{
    let dials = to_dial(held, peers, me, fanout);
    lemma_dials(held, online_part(held, peers).len(), peers, me, fanout);
    assert forall|i: int| 0 <= i < dials.len() implies online_at(peers, #[trigger] dials[i]) by {
        let j = choose|j: int|
            0 <= j < peers.len() && (#[trigger] peers[j]).1 == dials[i] && peers[j].0 != me;
        assert(peers[j].1 == dials[i]);
    }
    lemma_online_part_joins(held, dials, peers);
}

/// A relay that has left the registry does not use up the fan-out, though its link is alive: where
/// fewer than `fanout` of the held links lead to relays that are online, and some other relay is
/// online, one is dialed.
pub proof fn law_a_departed_relay_makes_room(
    held: Seq<Seq<char>>,
    peers: Seq<(Seq<char>, Seq<char>)>,
    me: Seq<char>,
    fanout: nat,
    j: int,
)
    requires
        online_part(held, peers).len() < fanout,
        0 <= j < peers.len(),
        peers[j].0 != me,
        !held.contains(peers[j].1),
    ensures
        to_dial(held, peers, me, fanout).len() > 0,
{
    lemma_room_is_used(held, online_part(held, peers).len(), peers, me, fanout, j);
}

proof fn lemma_room_is_used(
    held: Seq<Seq<char>>,
    counted: nat,
    peers: Seq<(Seq<char>, Seq<char>)>,
    me: Seq<char>,
    fanout: nat,
    j: int,
)
    requires
        counted < fanout,
        0 <= j < peers.len(),
        peers[j].0 != me,
        !held.contains(peers[j].1),
    ensures
        dials_beside(held, counted, peers, me, fanout).len() > 0,
    decreases peers.len(),
{
    if j < peers.len() - 1 {
        lemma_room_is_used(held, counted, peers.drop_last(), me, fanout, j);
    }
}

/// The endpoints held after each of several registry reads, one after the other, none closed.
pub open spec fn held_after(
    held: Seq<Seq<char>>,
    reads: Seq<Seq<(Seq<char>, Seq<char>)>>,
    me: Seq<char>,
    fanout: nat,
) -> Seq<Seq<char>>
    decreases reads.len(),
{
    if reads.len() == 0 {
        held
    } else {
        let before = held_after(held, reads.drop_last(), me, fanout);
        before + to_dial(before, reads.last(), me, fanout)
    }
}

/// A relay whose link is alive is not dialed a second time, however the registry changes: while no
/// link is closed, no endpoint comes to be held twice, and none that is held leaves.
pub proof fn law_a_live_link_is_not_dialed_again(
    held: Seq<Seq<char>>,
    reads: Seq<Seq<(Seq<char>, Seq<char>)>>,
    me: Seq<char>,
    fanout: nat,
)
    requires
        held.no_duplicates(),
    ensures
        held_after(held, reads, me, fanout).no_duplicates(),
        held.is_prefix_of(held_after(held, reads, me, fanout)),
    decreases reads.len(),
{
    if reads.len() > 0 {
        law_a_live_link_is_not_dialed_again(held, reads.drop_last(), me, fanout);
        let before = held_after(held, reads.drop_last(), me, fanout);
        let dials = to_dial(before, reads.last(), me, fanout);
        let all = before + dials;
        law_dialing_is_bounded_and_wakes_nobody(before, reads.last(), me, fanout);
        assert forall|i: int, j: int| 0 <= i < j < all.len() implies all[i] != all[j] by {
            if i < before.len() && j >= before.len() {
                assert(before.contains(before[i]));
                assert(!before.contains(dials[j - before.len()]));
            }
        }
    }
}

proof fn lemma_singleton_contains<T>(a: T, x: T)
    ensures
        seq![a].contains(x) <==> a == x,
{
    assert(seq![a][0] == a);
}

/// A dialed link that is gone is held no more, and no other is touched.
pub proof fn law_a_closed_link_may_be_dialed_again(
    list: Seq<Seq<char>>,
    endpoint: Seq<char>,
    other: Seq<char>,
)
    ensures
        without(list, endpoint).contains(other) <==> list.contains(other) && other != endpoint,
    decreases list.len(),
{
    if list.len() > 0 {
        let rest = list.drop_last();
        law_a_closed_link_may_be_dialed_again(rest, endpoint, other);
        assert(list =~= rest + seq![list.last()]);
        lemma_concat_contains(rest, seq![list.last()], other);
        lemma_singleton_contains(list.last(), other);
        let before = without(rest, endpoint);
        if list.last() != endpoint {
            assert(without(list, endpoint) =~= before + seq![list.last()]);
            lemma_concat_contains(before, seq![list.last()], other);
        }
    }
}

/// Which of the held links count: those whose endpoint some relay in the registry has.
pub proof fn law_links_count_while_their_relay_is_listed(
    held: Seq<Seq<char>>,
    peers: Seq<(Seq<char>, Seq<char>)>,
)
    ensures
        online_part(held, peers) == held.filter(
            |e: Seq<char>| exists|i: int| 0 <= i < peers.len() && (#[trigger] peers[i]).1 == e,
        ),
    decreases held.len(),
{
    reveal(Seq::filter);
    let listed = |e: Seq<char>|
        exists|i: int| 0 <= i < peers.len() && (#[trigger] peers[i]).1 == e;
    if held.len() > 0 {
        law_links_count_while_their_relay_is_listed(held.drop_last(), peers);
        assert(listed(held.last()) <==> online_at(peers, held.last()));
    }
}

/// The relays in the registry have their turns one after the other: one is dialed where there is
/// room, it is not ourselves, and no link to it is held or has just been dialed; and whatever was
/// dialed before counts and is held from then on. None is passed over for where it stands.
pub proof fn law_relays_have_their_turns(
    held: Seq<Seq<char>>,
    counted: nat,
    a: Seq<(Seq<char>, Seq<char>)>,
    b: Seq<(Seq<char>, Seq<char>)>,
    relay: (Seq<char>, Seq<char>),
    me: Seq<char>,
    fanout: nat,
)
    ensures
        dials_beside(held, counted, seq![relay], me, fanout) == if counted < fanout && relay.0 != me
            && !held.contains(relay.1) {
            seq![relay.1]
        } else {
            Seq::empty()
        },
        dials_beside(held, counted, a + b, me, fanout) == dials_beside(held, counted, a, me, fanout)
            + dials_beside(
            held + dials_beside(held, counted, a, me, fanout),
            counted + dials_beside(held, counted, a, me, fanout).len(),
            b,
            me,
            fanout,
        ),
        to_dial(held, a, me, fanout) == dials_beside(
            held,
            held.filter(
                |e: Seq<char>| exists|i: int| 0 <= i < a.len() && (#[trigger] a[i]).1 == e,
            ).len(),
            a,
            me,
            fanout,
        ),
    decreases b.len(),
{
    law_links_count_while_their_relay_is_listed(held, a);
    let none = Seq::<(Seq<char>, Seq<char>)>::empty();
    assert(seq![relay].drop_last() =~= none);
    assert(dials_beside(held, counted, none, me, fanout) =~= Seq::<Seq<char>>::empty());
    assert(dials_beside(held, counted, seq![relay], me, fanout) =~= if counted < fanout && relay.0
        != me && !held.contains(relay.1) {
        seq![relay.1]
    } else {
        Seq::empty()
    });
    let first = dials_beside(held, counted, a, me, fanout);
    let with_b = dials_beside(held + first, counted + first.len(), b, me, fanout);
    if b.len() == 0 {
        assert(a + b =~= a);
        assert(first + with_b =~= first);
    } else {
        let rest = b.drop_last();
        law_relays_have_their_turns(held, counted, a, rest, relay, me, fanout);
        assert((a + b).drop_last() =~= a + rest);
        assert((a + b).last() == b.last());
        let later = dials_beside(held + first, counted + first.len(), rest, me, fanout);
        lemma_concat_contains(held, first, b.last().1);
        lemma_concat_contains(first, later, b.last().1);
        assert(dials_beside(held, counted, a + b, me, fanout) =~= first + with_b);
    }
}

/// Whoever is online, is not ourselves and has no link to it is dialed, unless links to `fanout`
/// relays that are online are there without it.
pub proof fn law_everybody_is_dialed_while_there_is_room(
    held: Seq<Seq<char>>,
    peers: Seq<(Seq<char>, Seq<char>)>,
    me: Seq<char>,
    fanout: nat,
    j: int,
)
    requires
        0 <= j < peers.len(),
        peers[j].0 != me,
        !held.contains(peers[j].1),
    ensures
        to_dial(held, peers, me, fanout).contains(peers[j].1) || online_part(held, peers).len()
            + to_dial(held, peers, me, fanout).len() >= fanout,
{
    lemma_room_is_filled(held, online_part(held, peers).len(), peers, me, fanout, j);
}

proof fn lemma_room_is_filled(
    held: Seq<Seq<char>>,
    counted: nat,
    peers: Seq<(Seq<char>, Seq<char>)>,
    me: Seq<char>,
    fanout: nat,
    j: int,
)
    requires
        0 <= j < peers.len(),
        peers[j].0 != me,
        !held.contains(peers[j].1),
    ensures
        dials_beside(held, counted, peers, me, fanout).contains(peers[j].1) || counted
            + dials_beside(held, counted, peers, me, fanout).len() >= fanout,
    decreases peers.len(),
{
    let before = dials_beside(held, counted, peers.drop_last(), me, fanout);
    let all = dials_beside(held, counted, peers, me, fanout);
    if j < peers.len() - 1 {
        lemma_room_is_filled(held, counted, peers.drop_last(), me, fanout, j);
        if before.contains(peers[j].1) {
            let i = choose|i: int| 0 <= i < before.len() && before[i] == peers[j].1;
            assert(all[i] == peers[j].1);
        }
    } else if all != before {
        assert(all[before.len() as int] == peers[j].1);
    }
}

/// What is held once a link is gone: everything else, in order.
pub proof fn law_only_the_closed_link_leaves(list: Seq<Seq<char>>, endpoint: Seq<char>)
    ensures
        without(list, endpoint) == list.filter(|e: Seq<char>| e != endpoint),
    decreases list.len(),
{
    reveal(Seq::filter);
    if list.len() > 0 {
        law_only_the_closed_link_leaves(list.drop_last(), endpoint);
    }
}

/// A relay is known by its own node and endpoint.
pub proof fn law_relays_are_read_as_they_are(peers: Seq<OnlineRelay>, i: int)
    ensures
        relay_texts(peers).len() == peers.len(),
        0 <= i < peers.len() ==> relay_texts(peers)[i] == (peers[i].node@, peers[i].endpoint@),
{
}

/// Which relays are dialed, of the call itself: relays in the registry, not ourselves, with no link
/// yet and each once; all of them, while links to fewer than `fanout` listed relays are there. They
/// are held from then on, behind those that were.
pub proof fn law_which_relays_are_dialed(
    dialed: &mut Dialed,
    peers: &[OnlineRelay],
    me: &str,
    fanout: usize,
    dials: Vec<String>,
    j: int,
)
    requires
        call_ensures(Dialed::plan, (dialed, peers, me, fanout), dials),
    ensures
        ({
            let counted = old(dialed)@.filter(
                |e: Seq<char>|
                    exists|i: int|
                        0 <= i < peers@.len() && (#[trigger] peers@[i]).endpoint@ == e,
            ).len();
            let new = Seq::new(dials@.len(), |i: int| dials@[i]@);
            &&& final(dialed)@ == old(dialed)@ + new
            &&& forall|i: int|
                0 <= i < new.len() ==> !old(dialed)@.contains(#[trigger] new[i]) && exists|p: int|
                    0 <= p < peers@.len() && (#[trigger] peers@[p]).endpoint@ == new[i]
                        && peers@[p].node@ != me@
            &&& new.no_duplicates()
            &&& new.len() > 0 ==> counted + new.len() <= fanout
            &&& 0 <= j < peers@.len() && peers@[j].node@ != me@ && !old(dialed)@.contains(
                peers@[j].endpoint@,
            ) ==> new.contains(peers@[j].endpoint@) || counted + new.len() >= fanout
        }),
{
    let (held, all) = (old(dialed)@, relay_texts(peers@));
    let listed = |e: Seq<char>|
        exists|i: int| 0 <= i < peers@.len() && (#[trigger] peers@[i]).endpoint@ == e;
    let new = Seq::new(dials@.len(), |i: int| dials@[i]@);
    assert(new =~= texts(dials@));
    law_links_count_while_their_relay_is_listed(held, all);
    law_dialing_is_bounded_and_wakes_nobody(held, all, me@, fanout as nat);
    let at = |e: Seq<char>| exists|i: int| 0 <= i < all.len() && (#[trigger] all[i]).1 == e;
    assert forall|e: Seq<char>| #[trigger] listed(e) == at(e) by {
        if listed(e) {
            let i = choose|i: int| 0 <= i < peers@.len() && (#[trigger] peers@[i]).endpoint@ == e;
            assert(all[i].1 == e);
        }
        if at(e) {
            let i = choose|i: int| 0 <= i < all.len() && (#[trigger] all[i]).1 == e;
            assert(peers@[i].endpoint@ == e);
        }
    }
    assert(listed =~= at);
    assert forall|i: int| 0 <= i < new.len() implies !held.contains(#[trigger] new[i]) && exists|
        p: int,
    |
        0 <= p < peers@.len() && (#[trigger] peers@[p]).endpoint@ == new[i] && peers@[p].node@
            != me@ by {
        let p = choose|p: int|
            0 <= p < all.len() && (#[trigger] all[p]).1 == new[i] && all[p].0 != me@;
        assert(peers@[p].endpoint@ == new[i]);
    }
    if 0 <= j < peers@.len() {
        assert(all[j] == (peers@[j].node@, peers@[j].endpoint@));
        if peers@[j].node@ != me@ && !held.contains(peers@[j].endpoint@) {
            law_everybody_is_dialed_while_there_is_room(held, all, me@, fanout as nat, j);
        }
    }
}

/// What is held once a link is closed, of the call itself: everything else, in order.
pub proof fn law_a_closed_link_is_held_no_more(dialed: &mut Dialed, endpoint: &str)
    requires
        call_ensures(Dialed::closed, (dialed, endpoint), ()),
    ensures
        ({
            let gone = endpoint@;
            final(dialed)@ == old(dialed)@.filter(|e: Seq<char>| e != gone)
        }),
{
    law_only_the_closed_link_leaves(old(dialed)@, endpoint@);
}

} // verus!
