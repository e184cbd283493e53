//! The front door: what kind of request a connection brings, and which pool it is counted in.
//!
//! A connection on the WebSocket port may be a health probe, a plain HTTP visitor, or a mesh
//! link. Its kind is read off the first bytes, which stay in the socket for whoever serves it.

use vstd::prelude::*;
use vstd::string::*;

use crate::admission::{asked, cap_of, given_back, within_caps, Budgets, ConnGuard, Pool};
use crate::text::chars_of;

verus! {

/// How many bytes of a request are looked at to recognise a health probe on arrival.
pub const PROBE_PEEK_BYTES: usize = 24;

/// How many bytes of a request are looked at to classify it.
pub const HEAD_PEEK_BYTES: usize = 1_024;

/// How long a connection may keep its classification waiting.
pub const PEEK_TIMEOUT_SECS: u64 = 5;

/// What a connection on the WebSocket port wants.
#[derive(Clone, Copy, PartialEq, Eq, Structural, Debug)]
pub enum WsKind {
    /// A health probe.
    Healthz,
    /// A plain HTTP visitor, who gets the log stream.
    LogStream,
    /// A WebSocket upgrade: a mesh link.
    Upgrade,
    /// Nothing was sent.
    Empty,
}

/// `b` in lower case, where it is an ASCII letter.
pub open spec fn ascii_lower(b: u8) -> u8 {
    if 65 <= b <= 90 {
        (b + 32) as u8
    } else {
        b
    }
}

/// Does `needle` stand at `at` in `hay`, ASCII case aside?
pub open spec fn stands_at(hay: Seq<u8>, needle: Seq<char>, at: int) -> bool {
    &&& 0 <= at <= hay.len() - needle.len()
    &&& forall|j: int|
        0 <= j < needle.len() ==> ascii_lower(hay[at + j]) as u32 == (#[trigger] needle[j]) as u32
}

/// Does `needle`, which is lower-case ASCII, stand anywhere in `hay`, ASCII case aside?
pub open spec fn mentions(hay: Seq<u8>, needle: Seq<char>) -> bool {
    exists|at: int| stands_at(hay, needle, at)
}

/// Is this the request of a health probe?
pub open spec fn probes_health(head: Seq<u8>) -> bool {
    mentions(head, "get /healthz"@)
}

/// What the first bytes of a request say that it wants.
pub open spec fn kind_of(head: Seq<u8>) -> WsKind {
    if head.len() == 0 {
        WsKind::Empty
    } else if probes_health(head) {
        WsKind::Healthz
    } else if mentions(head, "upgrade: websocket"@) {
        WsKind::Upgrade
    } else {
        WsKind::LogStream
    }
}

fn lower(b: u8) -> (res: u8)
    ensures
        res == ascii_lower(b),
{
    if 65 <= b && b <= 90 {
        b + 32
    } else {
        b
    }
}

/// Does `needle`, which is lower-case ASCII, stand anywhere in `hay`, ASCII case aside?
fn mentions_text(hay: &[u8], needle: &str) -> (res: bool)
    ensures
        res == mentions(hay@, needle@),
{
    let chars = chars_of(needle);
    let n: usize = hay.len();
    if chars.len() > n {
        return false;
    }
    let last: usize = n - chars.len();
    let mut at: usize = 0;
    loop
        invariant
            chars@ == needle@,
            hay@.len() == n,
            n - chars@.len() == last,
            at <= last,
            forall|i: int| 0 <= i < at ==> !stands_at(hay@, needle@, i),
        decreases last - at,
    {
        let mut j: usize = 0;
        while j < chars.len() && lower(hay[at + j]) as u32 == chars[j] as u32
            invariant
                chars@ == needle@,
                hay@.len() == n,
                n - chars@.len() == last,
                at <= last,
                j <= chars.len(),
                forall|i: int|
                    0 <= i < j ==> ascii_lower(hay@[at + i]) as u32 == (#[trigger] needle@[i])
                        as u32,
            decreases chars.len() - j,
        {
            j += 1;
        }
        if j == chars.len() {
            assert(stands_at(hay@, needle@, at as int));
            return true;
        }
        assert(!stands_at(hay@, needle@, at as int)) by {
            assert(ascii_lower(hay@[at + j]) as u32 != needle@[j as int] as u32);
        }
        if at == last {
            return false;
        }
        at += 1;
    }
}

/// Is this the request of a health probe? `head` is what has arrived of it so far, without
/// waiting; nothing, where nothing has.
pub fn peek_is_healthz(head: &[u8]) -> (res: bool)
    ensures
        res == probes_health(head@),
{
    mentions_text(head, "get /healthz")
}

/// What a connection wants, from the first bytes of its request; `None` where none could be read
/// in time.
pub fn classify_ws_peek(head: Option<&[u8]>) -> (kind: WsKind)
    ensures
        match head {
            Some(bytes) => kind == kind_of(bytes@),
            None => kind == WsKind::Empty,
        },
{
    match head {
        Some(bytes) => {
            if bytes.len() == 0 {
                WsKind::Empty
            } else if mentions_text(bytes, "get /healthz") {
                WsKind::Healthz
            } else if mentions_text(bytes, "upgrade: websocket") {
                WsKind::Upgrade
            } else {
                WsKind::LogStream
            }
        },
        None => WsKind::Empty,
    }
}

/// What becomes of a connection on the raw-TCP port.
#[derive(Debug)]
pub enum TcpPlan {
    /// It is served as a mesh link, on this slot.
    Serve(ConnGuard),
    /// It is dropped.
    Shed,
}

/// What becomes of a connection on the WebSocket port when it arrives.
#[derive(Debug)]
pub enum AcceptPlan {
    /// The health probe is answered at once.
    AnswerProbe,
    /// It is classified off the accept loop, on this slot.
    Classify(ConnGuard),
    /// It is dropped.
    Shed,
}

/// What becomes of a connection on the WebSocket port once its kind is known.
#[derive(Debug)]
pub enum ServePlan {
    /// The health probe is answered.
    AnswerProbe,
    /// The log is streamed to it, on this slot.
    StreamLog(ConnGuard),
    /// The upgrade is accepted and the link served, on this slot.
    ServeLink(ConnGuard),
    /// It is dropped.
    Shed,
}

/// Admits a connection on the raw-TCP port as a mesh link, or sheds it.
pub fn spawn_tcp_conn(budgets: &mut Budgets) -> (plan: TcpPlan)
    requires
        within_caps(old(budgets)@),
    ensures
        within_caps(final(budgets)@),
        asked(old(budgets)@, Pool::Mesh, final(budgets)@, plan is Serve),
        plan matches TcpPlan::Serve(guard) ==> guard.pool() == Pool::Mesh,
{
    match budgets.admit_conn() {
        Some(guard) => TcpPlan::Serve(guard),
        None => TcpPlan::Shed,
    }
}

/// Decides on a connection that has just arrived on the WebSocket port, of which `head` is
/// already there. A health probe is answered, whatever pools are full; anything else takes a
/// pending slot, or is shed.
pub fn dispatch_ws_accept(budgets: &mut Budgets, head: &[u8]) -> (plan: AcceptPlan)
    requires
        within_caps(old(budgets)@),
    ensures
        within_caps(final(budgets)@),
        (plan is AnswerProbe) == probes_health(head@),
        plan is AnswerProbe ==> final(budgets)@ == old(budgets)@,
        plan !is AnswerProbe ==> asked(
            old(budgets)@,
            Pool::Pending,
            final(budgets)@,
            plan is Classify,
        ),
        plan matches AcceptPlan::Classify(guard) ==> guard.pool() == Pool::Pending,
{
    if peek_is_healthz(head) {
        return AcceptPlan::AnswerProbe;
    }
    match budgets.admit_ws_pending() {
        Some(guard) => AcceptPlan::Classify(guard),
        None => AcceptPlan::Shed,
    }
}

/// `after` is `before` once a connection of `kind` has given its pending slot back and been put
/// where it belongs by `plan`.
pub open spec fn served(
    before: Map<Pool, nat>,
    pending: Pool,
    kind: WsKind,
    after: Map<Pool, nat>,
    plan: ServePlan,
) -> bool {
    let freed = given_back(before, pending);
    match kind {
        WsKind::Healthz => plan is AnswerProbe && after == freed,
        WsKind::LogStream => {
            &&& asked(freed, Pool::Log, after, plan is StreamLog)
            &&& plan is StreamLog || plan is Shed
            &&& plan matches ServePlan::StreamLog(guard) ==> guard.pool() == Pool::Log
        },
        WsKind::Upgrade => {
            &&& asked(freed, Pool::Mesh, after, plan is ServeLink)
            &&& plan is ServeLink || plan is Shed
            &&& plan matches ServePlan::ServeLink(guard) ==> guard.pool() == Pool::Mesh
        },
        WsKind::Empty => plan is Shed && after == freed,
    }
}

/// Decides on a connection whose kind is now known: its pending slot is given back, and it is
/// counted in the pool that its kind belongs to. A health probe is counted nowhere.
pub fn admit_and_serve_ws(budgets: &mut Budgets, pending: ConnGuard, kind: WsKind) -> (plan:
    ServePlan)
    requires
        within_caps(old(budgets)@),
        old(budgets)@[pending.pool()] > 0,
    ensures
        within_caps(final(budgets)@),
        served(old(budgets)@, pending.pool(), kind, final(budgets)@, plan),
{
    budgets.release(pending);
    match kind {
        WsKind::Healthz => ServePlan::AnswerProbe,
        WsKind::LogStream => match budgets.admit_log_conn() {
            Some(guard) => ServePlan::StreamLog(guard),
            None => ServePlan::Shed,
        },
        WsKind::Upgrade => match budgets.admit_conn() {
            Some(guard) => ServePlan::ServeLink(guard),
            None => ServePlan::Shed,
        },
        WsKind::Empty => ServePlan::Shed,
    }
}

/// A health probe is answered however full the pools are, and takes no slot.
pub proof fn law_probes_are_exempt(
    before: Map<Pool, nat>,
    after: Map<Pool, nat>,
    plan: ServePlan,
)
    requires
        before[Pool::Pending] > 0,
        served(before, Pool::Pending, WsKind::Healthz, after, plan),
    ensures
        plan is AnswerProbe,
        after[Pool::Mesh] == before[Pool::Mesh],
        after[Pool::Log] == before[Pool::Log],
        after[Pool::Pending] + 1 == before[Pool::Pending],
{
}

/// Only an upgrade is ever counted as a mesh link; a log viewer takes one log slot and no other.
pub proof fn law_only_upgrades_take_mesh_slots(
    before: Map<Pool, nat>,
    kind: WsKind,
    after: Map<Pool, nat>,
    plan: ServePlan,
)
    requires
        before[Pool::Pending] > 0,
        served(before, Pool::Pending, kind, after, plan),
    ensures
        kind !is Upgrade ==> after[Pool::Mesh] == before[Pool::Mesh],
        kind is Upgrade && before[Pool::Mesh] < cap_of(Pool::Mesh) ==> plan is ServeLink
            && after[Pool::Mesh] == before[Pool::Mesh] + 1,
        kind is Upgrade && before[Pool::Mesh] >= cap_of(Pool::Mesh) ==> plan is Shed
            && after[Pool::Mesh] == before[Pool::Mesh],
        kind is LogStream && before[Pool::Log] < cap_of(Pool::Log) ==> plan is StreamLog
            && after[Pool::Log] == before[Pool::Log] + 1,
        kind is LogStream && before[Pool::Log] >= cap_of(Pool::Log) ==> plan is Shed
            && after[Pool::Log] == before[Pool::Log],
        after[Pool::Pending] + 1 == before[Pool::Pending],
{
}

/// Letter case makes no difference to what a request wants.
pub proof fn law_case_makes_no_difference(a: Seq<u8>, b: Seq<u8>)
    requires
        a.len() == b.len(),
        forall|i: int| 0 <= i < a.len() ==> ascii_lower(#[trigger] a[i]) == ascii_lower(b[i]),
    ensures
        kind_of(a) == kind_of(b),
{
    lemma_mentions_alike(a, b, "get /healthz"@);
    lemma_mentions_alike(b, a, "get /healthz"@);
    lemma_mentions_alike(a, b, "upgrade: websocket"@);
    lemma_mentions_alike(b, a, "upgrade: websocket"@);
}

proof fn lemma_mentions_alike(a: Seq<u8>, b: Seq<u8>, needle: Seq<char>)
    requires
        a.len() == b.len(),
        forall|i: int| 0 <= i < a.len() ==> ascii_lower(#[trigger] a[i]) == ascii_lower(b[i]),
    ensures
        mentions(a, needle) ==> mentions(b, needle),
{
    if mentions(a, needle) {
        let at = choose|at: int| stands_at(a, needle, at);
        assert forall|j: int| 0 <= j < needle.len() implies ascii_lower(b[at + j]) as u32
            == (#[trigger] needle[j]) as u32 by {
            let c = a[at + j];
        }
        assert(stands_at(b, needle, at));
    }
}

/// Is `h` the lower-case text `word`, each letter in either case?
pub open spec fn in_any_case(h: Seq<u8>, word: Seq<char>) -> bool {
    &&& h.len() == word.len()
    &&& forall|j: int|
        0 <= j < word.len() ==> (#[trigger] h[j] == word[j] as u32 || (97 <= word[j] as u32
            <= 122 && h[j] + 32 == word[j] as u32))
}

proof fn lemma_stands_in_any_case(head: Seq<u8>, word: Seq<char>, at: int)
    requires
        0 <= at <= head.len() - word.len(),
        forall|j: int| 0 <= j < word.len() ==> !(65 <= (#[trigger] word[j]) as u32 <= 90),
    ensures
        stands_at(head, word, at) <==> in_any_case(head.subrange(at, at + word.len()), word),
{
    let h = head.subrange(at, at + word.len());
    if stands_at(head, word, at) {
        assert forall|j: int| 0 <= j < word.len() implies (#[trigger] h[j] == word[j] as u32 || (97
            <= word[j] as u32 <= 122 && h[j] + 32 == word[j] as u32)) by {
            assert(ascii_lower(head[at + j]) as u32 == word[j] as u32);
        }
    }
    if in_any_case(h, word) {
        assert forall|j: int| 0 <= j < word.len() implies ascii_lower(head[at + j]) as u32 == (
        #[trigger] word[j]) as u32 by {
            assert(h[j] == head[at + j]);
        }
    }
}

proof fn lemma_words_are_lower_case()
    ensures
        "get /healthz"@.len() == 12,
        "upgrade: websocket"@.len() == 18,
        forall|j: int| 0 <= j < 12 ==> !(65 <= (#[trigger] "get /healthz"@[j]) as u32 <= 90),
        forall|j: int| 0 <= j < 18 ==> !(65 <= (#[trigger] "upgrade: websocket"@[j]) as u32
            <= 90),
{
    reveal_strlit("get /healthz");
    reveal_strlit("upgrade: websocket");
}

/// Wherever in the first bytes it stands, and in whatever letter case, `get /healthz` makes a
/// request a probe, on arrival and when it is classified; and `upgrade: websocket` makes one that
/// is no probe an upgrade.
pub proof fn law_a_header_is_found_wherever_it_stands(
    before: Seq<u8>,
    h: Seq<u8>,
    after: Seq<u8>,
    head: &[u8],
    kind: WsKind,
    probe: bool,
)
    requires
        head@ == before + h + after,
        call_ensures(classify_ws_peek, (Some(head),), kind),
        call_ensures(peek_is_healthz, (head,), probe),
    ensures
        in_any_case(h, "get /healthz"@) ==> kind is Healthz && probe,
        in_any_case(h, "upgrade: websocket"@) ==> kind is Upgrade || kind is Healthz,
        in_any_case(h, "upgrade: websocket"@) && (forall|at: int|
            0 <= at <= head@.len() - 12 ==> !in_any_case(
                #[trigger] head@.subrange(at, at + 12),
                "get /healthz"@,
            )) ==> kind is Upgrade,
{
    lemma_words_are_lower_case();
    let at = before.len() as int;
    if in_any_case(h, "get /healthz"@) {
        assert(head@.subrange(at, at + 12) =~= h);
        lemma_stands_in_any_case(head@, "get /healthz"@, at);
    }
    if in_any_case(h, "upgrade: websocket"@) {
        assert(head@.subrange(at, at + 18) =~= h);
        lemma_stands_in_any_case(head@, "upgrade: websocket"@, at);
        if kind is Healthz {
            let found = choose|found: int| stands_at(head@, "get /healthz"@, found);
            lemma_stands_in_any_case(head@, "get /healthz"@, found);
        }
    }
}

/// Nothing else makes a request a probe or an upgrade: what holds neither header wants the log
/// stream, and only where there is nothing at all is it not known what is wanted.
pub proof fn law_what_holds_no_header_wants_the_log(head: &[u8], kind: WsKind, probe: bool)
    requires
        call_ensures(classify_ws_peek, (Some(head),), kind),
        call_ensures(peek_is_healthz, (head,), probe),
    ensures
        head@.len() == 0 <==> kind is Empty,
        probe <==> kind is Healthz,
        kind is Healthz ==> exists|at: int|
            0 <= at <= head@.len() - 12 && in_any_case(
                #[trigger] head@.subrange(at, at + 12),
                "get /healthz"@,
            ),
        kind is Upgrade ==> exists|at: int|
            0 <= at <= head@.len() - 18 && in_any_case(
                #[trigger] head@.subrange(at, at + 18),
                "upgrade: websocket"@,
            ),
        head@.len() > 0 && (forall|at: int|
            0 <= at <= head@.len() - 12 ==> !in_any_case(
                #[trigger] head@.subrange(at, at + 12),
                "get /healthz"@,
            )) && (forall|at: int|
            0 <= at <= head@.len() - 18 ==> !in_any_case(
                #[trigger] head@.subrange(at, at + 18),
                "upgrade: websocket"@,
            )) ==> kind is LogStream,
{
    lemma_words_are_lower_case();
    if mentions(head@, "get /healthz"@) {
        let at = choose|at: int| stands_at(head@, "get /healthz"@, at);
        lemma_stands_in_any_case(head@, "get /healthz"@, at);
        assert(in_any_case(head@.subrange(at, at + 12), "get /healthz"@));
    }
    if mentions(head@, "upgrade: websocket"@) {
        let at = choose|at: int| stands_at(head@, "upgrade: websocket"@, at);
        lemma_stands_in_any_case(head@, "upgrade: websocket"@, at);
        assert(in_any_case(head@.subrange(at, at + 18), "upgrade: websocket"@));
    }
}

/// A connection of which nothing could be read in time is dropped: it takes no slot, and gives its
/// pending one back.
pub proof fn law_a_silent_connection_is_dropped(
    before: Map<Pool, nat>,
    kind: WsKind,
    after: Map<Pool, nat>,
    plan: ServePlan,
)
    requires
        call_ensures(classify_ws_peek, (None,), kind),
        before[Pool::Pending] > 0,
        served(before, Pool::Pending, kind, after, plan),
    ensures
        plan is Shed,
        after == before.insert(Pool::Pending, (before[Pool::Pending] - 1) as nat),
{
}

/// What becomes of a connection, in numbers: an upgrade is served exactly while fewer than 1024
/// mesh links are open, a visitor gets the log exactly while fewer than 64 watch, each on a slot of
/// its own pool; and nothing else changes but that the pending slot is given back.
pub proof fn law_where_a_connection_is_counted(
    before: Map<Pool, nat>,
    kind: WsKind,
    after: Map<Pool, nat>,
    plan: ServePlan,
)
    requires
        before[Pool::Pending] > 0,
        served(before, Pool::Pending, kind, after, plan),
    ensures
        ({
            let freed = before.insert(Pool::Pending, (before[Pool::Pending] - 1) as nat);
            &&& plan is AnswerProbe <==> kind is Healthz
            &&& plan is ServeLink <==> kind is Upgrade && before[Pool::Mesh] < 1_024
            &&& plan is StreamLog <==> kind is LogStream && before[Pool::Log] < 64
            &&& plan matches ServePlan::ServeLink(guard) ==> guard.pool() is Mesh
            &&& plan matches ServePlan::StreamLog(guard) ==> guard.pool() is Log
            &&& plan is ServeLink ==> after == freed.insert(Pool::Mesh, before[Pool::Mesh] + 1)
            &&& plan is StreamLog ==> after == freed.insert(Pool::Log, before[Pool::Log] + 1)
            &&& plan is AnswerProbe || plan is Shed ==> after == freed
        }),
{
}

/// A connection on the raw-TCP port is served exactly while fewer than 1024 mesh links are open, on
/// a mesh slot; and no other pool changes.
pub proof fn law_tcp_connections_take_mesh_slots(budgets: &mut Budgets, plan: TcpPlan)
    requires
        within_caps(old(budgets)@),
        call_ensures(spawn_tcp_conn, (budgets,), plan),
    ensures
        plan is Serve <==> old(budgets)@[Pool::Mesh] < 1_024,
        plan matches TcpPlan::Serve(guard) ==> guard.pool() is Mesh && final(budgets)@ == old(budgets)@.insert(Pool::Mesh, old(budgets)@[Pool::Mesh] + 1),
        plan is Shed ==> final(budgets)@ == old(budgets)@,
{
}

/// A connection that arrives on the WebSocket port is answered at once exactly where what is there
/// of it holds `get /healthz`, in any letter case, and then takes no slot. Any other is classified
/// exactly while fewer than 2048 are, on a pending slot.
pub proof fn law_arrivals_take_pending_slots(
    budgets: &mut Budgets,
    head: &[u8],
    plan: AcceptPlan,
    at: int,
)
    requires
        within_caps(old(budgets)@),
        call_ensures(dispatch_ws_accept, (budgets, head), plan),
    ensures
        0 <= at <= head@.len() - 12 && in_any_case(head@.subrange(at, at + 12), "get /healthz"@)
            ==> plan is AnswerProbe,
        plan is AnswerProbe ==> exists|i: int|
            0 <= i <= head@.len() - 12 && in_any_case(
                #[trigger] head@.subrange(i, i + 12),
                "get /healthz"@,
            ),
        plan is AnswerProbe || plan is Shed ==> final(budgets)@ == old(budgets)@,
        plan !is AnswerProbe ==> (plan is Classify <==> old(budgets)@[Pool::Pending] < 2_048),
        plan matches AcceptPlan::Classify(guard) ==> guard.pool() is Pending && final(budgets)@
            == old(budgets)@.insert(Pool::Pending, old(budgets)@[Pool::Pending] + 1),
{
    lemma_words_are_lower_case();
    if 0 <= at <= head@.len() - 12 {
        lemma_stands_in_any_case(head@, "get /healthz"@, at);
    }
    if mentions(head@, "get /healthz"@) {
        let i = choose|i: int| stands_at(head@, "get /healthz"@, i);
        lemma_stands_in_any_case(head@, "get /healthz"@, i);
        assert(in_any_case(head@.subrange(i, i + 12), "get /healthz"@));
    }
}

/// A connection whose kind is known gives its pending slot back and takes one of its own pool, or
/// none.
pub proof fn law_a_classified_connection_changes_pools(
    budgets: &mut Budgets,
    pending: ConnGuard,
    kind: WsKind,
    plan: ServePlan,
)
    requires
        within_caps(old(budgets)@),
        pending.pool() is Pending,
        old(budgets)@[Pool::Pending] > 0,
        call_ensures(admit_and_serve_ws, (budgets, pending, kind), plan),
    ensures
        kind is Healthz ==> plan is AnswerProbe,
        kind is Empty ==> plan is Shed,
        kind is Upgrade ==> (plan is ServeLink <==> old(budgets)@[Pool::Mesh] < 1_024) && (plan
            is ServeLink || plan is Shed),
        kind is LogStream ==> (plan is StreamLog <==> old(budgets)@[Pool::Log] < 64) && (plan
            is StreamLog || plan is Shed),
        final(budgets)@[Pool::Pending] + 1 == old(budgets)@[Pool::Pending],
        final(budgets)@[Pool::Mesh] == old(budgets)@[Pool::Mesh] + if plan is ServeLink {
            1int
        } else {
            0int
        },
        final(budgets)@[Pool::Log] == old(budgets)@[Pool::Log] + if plan is StreamLog {
            1int
        } else {
            0int
        },
{
    law_where_a_connection_is_counted(old(budgets)@, kind, final(budgets)@, plan);
}

} // verus!
