//! The live log: a ring of recent public lines, fanned out to whoever watches.
//!
//! Anybody may open the log stream. So by default it shows who this node is and its totals, and
//! nothing else; the lines on single events are shown only where the operator has asked for it.

use std::collections::VecDeque;

use vstd::prelude::*;
use vstd::string::*;

use crate::lines::{LineKind, PublicLine};
use crate::text::{
    decimal, hms, hms_text, law_numbers_are_read_as_they_are_written, law_only_digits_are_a_number,
    opt_str, parse_unsigned, parsed_unsigned, same_text, texts,
};

verus! {

/// How many lines the ring holds.
pub const RING_LINES: usize = 400;

/// How long a viewer may watch, unless it is set otherwise.
pub const LOG_STREAM_MAX_MS: u64 = 600_000;

/// How long a viewer waits at most for something to be written to it.
pub const KEEPALIVE_NS: u64 = 15_000_000_000;

/// How long a write to a viewer may take.
pub const LOG_WRITE_TIMEOUT_SECS: u64 = 15;

/// Are the lines on single events public? `value` is what the operator has set, if anything.
pub open spec fn public_setting(value: Option<Seq<char>>) -> bool {
    value matches Some(v) && (v == "1"@ || v == "true"@ || v == "yes"@)
}

/// Are the lines on single events public? `value` is what the operator has set, if anything.
pub fn public_log_stream_enabled(value: Option<&str>) -> (res: bool)
    ensures
        res == public_setting(opt_str(value)),
{
    match value {
        Some(v) => same_text(v, "1") || same_text(v, "true") || same_text(v, "yes"),
        None => false,
    }
}

/// How long a viewer may watch, in milliseconds: what `value` says, where it is a number, else
/// [`LOG_STREAM_MAX_MS`].
pub fn log_stream_max_ms(value: Option<&str>) -> (ms: u64)
    ensures
        ms == match value {
            Some(v) => match parsed_unsigned(v@, u64::MAX as nat) {
                Some(n) => n,
                None => LOG_STREAM_MAX_MS as nat,
            },
            None => LOG_STREAM_MAX_MS as nat,
        },
{
    match value {
        Some(v) => match parse_unsigned(v, u64::MAX) {
            Some(n) => n,
            None => LOG_STREAM_MAX_MS,
        },
        None => LOG_STREAM_MAX_MS,
    }
}

/// A line behind its time.
pub open spec fn stamped_text(now_ms: u64, line: Seq<char>) -> Seq<char> {
    hms_text(now_ms) + " "@ + line
}

/// A line behind its time.
pub fn stamped(now_ms: u64, line: &str) -> (res: String)
    ensures
        res@ == stamped_text(now_ms, line@),
{
    let mut res = hms(now_ms);
    res.append(" ");
    res.append(line);
    res
}

/// The last [`RING_LINES`] of `lines`.
pub open spec fn latest(lines: Seq<Seq<char>>) -> Seq<Seq<char>> {
    if lines.len() > RING_LINES {
        lines.skip(lines.len() - RING_LINES)
    } else {
        lines
    }
}

/// What lines tell of, and what they say.
pub open spec fn line_views(lines: Seq<PublicLine>) -> Seq<(LineKind, Seq<char>)> {
    lines.map_values(|l: PublicLine| l@)
}

/// What each of `viewers` viewers is given of a line: the line, once.
pub open spec fn one_each(line: (LineKind, Seq<char>), viewers: nat) -> Seq<(LineKind, Seq<char>)> {
    Seq::new(viewers, |i: int| line)
}

/// A public line that is being put out.
#[derive(Debug)]
pub struct Emission {
    /// The line with its time, for the operator.
    pub text: String,
    /// For each viewer, in order, what is to be handed to it.
    pub deliveries: Vec<PublicLine>,
}

/// Those of `subs` that `taken` marks, in order.
pub open spec fn still_there<S>(subs: Seq<S>, taken: Seq<bool>) -> Seq<S>
    decreases subs.len(),
{
    if subs.len() == 0 {
        Seq::empty()
    } else {
        let before = still_there(subs.drop_last(), taken);
        if taken[subs.len() - 1] {
            before.push(subs.last())
        } else {
            before
        }
    }
}

/// The live log. `S` is how a viewer is reached.
pub struct LogHub<S> {
    who: String,
    ring: VecDeque<String>,
    subs: Vec<S>,
}

impl<S> LogHub<S> {
    /// What the stream leads with.
    pub closed spec fn who(&self) -> Seq<char> {
        self.who@
    }

    /// The recent lines, the oldest first.
    pub closed spec fn ring(&self) -> Seq<Seq<char>> {
        texts(self.ring@)
    }

    /// The viewers.
    pub closed spec fn subs(&self) -> Seq<S> {
        self.subs@
    }

    /// The ring holds at most [`RING_LINES`] lines.
    pub open spec fn wf(&self) -> bool {
        self.ring().len() <= RING_LINES
    }

    /// A log without lines or viewers.
    pub fn new() -> (res: Self)
        ensures
            res.wf(),
            res.who() == Seq::<char>::empty(),
            res.ring() == Seq::<Seq<char>>::empty(),
            res.subs() == Seq::<S>::empty(),
    {
        let res = LogHub { who: String::new(), ring: VecDeque::new(), subs: Vec::new() };
        assert(res.ring() =~= Seq::<Seq<char>>::empty());
        res
    }

    /// Sets what the stream leads with.
    pub fn set_identity(&mut self, who: String)
        ensures
            final(self).who() == who@,
            final(self).ring() == old(self).ring(),
            final(self).subs() == old(self).subs(),
    {
        self.who = who;
    }

    /// Appends a line to the ring, and drops the oldest where that makes too many.
    fn remember(&mut self, text: String)
        requires
            old(self).wf(),
        ensures
            final(self).wf(),
            final(self).ring() == latest(old(self).ring().push(text@)),
            final(self).who() == old(self).who(),
            final(self).subs() == old(self).subs(),
    {
        let ghost before = self.ring@;
        self.ring.push_back(text);
        assert(texts(self.ring@) =~= texts(before).push(text@));
        if self.ring.len() > RING_LINES {
            let ghost full = self.ring@;
            self.ring.pop_front();
            assert(self.ring@ =~= full.skip(1));
            assert(texts(self.ring@) =~= texts(full).skip(1));
        }
    }

    /// Puts out a public line: into the ring, and for every viewer. The viewers are handed their
    /// lines outside; [`LogHub::keep_viewers`] then settles which of them are still there.
    pub fn emit(&mut self, line: &PublicLine, now_ms: u64) -> (out: Emission)
        requires
            old(self).wf(),
        ensures
            final(self).wf(),
            out.text@ == stamped_text(now_ms, line@.1),
            line_views(out.deliveries@) == one_each((line@.0, out.text@), old(self).subs().len()),
            final(self).ring() == latest(old(self).ring().push(out.text@)),
            final(self).who() == old(self).who(),
            final(self).subs() == old(self).subs(),
    {
        let text = stamped(now_ms, line.text.as_str());
        self.remember(text.clone());
        let mut deliveries: Vec<PublicLine> = Vec::new();
        let n: usize = self.subs.len();
        let mut i: usize = 0;
        assert(line_views(deliveries@) =~= one_each((line.kind, text@), 0));
        while i < n
            invariant
                i <= n,
                line_views(deliveries@) == one_each((line.kind, text@), i as nat),
            decreases n - i,
        {
            let ghost had = deliveries@;
            deliveries.push(PublicLine { kind: line.kind, text: text.clone() });
            proof {
                assert(line_views(deliveries@) =~= line_views(had).push((line.kind, text@)));
                assert(one_each((line.kind, text@), (i + 1) as nat) =~= one_each(
                    (line.kind, text@),
                    i as nat,
                ).push((line.kind, text@)));
            }
            i += 1;
        }
        Emission { text, deliveries }
    }

    /// How the `i`-th viewer is reached.
    pub fn viewer(&self, i: usize) -> (sub: &S)
        requires
            i < self.subs().len(),
        ensures
            *sub == self.subs()[i as int],
    {
        &self.subs[i]
    }

    /// Forgets the viewers that are gone: `taken` tells for each, in order, whether it took what
    /// it was handed.
    pub fn keep_viewers(&mut self, taken: &Vec<bool>)
        requires
            taken@.len() == old(self).subs().len(),
        ensures
            final(self).subs() == still_there(old(self).subs(), taken@),
            final(self).ring() == old(self).ring(),
            final(self).who() == old(self).who(),
    {
        let ghost before = self.subs@;
        let mut subs: Vec<S> = Vec::new();
        std::mem::swap(&mut subs, &mut self.subs);
        let mut kept: Vec<S> = Vec::new();
        let mut i: usize = 0;
        let n: usize = taken.len();
        assert(before.take(0) =~= Seq::<S>::empty());
        for sub in it: subs
            invariant
                it.seq() == before,
                i == it.index(),
                n == before.len(),
                n == taken@.len(),
                kept@ == still_there(before.take(it.index() as int), taken@),
        {
            let ghost at = it.index() as int;
            assert(sub == before[at]);
            assert(before.take(at + 1).drop_last() =~= before.take(at));
            assert(before.take(at + 1).last() == before[at]);
            if taken[i] {
                kept.push(sub);
            }
            i += 1;
        }
        self.subs = kept;
        assert(before.take(before.len() as int) =~= before);
    }

    /// Adds a viewer; returns what the stream leads with, and the recent lines, where lines on
    /// single events are public.
    pub fn subscribe(&mut self, sub: S, public: bool) -> (res: (String, Vec<String>))
        ensures
            res.0@ == old(self).who(),
            texts(res.1@) == if public {
                old(self).ring()
            } else {
                Seq::empty()
            },
            final(self).who() == old(self).who(),
            final(self).ring() == old(self).ring(),
            final(self).subs() == old(self).subs().push(sub),
    {
        self.subs.push(sub);
        let mut backlog: Vec<String> = Vec::new();
        if public {
            let n: usize = self.ring.len();
            let mut i: usize = 0;
            assert(self.ring@.take(0) =~= Seq::<String>::empty());
            while i < n
                invariant
                    n == self.ring@.len(),
                    i <= n,
                    texts(backlog@) == texts(self.ring@.take(i as int)),
                decreases n - i,
            {
                let ghost had = backlog@;
                backlog.push(self.ring[i].clone());
                proof {
                    assert(texts(backlog@) =~= texts(had).push(self.ring@[i as int]@));
                    assert(texts(self.ring@.take(i + 1)) =~= texts(
                        self.ring@.take(i as int),
                    ).push(self.ring@[i as int]@));
                }
                i += 1;
            }
            assert(self.ring@.take(n as int) =~= self.ring@);
        } else {
            assert(texts(backlog@) =~= Seq::empty());
        }
        (self.who.clone(), backlog)
    }
}

/// The ring always holds the newest line, and never more than [`RING_LINES`].
pub proof fn law_the_ring_is_bounded_and_keeps_the_newest(ring: Seq<Seq<char>>, line: Seq<char>)
    requires
        ring.len() <= RING_LINES,
    ensures
        latest(ring.push(line)).len() <= RING_LINES,
        latest(ring.push(line)).last() == line,
        ring.len() < RING_LINES ==> latest(ring.push(line)) == ring.push(line),
        ring.len() == RING_LINES ==> latest(ring.push(line)) == ring.skip(1).push(line),
{
    if ring.len() == RING_LINES {
        assert(latest(ring.push(line)) =~= ring.skip(1).push(line));
    }
}

/// How many of the first `n` viewers are still there.
pub open spec fn kept_before(taken: Seq<bool>, n: int) -> int
    decreases n,
{
    if n <= 0 {
        0
    } else {
        kept_before(taken, n - 1) + if taken[n - 1] {
            1int
        } else {
            0int
        }
    }
}

proof fn lemma_still_there_so_far<S>(subs: Seq<S>, taken: Seq<bool>, n: int)
    requires
        0 <= n <= subs.len(),
    ensures
        still_there(subs.take(n), taken).len() == kept_before(taken, n),
        still_there(subs.take(n), taken).is_prefix_of(still_there(subs, taken)),
    decreases subs.len(),
{
    if n == subs.len() {
        assert(subs.take(n) =~= subs);
        if n > 0 {
            let rest = subs.drop_last();
            lemma_still_there_so_far(rest, taken, n - 1);
            assert(rest.take(n - 1) =~= rest);
        }
    } else {
        let rest = subs.drop_last();
        lemma_still_there_so_far(rest, taken, n);
        assert(rest.take(n) =~= subs.take(n));
    }
}

proof fn lemma_a_viewer_that_took_stays<S>(subs: Seq<S>, taken: Seq<bool>, at: int)
    requires
        0 <= at < subs.len(),
        taken[at],
    ensures
        0 <= kept_before(taken, at) < still_there(subs, taken).len(),
        still_there(subs, taken)[kept_before(taken, at)] == subs[at],
{
    lemma_still_there_so_far(subs, taken, at);
    lemma_still_there_so_far(subs, taken, at + 1);
    assert(subs.take(at + 1).drop_last() =~= subs.take(at));
    assert(subs.take(at + 1).last() == subs[at]);
    let (part, all) = (still_there(subs.take(at + 1), taken), still_there(subs, taken));
    let k = kept_before(taken, at);
    assert(part[k] == subs[at]);
    assert(part[k] == all.subrange(0, part.len() as int)[k]);
}

/// The `i`-th line was put out to the viewers `subs[i]`, of whom those that `taken[i]` marks are
/// still there, and `new[i]` came before the next line.
pub open spec fn hub_turn<S>(
    subs: Seq<Seq<S>>,
    taken: Seq<Seq<bool>>,
    new: Seq<Seq<S>>,
    i: int,
) -> bool {
    taken[i].len() == subs[i].len() && subs[i + 1] == still_there(subs[i], taken[i]) + new[i]
}

/// Where among the viewers the one is, at the `n`-th line, that was the `at`-th at the first.
pub open spec fn place(taken: Seq<Seq<bool>>, at: int, n: int) -> int
    decreases n,
{
    if n <= 0 {
        at
    } else {
        kept_before(taken[n - 1], place(taken, at, n - 1))
    }
}

/// What the viewer that was the `at`-th at the first of `lines` is handed.
pub open spec fn handed_to<S>(
    subs: Seq<Seq<S>>,
    taken: Seq<Seq<bool>>,
    lines: Seq<(LineKind, Seq<char>)>,
    at: int,
) -> Seq<(LineKind, Seq<char>)> {
    Seq::new(lines.len(), |i: int| one_each(lines[i], subs[i].len())[place(taken, at, i)])
}

/// A viewer that stays is handed exactly the lines that are put out after it came, each once and
/// in order, whoever else comes and goes.
pub proof fn law_a_viewer_gets_every_later_line_once<S>(
    subs: Seq<Seq<S>>,
    taken: Seq<Seq<bool>>,
    new: Seq<Seq<S>>,
    lines: Seq<(LineKind, Seq<char>)>,
    at: int,
)
    requires
        subs.len() == lines.len() + 1,
        forall|i: int| 0 <= i < lines.len() ==> #[trigger] hub_turn(subs, taken, new, i),
        0 <= at < subs[0].len(),
        forall|i: int| 0 <= i < lines.len() ==> taken[i][#[trigger] place(taken, at, i)],
    ensures
        handed_to(subs, taken, lines, at) == lines,
        forall|i: int|
            0 <= i <= lines.len() ==> 0 <= #[trigger] place(taken, at, i) < subs[i].len()
                && subs[i][place(taken, at, i)] == subs[0][at],
{
    assert forall|i: int| 0 <= i <= lines.len() implies 0 <= #[trigger] place(taken, at, i)
        < subs[i].len() && subs[i][place(taken, at, i)] == subs[0][at] by {
        lemma_a_viewer_stays_the_same(subs, taken, new, lines, at, i);
    }
    assert forall|i: int| 0 <= i < lines.len() implies handed_to(subs, taken, lines, at)[i]
        == lines[i] by {
        assert(0 <= place(taken, at, i) < subs[i].len());
    }
    assert(handed_to(subs, taken, lines, at) =~= lines);
}

proof fn lemma_a_viewer_stays_the_same<S>(
    subs: Seq<Seq<S>>,
    taken: Seq<Seq<bool>>,
    new: Seq<Seq<S>>,
    lines: Seq<(LineKind, Seq<char>)>,
    at: int,
    n: int,
)
    requires
        subs.len() == lines.len() + 1,
        forall|i: int| 0 <= i < lines.len() ==> #[trigger] hub_turn(subs, taken, new, i),
        0 <= at < subs[0].len(),
        forall|i: int| 0 <= i < lines.len() ==> taken[i][#[trigger] place(taken, at, i)],
        0 <= n <= lines.len(),
    ensures
        0 <= place(taken, at, n) < subs[n].len(),
        subs[n][place(taken, at, n)] == subs[0][at],
    decreases n,
{
    if n > 0 {
        let i = n - 1;
        lemma_a_viewer_stays_the_same(subs, taken, new, lines, at, i);
        assert(hub_turn(subs, taken, new, i));
        lemma_a_viewer_that_took_stays(subs[i], taken[i], place(taken, at, i));
    }
}

/// Lines on single events are public exactly where the operator has set `1`, `true` or `yes`.
pub proof fn law_the_log_is_private_unless_asked(value: Option<&str>, public: bool)
    requires
        call_ensures(public_log_stream_enabled, (value,), public),
    ensures
        value is None ==> !public,
        value matches Some(v) ==> (public <==> v@ == "1"@ || v@ == "true"@ || v@ == "yes"@),
{
}

/// A viewer may watch for as many milliseconds as are set, and for ten minutes where no number is.
pub proof fn law_how_long_a_viewer_may_watch(
    unset: Option<&str>,
    value: &str,
    n: nat,
    at: int,
    ms: u64,
    default_ms: u64,
)
    requires
        unset is None,
        call_ensures(log_stream_max_ms, (unset,), default_ms),
        call_ensures(log_stream_max_ms, (Some(value),), ms),
    ensures
        default_ms == 600_000,
        n <= u64::MAX && value@ == decimal(n) ==> ms == n,
        n > u64::MAX && value@ == decimal(n) ==> ms == 600_000,
        value@.len() == 0 ==> ms == 600_000,
        0 < at < value@.len() && !(48 <= value@[at] as u32 <= 57) ==> ms == 600_000,
{
    law_numbers_are_read_as_they_are_written(n, u64::MAX as nat);
    law_only_digits_are_a_number(value@, at, u64::MAX as nat);
}

/// A line is stamped with the time of day and a blank, and is otherwise as it was.
pub proof fn law_a_line_is_stamped_in_front(now_ms: u64, line: &str, res: String, time: String)
    requires
        call_ensures(stamped, (now_ms, line), res),
        call_ensures(hms, (now_ms,), time),
    ensures
        res@ == time@ + " "@ + line@,
{
}

/// The ring holds the last 400 of the lines that were put out, in order: all of them where there
/// were no more.
pub proof fn law_the_ring_holds_the_last_lines(lines: Seq<Seq<char>>)
    ensures
        lines.len() <= 400 ==> latest(lines) == lines,
        lines.len() > 400 ==> latest(lines).len() == 400,
        forall|i: int|
            0 <= i < latest(lines).len() ==> #[trigger] latest(lines)[i] == lines[lines.len()
                - latest(lines).len() + i],
        forall|more: Seq<char>| #[trigger]
            latest(latest(lines).push(more)) == latest(lines.push(more)),
{
    assert forall|more: Seq<char>| #[trigger] latest(latest(lines).push(more)) == latest(
        lines.push(more),
    ) by {
        assert(latest(latest(lines).push(more)) =~= latest(lines.push(more)));
    }
}

/// Every viewer is handed the line, with its kind, once.
pub proof fn law_every_viewer_gets_the_line(
    lines: Seq<PublicLine>,
    line: (LineKind, Seq<char>),
    viewers: nat,
    i: int,
)
    requires
        line_views(lines) == one_each(line, viewers),
        0 <= i < viewers,
    ensures
        lines.len() == viewers,
        lines[i].kind == line.0,
        lines[i].text@ == line.1,
{
    assert(line_views(lines).len() == viewers);
    assert(line_views(lines)[i] == line);
}

/// Who is still there: of the viewers, in order, those that took what they were handed.
pub proof fn law_only_lost_viewers_are_forgotten<S>(
    a: Seq<S>,
    b: Seq<S>,
    sub: S,
    took_a: Seq<bool>,
    took_b: Seq<bool>,
)
    requires
        took_a.len() == a.len(),
        took_b.len() == b.len(),
    ensures
        still_there(seq![sub], seq![true]) == seq![sub],
        still_there(seq![sub], seq![false]).len() == 0,
        still_there(a + b, took_a + took_b) == still_there(a, took_a) + still_there(b, took_b),
    decreases b.len(),
{
    reveal_with_fuel(still_there, 2);
    assert(seq![sub].drop_last() =~= Seq::<S>::empty());
    assert(still_there(seq![sub], seq![true]) =~= seq![sub]);
    if b.len() == 0 {
        assert(a + b =~= a && took_a + took_b =~= took_a);
        assert(still_there(a, took_a) + still_there(b, took_b) =~= still_there(a, took_a));
    } else {
        let (rest, took_rest) = (b.drop_last(), took_b.drop_last());
        law_only_lost_viewers_are_forgotten(a, rest, sub, took_a, took_rest);
        assert((a + b).drop_last() =~= a + rest);
        lemma_answers_beyond_do_not_matter(a + rest, took_a + took_rest, took_a + took_b);
        lemma_answers_beyond_do_not_matter(rest, took_rest, took_b);
        assert(still_there(a + b, took_a + took_b) =~= still_there(a, took_a) + still_there(
            b,
            took_b,
        ));
    }
}

proof fn lemma_answers_beyond_do_not_matter<S>(subs: Seq<S>, x: Seq<bool>, y: Seq<bool>)
    requires
        subs.len() <= x.len(),
        subs.len() <= y.len(),
        forall|i: int| 0 <= i < subs.len() ==> #[trigger] x[i] == y[i],
    ensures
        still_there(subs, x) == still_there(subs, y),
    decreases subs.len(),
{
    if subs.len() > 0 {
        lemma_answers_beyond_do_not_matter(subs.drop_last(), x, y);
        assert(x[subs.len() - 1] == y[subs.len() - 1]);
    }
}

/// A line that is put out reaches the ring and every viewer, of the call itself: stamped with its
/// time, with its kind, once for each; who watches stays the same.
pub proof fn law_a_line_reaches_everybody<S>(
    hub: &mut LogHub<S>,
    line: &PublicLine,
    now_ms: u64,
    out: Emission,
    time: String,
    i: int,
)
    requires
        old(hub).wf(),
        call_ensures(LogHub::<S>::emit, (hub, line, now_ms), out),
        call_ensures(hms, (now_ms,), time),
    ensures
        out.text@ == time@ + " "@ + line.text@,
        out.deliveries@.len() == old(hub).subs().len(),
        0 <= i < old(hub).subs().len() ==> out.deliveries@[i].kind == line.kind
            && out.deliveries@[i].text@ == out.text@,
        old(hub).ring().len() < 400 ==> final(hub).ring() == old(hub).ring().push(out.text@),
        old(hub).ring().len() == 400 ==> final(hub).ring() == old(hub).ring().skip(1).push(
            out.text@,
        ),
        old(hub).ring().len() <= 400,
        final(hub).subs() == old(hub).subs(),
        final(hub).who() == old(hub).who(),
{
    law_the_ring_is_bounded_and_keeps_the_newest(old(hub).ring(), out.text@);
    assert(line_views(out.deliveries@).len() == old(hub).subs().len());
    if 0 <= i < old(hub).subs().len() {
        law_every_viewer_gets_the_line(
            out.deliveries@,
            (line.kind, out.text@),
            old(hub).subs().len(),
            i,
        );
    }
}

/// Whoever comes to watch is added behind those who do, and is given who this node is, and every
/// recent line, where lines on single events are public, else none; and whoever took what it was
/// handed stays.
pub proof fn law_viewers_come_and_go<S>(
    hub: &mut LogHub<S>,
    sub: S,
    public: bool,
    res: (String, Vec<String>),
    after: &mut LogHub<S>,
    taken: &Vec<bool>,
    i: int,
)
    requires
        call_ensures(LogHub::<S>::subscribe, (hub, sub, public), res),
        taken@.len() == old(after).subs().len(),
        call_ensures(LogHub::<S>::keep_viewers, (after, taken), ()),
    ensures
        res.0@ == old(hub).who(),
        public ==> res.1@.len() == old(hub).ring().len(),
        public && 0 <= i < res.1@.len() ==> res.1@[i]@ == old(hub).ring()[i],
        !public ==> res.1@.len() == 0,
        final(hub).subs() == old(hub).subs().push(sub),
        final(hub).ring() == old(hub).ring(),
        final(hub).who() == old(hub).who(),
        0 <= i < taken@.len() && taken@[i] ==> final(after).subs().contains(old(after).subs()[i]),
        (forall|j: int| 0 <= j < taken@.len() ==> #[trigger] taken@[j]) ==> final(after).subs()
            == old(after).subs(),
        (forall|j: int| 0 <= j < taken@.len() ==> !#[trigger] taken@[j]) ==> final(after).subs().len() == 0,
        final(after).ring() == old(after).ring(),
        final(after).who() == old(after).who(),
{
    assert(texts(res.1@).len() == res.1@.len());
    if public && 0 <= i < res.1@.len() {
        assert(texts(res.1@)[i] == res.1@[i]@);
    }
    let (before, kept) = (old(after).subs(), final(after).subs());
    if 0 <= i < taken@.len() && taken@[i] {
        lemma_a_viewer_that_took_stays(before, taken@, i);
        assert(kept[kept_before(taken@, i)] == before[i]);
    }
    lemma_all_stay_or_all_go(before, taken@);
}

proof fn lemma_all_stay_or_all_go<S>(subs: Seq<S>, taken: Seq<bool>)
    requires
        subs.len() <= taken.len(),
    ensures
        (forall|j: int| 0 <= j < subs.len() ==> #[trigger] taken[j]) ==> still_there(subs, taken)
            == subs,
        (forall|j: int| 0 <= j < subs.len() ==> !#[trigger] taken[j]) ==> still_there(
            subs,
            taken,
        ).len() == 0,
    decreases subs.len(),
{
    if subs.len() > 0 {
        lemma_all_stay_or_all_go(subs.drop_last(), taken);
        assert(subs =~= subs.drop_last().push(subs.last()));
        let last = taken[subs.len() - 1];
    }
}

} // verus!
