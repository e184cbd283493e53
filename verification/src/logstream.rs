//! The log stream: what an HTTP visitor is shown, and for how long.

use vstd::prelude::*;
use vstd::string::*;

use crate::lines::{LineKind, PublicLine};
use crate::loghub::KEEPALIVE_NS;
use crate::text::texts;

verus! {

/// The head of the answer.
pub open spec fn stream_head() -> Seq<char> {
    "HTTP/1.1 200 OK\r\nContent-Type: text/plain; charset=utf-8\r\nCache-Control: no-cache\r\nConnection: close\r\n\r\n"@
}

/// What a visitor is told where lines on single events are not public.
pub open spec fn private_note() -> Seq<char> {
    "live per-event log is private on this relay; only aggregate counters are shown (set HOP_PUBLIC_LOG_STREAM=1 to expose per-event lines)\n"@
}

/// A line, ended.
pub open spec fn ended(line: Seq<char>) -> Seq<char> {
    line + "\n"@
}

/// The line that names this node.
pub open spec fn title(who: Seq<char>) -> Seq<char> {
    "== hop relay :: "@ + (if who.len() == 0 {
        "(starting)"@
    } else {
        who
    }) + " ==\n"@
}

/// What a visitor is shown first, piece by piece: the head, who this node is, and then the recent
/// lines, where they are public, else a note that they are not.
pub open spec fn greeting_pieces(who: Seq<char>, backlog: Seq<Seq<char>>, public: bool) -> Seq<
    Seq<char>,
> {
    seq![stream_head(), title(who)] + if public {
        backlog.map_values(|l: Seq<char>| ended(l))
    } else {
        seq![private_note()]
    }
}

/// A line, ended.
fn end_line(line: &str) -> (res: String)
    ensures
        res@ == ended(line@),
{
    let mut res = line.to_owned();
    res.append("\n");
    res
}

/// What a visitor is shown first, piece by piece.
pub fn greeting(who: &str, backlog: &Vec<String>, public: bool) -> (pieces: Vec<String>)
    ensures
        texts(pieces@) == greeting_pieces(who@, texts(backlog@), public),
{
    let mut pieces: Vec<String> = Vec::new();
    pieces.push(
        "HTTP/1.1 200 OK\r\nContent-Type: text/plain; charset=utf-8\r\nCache-Control: no-cache\r\nConnection: close\r\n\r\n".to_owned(),
    );
    let mut line = "== hop relay :: ".to_owned();
    if who.is_empty() {
        line.append("(starting)");
    } else {
        line.append(who);
    }
    line.append(" ==\n");
    pieces.push(line);
    assert(texts(pieces@) =~= seq![stream_head(), title(who@)]);
    let ghost lead = texts(pieces@);
    let ghost lines = texts(backlog@);
    if public {
        let mut i: usize = 0;
        assert(texts(pieces@) =~= lead + lines.take(0).map_values(|l: Seq<char>| ended(l)));
        while i < backlog.len()
            invariant
                i <= backlog.len(),
                lines == texts(backlog@),
                texts(pieces@) == lead + lines.take(i as int).map_values(
                    |l: Seq<char>| ended(l),
                ),
            decreases backlog.len() - i,
        {
            let ghost had = pieces@;
            pieces.push(end_line(backlog[i].as_str()));
            proof {
                assert(texts(pieces@) =~= texts(had).push(ended(lines[i as int])));
                assert(lines.take(i + 1).map_values(|l: Seq<char>| ended(l)) =~= lines.take(
                    i as int,
                ).map_values(|l: Seq<char>| ended(l)).push(ended(lines[i as int])));
            }
            i += 1;
        }
        assert(lines.take(i as int) =~= lines);
    } else {
        pieces.push(
            "live per-event log is private on this relay; only aggregate counters are shown (set HOP_PUBLIC_LOG_STREAM=1 to expose per-event lines)\n".to_owned(),
        );
        assert(texts(pieces@) =~= greeting_pieces(who@, lines, public));
    }
    pieces
}

/// Where a log stream stands.
#[derive(Clone, Copy, PartialEq, Eq, Structural, Debug)]
pub enum LogPhase {
    /// The greeting is being written.
    Greeting,
    /// The clock is being read, just after something was written.
    Marking,
    /// The clock is being read; something was written last at this time, in nanoseconds.
    Timing(u128),
    /// A line is being waited for; something was written last at this time.
    Waiting(u128),
    /// Something is being written.
    Writing,
    /// The stream is over.
    Over,
}

/// What the stream's thread does next.
#[derive(Debug)]
pub enum LogAction {
    /// Read how long the stream has been open.
    ReadClock,
    /// Wait for a line, at most this many nanoseconds.
    Wait(u64),
    /// Write this, and flush.
    Write(String),
    /// Close the stream.
    Close,
}

/// What came of it.
#[derive(Debug)]
pub enum LogEvent {
    /// Whether everything was written.
    Written(bool),
    /// How long the stream has been open, in nanoseconds.
    Elapsed(u128),
    /// A line came.
    Line(PublicLine),
    /// No line came in time.
    Quiet,
    /// No line will come any more.
    HubGone,
}

/// How long a viewer may watch, in nanoseconds.
pub open spec fn limit_ns(max_ms: u64) -> int {
    max_ms * 1_000_000
}

/// Is a line of this kind shown to the viewer?
pub open spec fn shown(public: bool, kind: LineKind) -> bool {
    public || kind == LineKind::Aggregate
}

/// How long ago something was written, where that was at `last` and it is `now`.
pub open spec fn since(last: u128, now: u128) -> int {
    if now >= last {
        now - last
    } else {
        0
    }
}

/// Does `ev` answer what a stream in `phase` is doing?
pub open spec fn log_answers(phase: LogPhase, ev: LogEvent) -> bool {
    match phase {
        LogPhase::Greeting | LogPhase::Writing => ev is Written,
        LogPhase::Marking | LogPhase::Timing(_) => ev is Elapsed,
        LogPhase::Waiting(_) => ev is Line || ev is Quiet || ev is HubGone,
        LogPhase::Over => false,
    }
}

/// Where a stream stands once the clock says `now`, where something was written last at `last`.
pub open spec fn phase_at(max_ms: u64, last: u128, now: u128) -> LogPhase {
    if now >= limit_ns(max_ms) {
        LogPhase::Over
    } else if since(last, now) >= KEEPALIVE_NS {
        LogPhase::Writing
    } else {
        LogPhase::Waiting(last)
    }
}

/// Is `action` what a stream does once the clock says `now`, where something was written last at
/// `last`? At its limit it is closed; where it is time for a sign of life there is one; else it
/// waits until one of the two comes.
pub open spec fn acts_at(max_ms: u64, last: u128, now: u128, action: LogAction) -> bool {
    let (left, quiet) = (limit_ns(max_ms) - now, KEEPALIVE_NS - since(last, now));
    if left <= 0 {
        action is Close
    } else if quiet <= 0 {
        action matches LogAction::Write(text) && text@ == ": ping\n"@
    } else {
        action matches LogAction::Wait(w) && w == if left < quiet {
            left
        } else {
            quiet
        }
    }
}

/// Where a stream in `phase` stands after `ev`.
pub open spec fn log_phase_after(
    public: bool,
    max_ms: u64,
    phase: LogPhase,
    ev: LogEvent,
) -> LogPhase {
    match (phase, ev) {
        (LogPhase::Greeting | LogPhase::Writing, LogEvent::Written(true)) => LogPhase::Marking,
        (LogPhase::Marking, LogEvent::Elapsed(ns)) => phase_at(max_ms, ns, ns),
        (LogPhase::Timing(last), LogEvent::Elapsed(ns)) => phase_at(max_ms, last, ns),
        (LogPhase::Waiting(last), LogEvent::Line(line)) => if shown(public, line.kind) {
            LogPhase::Writing
        } else {
            LogPhase::Timing(last)
        },
        (LogPhase::Waiting(_), LogEvent::Quiet) => LogPhase::Writing,
        _ => LogPhase::Over,
    }
}

/// Is `action` what a stream in `phase` does about `ev`?
pub open spec fn log_acts(
    public: bool,
    max_ms: u64,
    phase: LogPhase,
    ev: LogEvent,
    action: LogAction,
) -> bool {
    match (phase, ev) {
        (LogPhase::Greeting | LogPhase::Writing, LogEvent::Written(true)) => action is ReadClock,
        (LogPhase::Marking, LogEvent::Elapsed(ns)) => acts_at(max_ms, ns, ns, action),
        (LogPhase::Timing(last), LogEvent::Elapsed(ns)) => acts_at(max_ms, last, ns, action),
        (LogPhase::Waiting(_), LogEvent::Line(line)) => if shown(public, line.kind) {
            action matches LogAction::Write(text) && text@ == ended(line.text@)
        } else {
            action is ReadClock
        },
        (LogPhase::Waiting(_), LogEvent::Quiet) => action matches LogAction::Write(text) && text@
            == ": ping\n"@,
        _ => action is Close,
    }
}

/// What a stream does once the clock says `now`, where something was written last at `last`.
fn turn_at(max_ms: u64, phase: &mut LogPhase, last: u128, now: u128) -> (action: LogAction)
    ensures
        *final(phase) == phase_at(max_ms, last, now),
        acts_at(max_ms, last, now, action),
{
    let limit: u128 = (max_ms as u128) * 1_000_000;
    let since: u128 = now.saturating_sub(last);
    if now >= limit {
        *phase = LogPhase::Over;
        LogAction::Close
    } else if since >= KEEPALIVE_NS as u128 {
        *phase = LogPhase::Writing;
        LogAction::Write(": ping\n".to_owned())
    } else {
        *phase = LogPhase::Waiting(last);
        let left: u128 = limit - now;
        let quiet: u128 = KEEPALIVE_NS as u128 - since;
        LogAction::Wait(
            (if left < quiet {
                left
            } else {
                quiet
            }) as u64,
        )
    }
}

/// One turn of a log stream: what comes after `ev`. It starts in [`LogPhase::Greeting`]. `public`
/// tells whether lines on single events are shown, `max_ms` how long the viewer may watch.
pub fn serve_log_stream(public: bool, max_ms: u64, phase: &mut LogPhase, ev: LogEvent) -> (action:
    LogAction)
    requires
        log_answers(*old(phase), ev),
    ensures
        *final(phase) == log_phase_after(public, max_ms, *old(phase), ev),
        log_acts(public, max_ms, *old(phase), ev, action),
{
    match (*phase, ev) {
        (LogPhase::Marking, LogEvent::Elapsed(ns)) => turn_at(max_ms, phase, ns, ns),
        (LogPhase::Timing(last), LogEvent::Elapsed(ns)) => turn_at(max_ms, phase, last, ns),
        (LogPhase::Waiting(last), LogEvent::Line(line)) => {
            if public || line.kind == LineKind::Aggregate {
                *phase = LogPhase::Writing;
                LogAction::Write(end_line(line.text.as_str()))
            } else {
                *phase = LogPhase::Timing(last);
                LogAction::ReadClock
            }
        },
        (LogPhase::Waiting(_), LogEvent::Quiet) => {
            *phase = LogPhase::Writing;
            LogAction::Write(": ping\n".to_owned())
        },
        (LogPhase::Greeting, LogEvent::Written(ok)) => {
            if ok {
                *phase = LogPhase::Marking;
                LogAction::ReadClock
            } else {
                *phase = LogPhase::Over;
                LogAction::Close
            }
        },
        (LogPhase::Writing, LogEvent::Written(ok)) => {
            if ok {
                *phase = LogPhase::Marking;
                LogAction::ReadClock
            } else {
                *phase = LogPhase::Over;
                LogAction::Close
            }
        },
        _ => {
            *phase = LogPhase::Over;
            LogAction::Close
        },
    }
}

/// When something was written last, for a stream whose clock is read: `now`, where that was just
/// before.
pub open spec fn written_at(phase: LogPhase, now: u128) -> u128 {
    match phase {
        LogPhase::Timing(last) => last,
        _ => now,
    }
}

/// A stream that has reached its limit is closed; before that it never waits beyond the limit, and
/// where it waits, it does wait.
pub proof fn law_no_viewer_watches_beyond_the_limit(
    public: bool,
    max_ms: u64,
    phase: LogPhase,
    ns: u128,
    action: LogAction,
)
    requires
        log_answers(phase, LogEvent::Elapsed(ns)),
        log_acts(public, max_ms, phase, LogEvent::Elapsed(ns), action),
    ensures
        ns >= limit_ns(max_ms) <==> action is Close,
        action matches LogAction::Wait(w) ==> 0 < w && ns + w <= limit_ns(max_ms),
{
}

/// A viewer gets a sign of life at least every [`KEEPALIVE_NS`], also where line after line comes
/// that it is not shown: no wait lasts longer than until that time is over since something was
/// written last, a line that is not shown leaves that time as it was, and once it is over a sign
/// of life is written.
pub proof fn law_a_sign_of_life_in_time(
    public: bool,
    max_ms: u64,
    phase: LogPhase,
    ns: u128,
    action: LogAction,
    last: u128,
    hidden: PublicLine,
)
    requires
        log_answers(phase, LogEvent::Elapsed(ns)),
        log_acts(public, max_ms, phase, LogEvent::Elapsed(ns), action),
        !shown(public, hidden.kind),
    ensures
        action matches LogAction::Wait(w) ==> since(written_at(phase, ns), ns) + w <= KEEPALIVE_NS
            && log_phase_after(public, max_ms, phase, LogEvent::Elapsed(ns)) == LogPhase::Waiting(
            written_at(phase, ns),
        ),
        since(written_at(phase, ns), ns) >= KEEPALIVE_NS && ns < limit_ns(max_ms) ==> (action matches
            LogAction::Write(text) && text@ == ": ping\n"@),
        log_phase_after(public, max_ms, LogPhase::Waiting(last), LogEvent::Line(hidden))
            == LogPhase::Timing(last),
{
}

/// Between two waits the clock is read: no wait follows another, or a write, without it.
pub proof fn law_the_clock_is_read_before_each_wait(
    public: bool,
    max_ms: u64,
    phase: LogPhase,
    ev: LogEvent,
    action: LogAction,
)
    requires
        log_answers(phase, ev),
        log_acts(public, max_ms, phase, ev, action),
        action is Wait,
    ensures
        phase is Marking || phase is Timing,
        ev is Elapsed,
{
}

/// Where lines on single events are not public, a viewer gets no trace of them: the greeting does
/// not depend on the recent lines, and whatever is written later is a total or a sign of life.
pub proof fn law_events_stay_private(
    who: Seq<char>,
    a: Seq<Seq<char>>,
    b: Seq<Seq<char>>,
    max_ms: u64,
    phase: LogPhase,
    ev: LogEvent,
    action: LogAction,
)
    requires
        log_answers(phase, ev),
        log_acts(false, max_ms, phase, ev, action),
    ensures
        greeting_pieces(who, a, false) == greeting_pieces(who, b, false),
        action matches LogAction::Write(text) ==> text@ == ": ping\n"@ || (ev matches LogEvent::Line(
            line,
        ) && line.kind == LineKind::Aggregate && text@ == ended(line.text@)),
{
}

/// A write that fails, and a hub that is gone, end the stream.
pub proof fn law_a_lost_viewer_is_let_go(public: bool, max_ms: u64, phase: LogPhase, ev: LogEvent)
    requires
        log_answers(phase, ev),
        ev == LogEvent::Written(false) || ev is HubGone,
    ensures
        log_phase_after(public, max_ms, phase, ev) is Over,
{
}

/// What a visitor is shown first: the head, the line that names the node, and then, where lines are
/// public, every recent line, in order and as it is, each on a line of its own; else one note.
pub proof fn law_the_greeting_shows_everything(
    who: &str,
    backlog: &Vec<String>,
    public: bool,
    pieces: Vec<String>,
)
    requires
        call_ensures(greeting, (who, backlog, public), pieces),
    ensures
        pieces@[0]@
            == "HTTP/1.1 200 OK\r\nContent-Type: text/plain; charset=utf-8\r\nCache-Control: no-cache\r\nConnection: close\r\n\r\n"@,
        who@.len() > 0 ==> pieces@[1]@ == "== hop relay :: "@ + who@ + " ==\n"@,
        who@.len() == 0 ==> pieces@[1]@ == "== hop relay :: (starting) ==\n"@,
        public ==> pieces@.len() == backlog@.len() + 2,
        public ==> forall|i: int|
            0 <= i < backlog@.len() ==> (#[trigger] pieces@[i + 2])@ == backlog@[i]@ + "\n"@,
        !public ==> pieces@.len() == 3 && pieces@[2]@
            == "live per-event log is private on this relay; only aggregate counters are shown (set HOP_PUBLIC_LOG_STREAM=1 to expose per-event lines)\n"@,
{
    let shown = greeting_pieces(who@, texts(backlog@), public);
    assert(texts(pieces@).len() == shown.len());
    assert(texts(pieces@)[0] == shown[0] && texts(pieces@)[1] == shown[1]);
    if public {
        assert forall|i: int| 0 <= i < backlog@.len() implies (#[trigger] pieces@[i + 2])@
            == backlog@[i]@ + "\n"@ by {
            assert(texts(pieces@)[i + 2] == shown[i + 2]);
            assert(shown[i + 2] == ended(texts(backlog@)[i]));
        }
    } else {
        assert(texts(pieces@)[2] == shown[2]);
    }
    reveal_strlit("== hop relay :: ");
    reveal_strlit("(starting)");
    reveal_strlit(" ==\n");
    reveal_strlit("== hop relay :: (starting) ==\n");
    assert("== hop relay :: "@ + "(starting)"@ + " ==\n"@ =~= "== hop relay :: (starting) ==\n"@);
}

/// What a viewer is shown of a line that comes: the line as it is, on a line of its own, where it
/// tells of totals or lines on single events are public; and nothing of any other, upon which the
/// clock is read again, with what was written last unchanged.
pub proof fn law_a_line_is_shown_as_it_is(
    public: bool,
    max_ms: u64,
    last: u128,
    line: PublicLine,
    action: LogAction,
)
    requires
        log_acts(public, max_ms, LogPhase::Waiting(last), LogEvent::Line(line), action),
    ensures
        ({
            let next = log_phase_after(
                public,
                max_ms,
                LogPhase::Waiting(last),
                LogEvent::Line(line),
            );
            &&& public || line.kind is Aggregate ==> next is Writing && (action matches
                LogAction::Write(text) && text@ == line.text@ + "\n"@)
            &&& !public && line.kind is Event ==> next == LogPhase::Timing(last) && action
                is ReadClock
        }),
{
}

/// What a stream does when the clock is read, in numbers: after `max_ms` milliseconds it is closed;
/// where fifteen seconds have gone by since something was written there is a sign of life; else it
/// waits until the earlier of the two.
pub proof fn law_how_long_a_stream_waits(
    public: bool,
    max_ms: u64,
    phase: LogPhase,
    now: u128,
    action: LogAction,
)
    requires
        phase is Marking || phase is Timing,
        log_acts(public, max_ms, phase, LogEvent::Elapsed(now), action),
    ensures
        ({
            let next = log_phase_after(public, max_ms, phase, LogEvent::Elapsed(now));
            let last = match phase {
                LogPhase::Timing(t) => t,
                _ => now,
            };
            let quiet = if now > last {
                now - last
            } else {
                0int
            };
            &&& log_answers(phase, LogEvent::Elapsed(now))
            &&& now >= max_ms * 1_000_000 ==> next is Over && action is Close
            &&& now < max_ms * 1_000_000 && quiet >= 15_000_000_000 ==> next is Writing && (
            action matches LogAction::Write(text) && text@ == ": ping\n"@)
            &&& now < max_ms * 1_000_000 && quiet < 15_000_000_000 ==> {
                &&& next == LogPhase::Waiting(last)
                &&& action matches LogAction::Wait(w)
                &&& w <= 15_000_000_000 - quiet
                &&& w <= max_ms * 1_000_000 - now
                &&& w == 15_000_000_000 - quiet || w == max_ms * 1_000_000 - now
            }
        }),
{
}

/// After what was written was written, the clock is read; where nothing came in time there is a
/// sign of life; a write that failed, and a hub that is gone, close the stream.
pub proof fn law_how_a_stream_goes_on(
    public: bool,
    max_ms: u64,
    phase: LogPhase,
    ev: LogEvent,
    action: LogAction,
)
    requires
        log_answers(phase, ev),
        log_acts(public, max_ms, phase, ev, action),
    ensures
        ({
            let next = log_phase_after(public, max_ms, phase, ev);
            &&& ev == LogEvent::Written(true) ==> next is Marking && action is ReadClock
            &&& ev == LogEvent::Written(false) ==> next is Over && action is Close
            &&& ev is Quiet ==> next is Writing && (action matches LogAction::Write(text) && text@
                == ": ping\n"@)
            &&& ev is HubGone ==> next is Over && action is Close
        }),
{
}

/// A stream takes every answer that can come to what it does.
pub proof fn law_a_stream_takes_its_answers(ev: LogEvent, last: u128)
    ensures
        log_answers(LogPhase::Greeting, ev) <==> ev is Written,
        log_answers(LogPhase::Writing, ev) <==> ev is Written,
        log_answers(LogPhase::Marking, ev) <==> ev is Elapsed,
        log_answers(LogPhase::Timing(last), ev) <==> ev is Elapsed,
        log_answers(LogPhase::Waiting(last), ev) <==> ev is Line || ev is Quiet || ev is HubGone,
{
}

/// One turn of a stream, of the call itself: a line is written as it is where it may be shown, the
/// clock is read after each write and each line that is not, a sign of life is written where
/// nothing came, and the stream is closed at its limit, on a failed write and without a hub.
pub proof fn law_a_stream_takes_its_turn(
    public: bool,
    max_ms: u64,
    phase: &mut LogPhase,
    ev: LogEvent,
    action: LogAction,
)
    requires
        log_answers(*old(phase), ev),
        call_ensures(serve_log_stream, (public, max_ms, phase, ev), action),
    ensures
        ev matches LogEvent::Line(line) ==> {
            &&& public || line.kind is Aggregate ==> *final(phase) is Writing && (action matches
                LogAction::Write(text) && text@ == line.text@ + "\n"@)
            &&& !public && line.kind is Event ==> *final(phase) == LogPhase::Timing(
                (*old(phase))->Waiting_0,
            ) && action is ReadClock
        },
        ev is Quiet ==> *final(phase) is Writing && (action matches LogAction::Write(text) && text@
            == ": ping\n"@),
        ev == LogEvent::Written(true) ==> *final(phase) is Marking && action is ReadClock,
        ev == LogEvent::Written(false) || ev is HubGone ==> *final(phase) is Over && action
            is Close,
        ev matches LogEvent::Elapsed(now) ==> (action is Close <==> now >= max_ms * 1_000_000),
{
    law_how_a_stream_goes_on(public, max_ms, *old(phase), ev, action);
}

} // verus!
