//! Small pieces of text: decimal numbers, wall-clock stamps, and comparison of strings.

use vstd::arithmetic::div_mod::{lemma_div_denominator, lemma_fundamental_div_mod_converse};
use vstd::prelude::*;
use vstd::string::*;

verus! {

/// The decimal digit `d` as a character.
pub open spec fn digit_char(d: nat) -> char {
    (48 + d) as char
}

/// `n` written in decimal, without leading zeros.
pub open spec fn decimal(n: nat) -> Seq<char>
    decreases n,
{
    if n < 10 {
        seq![digit_char(n)]
    } else {
        decimal(n / 10).push(digit_char(n % 10))
    }
}

/// `n` as exactly two decimal digits (`n < 100`).
pub open spec fn two_digits(n: nat) -> Seq<char> {
    seq![digit_char(n / 10), digit_char(n % 10)]
}

/// Is `c` one of `0` to `9`?
pub open spec fn is_digit(c: char) -> bool {
    48 <= c as u32 <= 57
}

/// Is every character of `s` a decimal digit?
pub open spec fn all_digits(s: Seq<char>) -> bool {
    forall|i: int| 0 <= i < s.len() ==> is_digit(#[trigger] s[i])
}

/// The number that a run of decimal digits stands for.
pub open spec fn digits_value(s: Seq<char>) -> nat
    decreases s.len(),
{
    if s.len() == 0 {
        0
    } else {
        digits_value(s.drop_last()) * 10 + (s.last() as u32 - 48) as nat
    }
}

/// The digits of a number literal: everything behind one optional leading `+`.
pub open spec fn unsigned_body(s: Seq<char>) -> Seq<char> {
    if s.len() > 0 && s[0] == '+' {
        s.skip(1)
    } else {
        s
    }
}

/// The unsigned number that `s` spells, if it spells one that is at most `max`.
pub open spec fn parsed_unsigned(s: Seq<char>, max: nat) -> Option<nat> {
    let body = unsigned_body(s);
    if body.len() > 0 && all_digits(body) && digits_value(body) <= max {
        Some(digits_value(body))
    } else {
        None
    }
}

/// UTC `HH:MM:SS` of a moment given in epoch milliseconds.
pub open spec fn hms_text(ms: u64) -> Seq<char> {
    let s = ms as nat / 1000;
    two_digits((s / 3600) % 24) + seq![':'] + two_digits((s / 60) % 60) + seq![':'] + two_digits(
        s % 60,
    )
}

/// The texts of strings.
pub open spec fn texts(v: Seq<String>) -> Seq<Seq<char>> {
    v.map_values(|s: String| s@)
}

/// The text of a string, where there is one.
pub open spec fn opt_string(s: Option<String>) -> Option<Seq<char>> {
    match s {
        Some(s) => Some(s@),
        None => None,
    }
}

/// The text of a borrowed string, where there is one.
pub open spec fn opt_str(s: Option<&str>) -> Option<Seq<char>> {
    match s {
        Some(s) => Some(s@),
        None => None,
    }
}

/// Appends one decimal digit to `out`.
fn push_digit(out: &mut String, d: u64)
    requires
        d < 10,
    ensures
        final(out)@ == old(out)@.push(digit_char(d as nat)),
{
    proof {
        reveal_strlit("0");
        reveal_strlit("1");
        reveal_strlit("2");
        reveal_strlit("3");
        reveal_strlit("4");
        reveal_strlit("5");
        reveal_strlit("6");
        reveal_strlit("7");
        reveal_strlit("8");
        reveal_strlit("9");
    }
    let digit: &str = if d == 0 {
        "0"
    } else if d == 1 {
        "1"
    } else if d == 2 {
        "2"
    } else if d == 3 {
        "3"
    } else if d == 4 {
        "4"
    } else if d == 5 {
        "5"
    } else if d == 6 {
        "6"
    } else if d == 7 {
        "7"
    } else if d == 8 {
        "8"
    } else {
        "9"
    };
    assert(digit@ =~= seq![digit_char(d as nat)]);
    out.append(digit);
    assert(out@ =~= old(out)@.push(digit_char(d as nat)));
}

/// Appends `n` in decimal to `out`.
pub fn push_decimal(out: &mut String, n: u64)
    ensures
        final(out)@ == old(out)@ + decimal(n as nat),
    decreases n,
{
    if n >= 10 {
        push_decimal(out, n / 10);
    }
    push_digit(out, n % 10);
    assert(out@ =~= old(out)@ + decimal(n as nat));
}

/// Appends `n` as exactly two decimal digits to `out`.
fn push_two_digits(out: &mut String, n: u64)
    requires
        n < 100,
    ensures
        final(out)@ == old(out)@ + two_digits(n as nat),
{
    push_digit(out, n / 10);
    push_digit(out, n % 10);
    assert(out@ =~= old(out)@ + two_digits(n as nat));
}

/// UTC `HH:MM:SS` from epoch milliseconds, as the log stream stamps its lines.
pub fn hms(ms: u64) -> (res: String)
    ensures
        res@ == hms_text(ms),
{
    let s: u64 = ms / 1000;
    let mut out = String::new();
    push_two_digits(&mut out, (s / 3600) % 24);
    proof {
        reveal_strlit(":");
    }
    out.append(":");
    push_two_digits(&mut out, (s / 60) % 60);
    out.append(":");
    push_two_digits(&mut out, s % 60);
    assert(out@ =~= hms_text(ms));
    out
}

/// The characters of `s`, one by one.
pub fn chars_of(s: &str) -> (res: Vec<char>)
    ensures
        res@ == s@,
{
    let mut res: Vec<char> = Vec::new();
    for c in it: s.chars()
        invariant
            it.seq() == s@,
            res@ == s@.take(it.index() as int),
    {
        res.push(c);
        assert(res@ =~= s@.take(it.index() as int + 1));
    }
    assert(res@ =~= s@);
    res
}

/// Do `a` and `b` hold the same text?
pub fn same_text(a: &str, b: &str) -> (res: bool)
    ensures
        res == (a@ == b@),
{
    a.to_owned() == b.to_owned()
}

proof fn lemma_digits_value_grows(s: Seq<char>, n: int)
    requires
        0 <= n <= s.len(),
    ensures
        digits_value(s.take(n)) <= digits_value(s),
    decreases s.len() - n,
{
    if n < s.len() {
        lemma_digits_value_grows(s, n + 1);
        assert(s.take(n + 1).drop_last() =~= s.take(n));
    } else {
        assert(s.take(n) =~= s);
    }
}

/// Reads an unsigned decimal number of at most `max`: digits, behind an optional `+`.
pub fn parse_unsigned(s: &str, max: u64) -> (res: Option<u64>)
    ensures
        match res {
            Some(n) => parsed_unsigned(s@, max as nat) == Some(n as nat),
            None => parsed_unsigned(s@, max as nat) is None,
        },
{
    let chars = chars_of(s);
    let start: usize = if chars.len() > 0 && chars[0] == '+' {
        1
    } else {
        0
    };
    let ghost body = unsigned_body(s@);
    assert(body =~= s@.skip(start as int));
    if start == chars.len() {
        return None;
    }
    let mut n: u64 = 0;
    let mut i: usize = start;
    while i < chars.len()
        invariant
            chars@ == s@,
            start <= i <= chars.len(),
            start < chars.len(),
            body == s@.skip(start as int),
            body == unsigned_body(s@),
            n == digits_value(body.take(i - start)),
            n <= max,
            forall|j: int| 0 <= j < i - start ==> is_digit(body[j]),
        decreases chars.len() - i,
    {
        let c = chars[i];
        assert(c == body[i - start]);
        let code: u32 = c as u32;
        if code < 48 || code > 57 {
            assert(!is_digit(body[i - start]));
            return None;
        }
        let d: u64 = (code - 48) as u64;
        proof {
            assert(body.take(i - start + 1).drop_last() =~= body.take(i - start));
            lemma_digits_value_grows(body, i - start + 1);
        }
        let wide: u128 = (n as u128) * 10 + (d as u128);
        if wide > max as u128 {
            return None;
        }
        n = wide as u64;
        i += 1;
    }
    assert(body.take(i - start) =~= body);
    Some(n)
}

proof fn lemma_decimal(n: nat)
    ensures
        decimal(n).len() > 0,
        all_digits(decimal(n)),
        digits_value(decimal(n)) == n,
    decreases n,
{
    if n < 10 {
        let d = seq![digit_char(n)];
        assert(digits_value(d.drop_last()) == 0);
        assert(d.last() as u32 == 48 + n);
    } else {
        lemma_decimal(n / 10);
        let d = decimal(n);
        assert(d.drop_last() =~= decimal(n / 10));
        assert(d.last() as u32 == 48 + n % 10);
        assert forall|i: int| 0 <= i < d.len() implies is_digit(#[trigger] d[i]) by {
            if i < d.len() - 1 {
                assert(d[i] == decimal(n / 10)[i]);
            }
        }
    }
}

/// A number that is written in decimal is read as it was, where it is not too large, also behind a
/// plus sign; so two numbers are never written alike.
pub proof fn law_numbers_are_read_as_they_are_written(n: nat, max: nat)
    ensures
        parsed_unsigned(decimal(n), max) == if n <= max {
            Some(n)
        } else {
            None
        },
        parsed_unsigned(seq!['+'] + decimal(n), max) == if n <= max {
            Some(n)
        } else {
            None
        },
{
    lemma_decimal(n);
    assert(decimal(n)[0] != '+') by {
        assert(is_digit(decimal(n)[0]));
    }
    assert(unsigned_body(seq!['+'] + decimal(n)) =~= decimal(n));
}

/// A number below ten is written as one character, `0` to `9`; any other as its tenth part, written
/// likewise, and the character of the rest.
pub proof fn law_numbers_are_written_digit_by_digit(tens: nat, rest: nat)
    requires
        rest < 10,
    ensures
        decimal(rest).len() == 1,
        decimal(rest)[0] as u32 == 48 + rest,
        tens > 0 ==> decimal(10 * tens + rest) == decimal(tens) + decimal(rest),
{
    assert((10 * tens + rest) / 10 == tens);
    assert((10 * tens + rest) % 10 == rest);
    if tens > 0 {
        assert(decimal(10 * tens + rest) =~= decimal(tens) + decimal(rest));
    }
}

/// What holds anything but digits behind its first character, or is empty, is no number; nor is
/// what begins with anything but a digit or a plus sign.
pub proof fn law_only_digits_are_a_number(s: Seq<char>, at: int, max: nat)
    ensures
        s.len() == 0 ==> parsed_unsigned(s, max) is None,
        0 < at < s.len() && !(48 <= s[at] as u32 <= 57) ==> parsed_unsigned(s, max) is None,
        s.len() > 0 && s[0] != '+' && !(48 <= s[0] as u32 <= 57) ==> parsed_unsigned(s, max) is None,
        s.len() == 1 && s[0] == '+' ==> parsed_unsigned(s, max) is None,
{
    let body = unsigned_body(s);
    if 0 < at < s.len() && !(48 <= s[at] as u32 <= 57) {
        if s[0] == '+' {
            assert(!is_digit(body[at - 1]));
        } else {
            assert(!is_digit(body[at]));
        }
    }
    if s.len() > 0 && s[0] != '+' && !(48 <= s[0] as u32 <= 57) {
        assert(!is_digit(body[0]));
    }
}

/// A digit behind a number counts one, and makes everything before it count ten times as much;
/// leading zeros count nothing.
pub proof fn law_each_digit_counts(s: Seq<char>, c: char, d: nat, max: nat)
    requires
        d < 10,
        c as u32 == 48 + d,
        s.len() > 0,
        48 <= s[0] as u32 <= 57,
        parsed_unsigned(s, max) is Some,
    ensures
        parsed_unsigned(s.push(c), max) == if parsed_unsigned(s, max)->0 * 10 + d
            <= max {
            Some((parsed_unsigned(s, max)->0 * 10 + d) as nat)
        } else {
            None
        },
        parsed_unsigned(seq!['0'] + s, max) == parsed_unsigned(s, max),
        d <= max ==> parsed_unsigned(seq![c], max) == Some(d),
{
    let more = s.push(c);
    assert(more.drop_last() =~= s);
    assert(more.last() as u32 == 48 + d);
    assert(all_digits(more)) by {
        assert forall|i: int| 0 <= i < more.len() implies is_digit(#[trigger] more[i]) by {
            if i < s.len() {
                assert(more[i] == s[i]);
            }
        }
    }
    let one = seq![c];
    assert(one.drop_last() =~= Seq::<char>::empty());
    assert(digits_value(one.drop_last()) == 0 && one.last() == c);
    let padded = seq!['0'] + s;
    lemma_zero_in_front(s);
    assert(all_digits(padded)) by {
        assert forall|i: int| 0 <= i < padded.len() implies is_digit(#[trigger] padded[i]) by {
            if i > 0 {
                assert(padded[i] == s[i - 1]);
            }
        }
    }
}

proof fn lemma_zero_in_front(s: Seq<char>)
    ensures
        digits_value(seq!['0'] + s) == digits_value(s),
    decreases s.len(),
{
    let padded = seq!['0'] + s;
    if s.len() == 0 {
        assert(padded.drop_last() =~= s);
        assert(padded.last() as u32 == 48);
    } else {
        lemma_zero_in_front(s.drop_last());
        assert(padded.drop_last() =~= seq!['0'] + s.drop_last());
    }
}

/// A moment is stamped with its hour, minute and second of the day, each as two digits with colons
/// between: `h` hours, `m` minutes and `s` seconds into any day are written so.
pub proof fn law_a_stamp_tells_the_time_of_day(
    day: nat,
    h: nat,
    m: nat,
    s: nat,
    part: nat,
    ms: u64,
    res: String,
)
    requires
        h < 24,
        m < 60,
        s < 60,
        part < 1_000,
        ms == ((day * 24 + h) * 60 + m) * 60_000 + s * 1_000 + part,
        call_ensures(hms, (ms,), res),
    ensures
        res@.len() == 8,
        res@[2] == ':' && res@[5] == ':',
        res@[0] as u32 == 48 + h / 10 && res@[1] as u32 == 48 + h % 10,
        res@[3] as u32 == 48 + m / 10 && res@[4] as u32 == 48 + m % 10,
        res@[6] as u32 == 48 + s / 10 && res@[7] as u32 == 48 + s % 10,
{
    let hours: int = (day * 24 + h) as int;
    let mins: int = hours * 60 + m;
    let secs: int = mins * 60 + s;
    lemma_fundamental_div_mod_converse(ms as int, 1_000, secs, part as int);
    lemma_fundamental_div_mod_converse(secs, 60, mins, s as int);
    lemma_fundamental_div_mod_converse(mins, 60, hours, m as int);
    lemma_fundamental_div_mod_converse(hours, 24, day as int, h as int);
    lemma_div_denominator(secs, 60, 60);
    assert(res@ == two_digits(h) + seq![':'] + two_digits(m) + seq![':'] + two_digits(s));
}

/// The texts of strings are theirs, one by one and in order.
pub proof fn law_texts_are_the_strings_own(v: Seq<String>, i: int)
    ensures
        texts(v).len() == v.len(),
        0 <= i < v.len() ==> texts(v)[i] == v[i]@,
{
}

/// The text of a string is its own, and there is one exactly where there is a string.
pub proof fn law_an_optional_text_is_the_strings_own(s: Option<String>, b: Option<&str>)
    ensures
        opt_string(s) is Some <==> s is Some,
        s matches Some(text) ==> opt_string(s) == Some(text@),
        opt_str(b) is Some <==> b is Some,
        b matches Some(text) ==> opt_str(b) == Some(text@),
{
}

} // verus!
