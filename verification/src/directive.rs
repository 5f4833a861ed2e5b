//! What stands on a single line besides conditions: durations, throttles and
//! actions.

use crate::ast::{Action, ActionView, Throttle};
use crate::lexer::{literal, parse_string_literal};
use crate::text::{
    all_digits, decimal, decimal_is_read_back, digit, ends, find_char, first_index, first_index_finds,
    from_chars,
    is_text, is_white, join, parse_u32, parse_u64, strip_suffix, to_chars, trim, trim_end_char, trim_start_char, trimmed, unsigned_value, white,
    without_leading, without_trailing,
};
use crate::time::Duration;
use vstd::prelude::*;
use vstd::slice::slice_subrange;

verus! {

// ---------------------------------------------------------------------
// Durations and throttles
// ---------------------------------------------------------------------

/// So many seconds.
pub open spec fn secs(n: nat) -> Duration {
    Duration { nanos: (n * 1_000_000_000) as u128 }
}

/// So many milliseconds.
pub open spec fn millis(n: nat) -> Duration {
    Duration { nanos: (n * 1_000_000) as u128 }
}

/// The number before a unit, where its product with `factor` fits 64 bits.
pub open spec fn count_of(s: Seq<char>, factor: nat) -> Option<nat> {
    match unsigned_value(trimmed(s), u64::MAX as nat) {
        Some(n) => if n * factor <= u64::MAX {
            Some(n * factor)
        } else {
            None
        },
        None => None,
    }
}

/// The duration that a text writes: a number with the unit `ms`, `s`, `m` or
/// `h`, or a bare number of seconds.
pub open spec fn duration_of(s: Seq<char>) -> Option<Duration> {
    let t = trimmed(s);
    let before = |unit: Seq<char>| t.take(t.len() - unit.len());
    if ends(t, "ms"@) {
        match count_of(before("ms"@), 1) {
            Some(n) => Some(millis(n)),
            None => None,
        }
    } else {
        let count = if ends(t, "s"@) {
            count_of(before("s"@), 1)
        } else if ends(t, "m"@) {
            count_of(before("m"@), 60)
        } else if ends(t, "h"@) {
            count_of(before("h"@), 3600)
        } else {
            unsigned_value(t, u64::MAX as nat)
        };
        match count {
            Some(n) => Some(secs(n)),
            None => None,
        }
    }
}

/// Digits are no white space.
proof fn digits_stay(s: Seq<char>)
    requires
        s.len() > 0,
        all_digits(s),
    ensures
        trimmed(s) == s,
{
    assert(digit(s[0]));
    assert(digit(s.last()));
}

/// A number with a unit reads as that many of the unit; one of minutes or hours
/// whose seconds do not fit 64 bits is refused. A bare number reads as seconds.
pub proof fn duration_reads_what_is_written(n: u64)
    ensures
        duration_of(decimal(n as nat) + "ms"@) == Some(millis(n as nat)),
        duration_of(decimal(n as nat) + "s"@) == Some(secs(n as nat)),
        duration_of(decimal(n as nat) + "m"@) == if n * 60 <= u64::MAX {
            Some(secs((n * 60) as nat))
        } else {
            None
        },
        duration_of(decimal(n as nat) + "h"@) == if n * 3600 <= u64::MAX {
            Some(secs((n * 3600) as nat))
        } else {
            None
        },
        duration_of(decimal(n as nat)) == Some(secs(n as nat)),
        millis(n as nat).nanos == n * 1_000_000,
        secs(n as nat).nanos == n * 1_000_000_000,
{
    let d = decimal(n as nat);
    let k = d.len() as int;
    decimal_is_read_back(n as nat);
    digits_stay(d);
    reveal_strlit("ms");
    reveal_strlit("s");
    reveal_strlit("m");
    reveal_strlit("h");
    assert(digit(d[0]));
    assert(digit(d[k - 1]));
    assert forall|unit: Seq<char>|
        unit == "ms"@ || unit == "s"@ || unit == "m"@ || unit == "h"@ implies {
        &&& #[trigger] trimmed(d + unit) == d + unit
        &&& (d + unit).take((d + unit).len() - unit.len()) == d
        &&& (d + unit).last() == unit.last()
        &&& ends(d + unit, unit)
    } by {
        let t = d + unit;
        assert(t[0] == d[0]);
        assert(t.last() == unit.last());
        assert(t.take(t.len() - unit.len()) =~= d);
        assert(t.skip(t.len() - unit.len()) =~= unit);
    }
    assert forall|t: Seq<char>, unit: Seq<char>|
        unit.len() > 0 && t.len() > 0 && t.last() != unit.last() implies !(#[trigger] ends(
        t,
        unit,
    )) by {
        if ends(t, unit) {
            assert(t.skip(t.len() - unit.len())[unit.len() - 1] == t.last());
        }
    }
    assert(!ends(d + "s"@, "ms"@)) by {
        let t = d + "s"@;
        if ends(t, "ms"@) {
            assert(t.skip(t.len() - 2)[0] == d[k - 1]);
            assert("ms"@[0] == 'm');
        }
    }
}

fn parse_count(s: &[char], factor: u64) -> (r: Option<u64>)
    ensures
        match r {
            Some(n) => count_of(s@, factor as nat) == Some(n as nat),
            None => count_of(s@, factor as nat) is None,
        },
{
    match parse_u64(trim(s)) {
        Some(n) => n.checked_mul(factor),
        None => None,
    }
}

/// Parses `10s`, `500ms`, `5m` or `1h`; a bare number counts seconds. A number
/// of minutes or hours whose seconds overflow is refused.
pub fn parse_duration(s: &str) -> (r: Option<Duration>)
    ensures
        r == duration_of(s@),
{
    let chars = to_chars(s);
    let t = trim(chars.as_slice());
    if let Some(num) = strip_suffix(t, "ms") {
        match parse_count(num, 1) {
            Some(n) => Some(Duration::from_millis(n)),
            None => None,
        }
    } else {
        let count: Option<u64> = if let Some(num) = strip_suffix(t, "s") {
            parse_count(num, 1)
        } else if let Some(num) = strip_suffix(t, "m") {
            parse_count(num, 60)
        } else if let Some(num) = strip_suffix(t, "h") {
            parse_count(num, 3600)
        } else {
            parse_u64(t)
        };
        match count {
            Some(n) => Some(Duration::from_secs(n)),
            None => None,
        }
    }
}

/// The period of a throttle: the name of a unit, or a duration.
pub open spec fn period_of(s: Seq<char>) -> Option<Duration> {
    if s == "sec"@ || s == "s"@ {
        Some(secs(1))
    } else if s == "min"@ || s == "m"@ {
        Some(secs(60))
    } else if s == "hour"@ || s == "h"@ {
        Some(secs(3600))
    } else {
        duration_of(s)
    }
}

/// The throttle that a text writes: a count, a slash and a period, neither of
/// them zero.
pub open spec fn throttle_of(s: Seq<char>) -> Option<Throttle> {
    match first_index(s, '/') {
        None => None,
        Some(i) => match (
            unsigned_value(trimmed(s.take(i)), u32::MAX as nat),
            period_of(trimmed(s.skip(i + 1))),
        ) {
            (Some(max), Some(per)) => if max > 0 && per.nanos > 0 {
                Some(Throttle { max: max as u32, per })
            } else {
                None
            },
            _ => None,
        },
    }
}

/// A throttle that was read lets something through, over a period that is not
/// empty.
pub proof fn throttles_are_positive(s: Seq<char>)
    ensures
        throttle_of(s) matches Some(t) ==> t.max > 0 && t.per.nanos > 0,
{
}

/// The first slash of a text that has none in its first part.
proof fn slash_is_found(head: Seq<char>, tail: Seq<char>)
    requires
        all_digits(head),
    ensures
        ({
            let s = head + "/"@ + tail;
            &&& first_index(s, '/') == Some(head.len() as int)
            &&& s.take(head.len() as int) == head
            &&& s.skip(head.len() as int + 1) == tail
        }),
{
    reveal_strlit("/");
    let s = head + "/"@ + tail;
    let n = head.len() as int;
    assert(s[n] == '/');
    first_index_finds(s, '/');
    let i = first_index(s, '/')->0;
    if i < n {
        assert(digit(head[i]));
    }
    if i > n {
        assert(s.take(i)[n] == '/');
    }
    assert(s.take(n) =~= head);
    assert(s.skip(n + 1) =~= tail);
}

/// A count, a slash and a period read as that throttle, where neither of them is
/// zero. The period is the name of a unit or a duration.
pub proof fn throttle_reads_what_is_written(max: u32, n: u64)
    ensures
        ({
            let head = decimal(max as nat) + "/"@;
            let with = |per: Duration|
                if max > 0 && per.nanos > 0 {
                    Some(Throttle { max, per })
                } else {
                    None
                };
            &&& throttle_of(head + "sec"@) == with(secs(1))
            &&& throttle_of(head + "min"@) == with(secs(60))
            &&& throttle_of(head + "hour"@) == with(secs(3600))
            &&& throttle_of(head + (decimal(n as nat) + "s"@)) == with(secs(n as nat))
            &&& throttle_of(head + (decimal(n as nat) + "ms"@)) == with(millis(n as nat))
        }),
{
    decimal_is_read_back(max as nat);
    decimal_is_read_back(n as nat);
    digits_stay(decimal(max as nat));
    assert(digit(decimal(max as nat)[0]));
    let d = decimal(n as nat);
    assert(digit(d[0]));
    duration_reads_what_is_written(n);
    reveal_strlit("sec");
    reveal_strlit("s");
    reveal_strlit("ms");
    reveal_strlit("min");
    reveal_strlit("m");
    reveal_strlit("hour");
    reveal_strlit("h");
    slash_is_found(decimal(max as nat), d + "ms"@);
    let u = d + "ms"@;
    assert(u[0] == d[0] && u.last() == 's');
    assert(trimmed(u) == u);
    assert(u != "sec"@ && u != "s"@ && u != "min"@ && u != "m"@ && u != "hour"@ && u != "h"@) by {
        assert("sec"@[0] == 's' && "s"@[0] == 's' && "min"@[0] == 'm' && "m"@[0] == 'm');
        assert("hour"@[0] == 'h' && "h"@[0] == 'h');
    }
    slash_is_found(decimal(max as nat), "sec"@);
    slash_is_found(decimal(max as nat), "min"@);
    slash_is_found(decimal(max as nat), "hour"@);
    slash_is_found(decimal(max as nat), d + "s"@);
    assert("sec"@[0] == 's' && "sec"@.last() == 'c');
    assert("min"@[0] == 'm' && "min"@.last() == 'n');
    assert("hour"@[0] == 'h' && "hour"@.last() == 'r');
    assert(trimmed("sec"@) == "sec"@);
    assert(trimmed("min"@) == "min"@);
    assert(trimmed("hour"@) == "hour"@);
    let t = d + "s"@;
    assert(t[0] == d[0] && t.last() == 's');
    assert(trimmed(t) == t);
    assert("sec"@ != "min"@ && "sec"@ != "m"@);
    assert("hour"@ != "min"@ && "hour"@ != "m"@ && "hour"@ != "s"@ && "hour"@ != "sec"@);
    assert("min"@ != "s"@ && "min"@ != "sec"@);
    assert(t != "sec"@ && t != "s"@ && t != "min"@ && t != "m"@ && t != "hour"@ && t != "h"@);
}

/// Parses a count and a period: `1/min`, `5/30s`, `10/hour`, `1/sec`.
pub fn parse_throttle(s: &str) -> (r: Option<Throttle>)
    ensures
        r == throttle_of(s@),
{
    let chars = to_chars(s);
    let all = chars.as_slice();
    let slash: usize = match find_char(all, '/') {
        Some(i) => i,
        None => {
            return None;
        },
    };
    let num = slice_subrange(all, 0, slash);
    assert(num@ =~= s@.take(slash as int));
    let unit = slice_subrange(all, slash + 1, all.len());
    assert(unit@ =~= s@.skip(slash + 1));
    let max: u32 = match parse_u32(trim(num)) {
        Some(n) => n,
        None => {
            return None;
        },
    };
    if max == 0 {
        return None;
    }
    let unit = trim(unit);
    let per = if is_text(unit, "sec") || is_text(unit, "s") {
        Duration::from_secs(1)
    } else if is_text(unit, "min") || is_text(unit, "m") {
        Duration::from_secs(60)
    } else if is_text(unit, "hour") || is_text(unit, "h") {
        Duration::from_secs(3600)
    } else {
        let text = from_chars(unit);
        match parse_duration(text.as_str()) {
            Some(d) => d,
            None => {
                return None;
            },
        }
    };
    if per.is_zero() {
        return None;
    }
    Some(Throttle { max, per })
}

// ---------------------------------------------------------------------
// Actions
// ---------------------------------------------------------------------

/// The first position of white space.
pub open spec fn first_white(s: Seq<char>) -> Option<int>
    decreases s.len(),
{
    if s.len() == 0 {
        None
    } else if white(s[0]) {
        Some(0)
    } else {
        match first_white(s.drop_first()) {
            Some(i) => Some(i + 1),
            None => None,
        }
    }
}

/// The word that a line starts with, and what follows it.
pub open spec fn word_and_rest(s: Seq<char>) -> (Seq<char>, Seq<char>) {
    match first_white(s) {
        Some(i) => (s.take(i), trimmed(s.skip(i + 1))),
        None => (s, Seq::empty()),
    }
}

/// The text of an alert: a string literal, or all that is there without the
/// quotes at its ends.
pub open spec fn alert_text(s: Seq<char>) -> Seq<char> {
    match literal(s) {
        Some((text, _)) => text,
        None => without_trailing(without_leading(s, '"'), '"'),
    }
}

/// The action that a line writes, or a message.
pub open spec fn action_of(s: Seq<char>) -> Result<ActionView, Seq<char>> {
    let (word, rest) = word_and_rest(trimmed(s));
    if word == "log"@ {
        Ok(ActionView::Log)
    } else if word == "alert"@ {
        Ok(ActionView::Alert(alert_text(rest)))
    } else if word == "kill"@ || word == "killProcess"@ || word == "kill_process"@ {
        Ok(ActionView::KillProcess)
    } else {
        Err("unknown action '"@ + word + "'"@)
    }
}

fn split_word<'a>(s: &'a [char]) -> (r: (&'a [char], &'a [char]))
    ensures
        (r.0@, r.1@) == word_and_rest(s@),
{
    let n: usize = s.len();
    let mut i: usize = 0;
    assert(s@.skip(0) =~= s@);
    while i < n
        invariant
            i <= n,
            n == s@.len(),
            first_white(s@) == (match first_white(s@.skip(i as int)) {
                Some(k) => Some(k + i),
                None => None,
            }),
        decreases n - i,
    {
        if is_white(s[i]) {
            let word = slice_subrange(s, 0, i);
            let rest = slice_subrange(s, i + 1, n);
            assert(word@ =~= s@.take(i as int));
            assert(rest@ =~= s@.skip(i + 1));
            return (word, trim(rest));
        }
        assert(s@.skip(i as int).drop_first() =~= s@.skip(i + 1));
        i += 1;
    }
    let rest = slice_subrange(s, n, n);
    assert(rest@ =~= Seq::<char>::empty());
    (s, rest)
}

/// Parses one action line.
pub fn parse_action(s: &str) -> (r: Result<Action, String>)
    ensures
        match r {
            Ok(a) => action_of(s@) == Ok::<ActionView, Seq<char>>(a.deep_view()),
            Err(e) => action_of(s@) == Err::<ActionView, Seq<char>>(e@),
        },
{
    let chars = to_chars(s);
    let (word, rest) = split_word(trim(chars.as_slice()));
    if is_text(word, "log") {
        Ok(Action::Log)
    } else if is_text(word, "alert") {
        let text = match parse_string_literal(rest) {
            Some(text) => text,
            None => from_chars(trim_end_char(trim_start_char(rest, '"'), '"')),
        };
        Ok(Action::Alert(text))
    } else if is_text(word, "kill") || is_text(word, "killProcess") || is_text(
        word,
        "kill_process",
    ) {
        Ok(Action::KillProcess)
    } else {
        let name = from_chars(word);
        Err(join("unknown action '", name.as_str(), "'"))
    }
}

} // verus!
