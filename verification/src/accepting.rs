//! Which texts are accepted as numbers, durations, throttles, actions and paths,
//! and what they are then.

use crate::ast::{path_of, path_reads_what_is_written, ActionView, PathView};
use crate::directive::{action_of, alert_text, duration_of, first_white, throttle_of};
use crate::layout::{blank, tight, tight_text_is_kept, trimming_takes_white_ends};
use crate::lexer::{escaped, literal_reads_what_is_written, open_strings_are_refused};
use crate::text::{
    all_digits, digit, ends, first_index, first_index_finds, ident_char, letter, lower, lowered,
    number, signed_value, trimmed, trimmed_end, trimmed_start, unsigned_value, white,
    without_leading, without_trailing,
};
use crate::time::Duration;
use vstd::prelude::*;

verus! {

// ---------------------------------------------------------------------
// Characters
// ---------------------------------------------------------------------

/// Digits, letters and white space, by the codes of the characters; a capital
/// letter has its small one, and any other character is its own.
pub proof fn characters_are_known_by_their_codes(c: char)
    ensures
        ({
            let n = c as u32;
            &&& digit(c) <==> 48 <= n <= 57
            &&& letter(c) <==> 65 <= n <= 90 || 97 <= n <= 122
            &&& ident_char(c) <==> letter(c) || digit(c) || n == 95
            &&& n <= 0x7f ==> (white(c) <==> 9 <= n <= 13 || n == 32)
            &&& n > 0x7f ==> (white(c) <==> {
                ||| n == 0x85 || n == 0xa0 || n == 0x1680 || 0x2000 <= n <= 0x200a
                ||| n == 0x2028 || n == 0x2029 || n == 0x202f || n == 0x205f || n == 0x3000
            })
            &&& lower(c) as u32 == if 65 <= n <= 90 {
                n + 32
            } else {
                n as int
            }
        }),
{
}

/// Lowering works on each character.
pub proof fn lowering_keeps_places(s: Seq<char>)
    ensures
        lowered(s).len() == s.len(),
        forall|i: int| 0 <= i < s.len() ==> #[trigger] lowered(s)[i] == lower(s[i]),
{
}

// ---------------------------------------------------------------------
// Numbers
// ---------------------------------------------------------------------

/// One or more digits, with an optional plus sign before them.
pub open spec fn numeral(s: Seq<char>) -> bool {
    ||| s.len() > 0 && all_digits(s)
    ||| s.len() > 1 && s[0] == '+' && all_digits(s.skip(1))
}

/// The digits of a numeral.
pub open spec fn digits_of(s: Seq<char>) -> Seq<char> {
    if s.len() > 0 && s[0] == '+' {
        s.skip(1)
    } else {
        s
    }
}

/// Numerals up to a limit are accepted, and no other text is.
pub proof fn numerals_are_numbers(s: Seq<char>, max: nat)
    ensures
        unsigned_value(s, max) == if numeral(s) && number(digits_of(s)) <= max {
            Some(number(digits_of(s)))
        } else {
            None
        },
{
    if s.len() > 0 {
        assert(s.drop_first() =~= s.skip(1));
        if s[0] == '+' {
            assert(!digit(s[0]));
        }
    }
}

/// A digit more makes ten times the number and the digit; leading zeros count for
/// nothing; a digit alone is its own number.
pub proof fn digits_have_places(s: Seq<char>, d: char)
    requires
        digit(d),
    ensures
        number(s.push(d)) == number(s) * 10 + (d as int - '0' as int),
        number(seq!['0'] + s) == number(s),
        number(Seq::empty()) == 0,
        number(seq!['0']) == 0,
        number(seq!['9']) == 9,
    decreases s.len(),
{
    assert(s.push(d).drop_last() =~= s);
    assert(s.push(d).last() == d);
    let zero = seq!['0'];
    assert(zero.drop_last() =~= Seq::empty());
    assert(seq!['9'].drop_last() =~= Seq::empty());
    assert(number(Seq::empty()) == 0);
    if s.len() == 0 {
        assert(zero + s =~= zero);
        assert(s =~= Seq::empty());
    } else {
        digits_have_places(s.drop_last(), d);
        assert((zero + s).drop_last() =~= zero + s.drop_last());
        assert((zero + s).last() == s.last());
    }
}

/// A minus sign makes a number negative; without one it is that of the numeral. A
/// number that does not fit 64 bits is refused, and so is any other text.
pub proof fn signed_numerals_are_numbers(s: Seq<char>)
    ensures
        all_digits(s) && s.len() > 0 ==> signed_value(seq!['-'] + s) == if number(s)
            <= 0x8000_0000_0000_0000 {
            Some(-(number(s) as int))
        } else {
            None
        },
        s.len() > 0 && s[0] == '-' ==> (signed_value(s) is Some ==> s.len() > 1 && all_digits(
            s.skip(1),
        )),
        !(s.len() > 0 && s[0] == '-') ==> signed_value(s) == if numeral(s) && number(digits_of(s))
            <= 0x7fff_ffff_ffff_ffff {
            Some(number(digits_of(s)) as int)
        } else {
            None
        },
{
    assert((seq!['-'] + s).drop_first() =~= s);
    numerals_are_numbers(s, 0x7fff_ffff_ffff_ffff);
    if s.len() > 0 {
        assert(s.drop_first() =~= s.skip(1));
    }
}

// ---------------------------------------------------------------------
// Durations
// ---------------------------------------------------------------------

/// The parts of a text that writes a duration.
pub struct Measure {
    pub before: Seq<char>,
    pub num: Seq<char>,
    pub gap: Seq<char>,
    pub unit: Seq<char>,
    pub after: Seq<char>,
}

impl Measure {
    /// A numeral and a unit, or none, with any white space around and between.
    pub open spec fn right(self) -> bool {
        &&& blank(self.before) && blank(self.gap) && blank(self.after)
        &&& numeral(self.num)
        &&& self.unit.len() == 0 ==> self.gap.len() == 0
        &&& {
            ||| self.unit == seq!['m', 's']
            ||| self.unit == seq!['s']
            ||| self.unit == seq!['m']
            ||| self.unit == seq!['h']
            ||| self.unit.len() == 0
        }
    }

    pub open spec fn text(self) -> Seq<char> {
        self.before + (self.num + self.gap + self.unit) + self.after
    }

    /// Seconds in a minute or an hour; otherwise one.
    pub open spec fn factor(self) -> int {
        if self.unit == seq!['m'] {
            60
        } else if self.unit == seq!['h'] {
            3600
        } else {
            1
        }
    }

    /// The nanoseconds of the duration.
    pub open spec fn nanos(self) -> int {
        number(digits_of(self.num)) * self.factor() * if self.unit == seq!['m', 's'] {
            1_000_000int
        } else {
            1_000_000_000int
        }
    }

    /// The count of milliseconds or seconds fits 64 bits.
    pub open spec fn within_limit(self) -> bool {
        number(digits_of(self.num)) * self.factor() <= u64::MAX
    }
}

proof fn units_are_texts()
    ensures
        "ms"@ == seq!['m', 's'],
        "s"@ == seq!['s'],
        "m"@ == seq!['m'],
        "h"@ == seq!['h'],
{
    reveal_strlit("ms");
    reveal_strlit("s");
    reveal_strlit("m");
    reveal_strlit("h");
    assert("ms"@ =~= seq!['m', 's']);
    assert("s"@ =~= seq!['s']);
    assert("m"@ =~= seq!['m']);
    assert("h"@ =~= seq!['h']);
}

/// A text ends with a unit of one letter where that is its last character.
proof fn ending_letter(t: Seq<char>, c: char)
    ensures
        ends(t, seq![c]) <==> t.len() > 0 && t[t.len() - 1] == c,
{
    if t.len() > 0 {
        assert(t.skip(t.len() - 1) =~= seq![t[t.len() - 1]]);
        if ends(t, seq![c]) {
            assert(t.skip(t.len() - 1)[0] == seq![c][0]);
        }
    }
}

proof fn ending_ms(t: Seq<char>)
    ensures
        ends(t, seq!['m', 's']) <==> t.len() > 1 && t[t.len() - 1] == 's' && t[t.len() - 2] == 'm',
{
    if t.len() > 1 {
        let tail = t.skip(t.len() - 2);
        assert(tail =~= seq![t[t.len() - 2], t[t.len() - 1]]);
        if ends(t, seq!['m', 's']) {
            assert(tail[0] == 'm' && tail[1] == 's');
        }
    }
}

proof fn numerals_are_tight(s: Seq<char>)
    requires
        numeral(s),
    ensures
        s.len() > 0,
        tight(s),
        digit(s[s.len() - 1]),
{
    if !all_digits(s) {
        assert(digit(s.skip(1)[s.len() - 2]));
    } else {
        assert(digit(s[0]) && digit(s[s.len() - 1]));
    }
}

/// A numeral with a unit is that many of the unit, and a bare one is seconds; white
/// space around the two means nothing. One whose count does not fit 64 bits is
/// refused.
pub proof fn durations_are_numbers_with_a_unit(m: Measure)
    requires
        m.right(),
    ensures
        duration_of(m.text()) == if m.within_limit() {
            Some(Duration { nanos: m.nanos() as u128 })
        } else {
            None
        },
        m.within_limit() ==> 0 <= m.nanos() <= u128::MAX,
{
    let t = m.num + m.gap + m.unit;
    let n = number(digits_of(m.num));
    let last = t.len() - 1;
    units_are_texts();
    numerals_are_tight(m.num);
    assert(t[0] == m.num[0]);
    let head = m.num + m.gap;
    assert(!white('m') && !white('s') && !white('h'));
    assert(tight(t)) by {
        if m.unit.len() > 0 {
            assert(t[last] == m.unit[m.unit.len() - 1]);
        } else {
            assert(t =~= m.num);
        }
    }
    trimming_takes_white_ends(m.before, t, m.after);
    ending_ms(t);
    ending_letter(t, 's');
    ending_letter(t, 'm');
    ending_letter(t, 'h');
    if m.unit.len() > 0 {
        assert(t.take(t.len() - m.unit.len()) =~= head);
        trimming_takes_white_ends(Seq::empty(), m.num, m.gap);
        assert(Seq::<char>::empty() + m.num + m.gap =~= head);
        assert(head[head.len() - 1] != 'm') by {
            if m.gap.len() > 0 {
                assert(head[head.len() - 1] == m.gap[m.gap.len() - 1]);
                assert(white(m.gap[m.gap.len() - 1]));
            } else {
                assert(head[head.len() - 1] == m.num[m.num.len() - 1]);
            }
        }
        assert(t[t.len() - m.unit.len() - 1] == head[head.len() - 1]);
    } else {
        assert(t =~= m.num);
    }
    assert(seq!['m', 's'] != seq!['m']) by {
        assert(seq!['m', 's'].len() == 2);
    }
    assert(seq!['m', 's'] != seq!['h']) by {
        assert(seq!['m', 's'].len() == 2);
    }
    assert(seq!['s'] != seq!['m'] && seq!['s'] != seq!['h'] && seq!['h'] != seq!['m']) by {
        assert(seq!['s'][0] == 's' && seq!['m'][0] == 'm' && seq!['h'][0] == 'h');
    }
    numerals_are_numbers(m.num, u64::MAX as nat);
    limits_fit(n, m.factor());
}

proof fn limits_fit(n: nat, factor: int)
    requires
        1 <= factor <= 3600,
    ensures
        n <= n * factor,
        0 <= n * factor,
        n * factor <= u64::MAX ==> (n * factor) * 1_000_000_000 <= u128::MAX,
{
    assert(n <= n * factor) by (nonlinear_arith)
        requires
            1 <= factor,
            n >= 0,
    ;
}

proof fn trimming_leaves_the_core(s: Seq<char>) -> (ends: (Seq<char>, Seq<char>))
    ensures
        blank(ends.0),
        blank(ends.1),
        tight(trimmed(s)),
        s == ends.0 + trimmed(s) + ends.1,
{
    let t = trimmed_start(s);
    let a = start_is_cut(s);
    let b = end_is_cut(t);
    if trimmed(s).len() > 0 {
        assert(trimmed(s)[0] == t[0]);
    }
    assert(s =~= a + trimmed(s) + b);
    (a, b)
}

proof fn start_is_cut(s: Seq<char>) -> (a: Seq<char>)
    ensures
        blank(a),
        s == a + trimmed_start(s),
        trimmed_start(s).len() > 0 ==> !white(trimmed_start(s)[0]),
    decreases s.len(),
{
    if s.len() > 0 && white(s[0]) {
        let rest = start_is_cut(s.drop_first());
        let a = seq![s[0]] + rest;
        let t = trimmed_start(s.drop_first());
        assert(seq![s[0]] + (rest + t) =~= a + t);
        assert(s =~= seq![s[0]] + s.drop_first());
        assert forall|i: int| 0 <= i < a.len() implies white(#[trigger] a[i]) by {
            if i > 0 {
                assert(white(rest[i - 1]));
            }
        }
        a
    } else {
        assert(s =~= Seq::<char>::empty() + trimmed_start(s));
        Seq::empty()
    }
}

proof fn end_is_cut(s: Seq<char>) -> (b: Seq<char>)
    ensures
        blank(b),
        s == trimmed_end(s) + b,
        trimmed_end(s).len() > 0 ==> !white(trimmed_end(s)[trimmed_end(s).len() - 1]),
    decreases s.len(),
{
    if s.len() > 0 && white(s.last()) {
        let rest = end_is_cut(s.drop_last());
        let b = rest.push(s.last());
        let t = trimmed_end(s.drop_last());
        assert((t + rest).push(s.last()) =~= t + b);
        assert(s =~= s.drop_last().push(s.last()));
        assert forall|i: int| 0 <= i < b.len() implies white(#[trigger] b[i]) by {
            if i < rest.len() {
                assert(white(rest[i]));
            }
        }
        b
    } else {
        assert(s =~= trimmed_end(s) + Seq::<char>::empty());
        Seq::empty()
    }
}

/// Every text that is accepted as a duration is a numeral with a unit or none, and
/// white space.
pub proof fn durations_have_parts(s: Seq<char>) -> (m: Measure)
    requires
        duration_of(s) is Some,
    ensures
        m.right(),
        m.text() == s,
        m.within_limit(),
        duration_of(s)->0.nanos == m.nanos(),
{
    let t = trimmed(s);
    let (before, after) = trimming_leaves_the_core(s);
    units_are_texts();
    let unit: Seq<char> = if ends(t, "ms"@) {
        seq!['m', 's']
    } else if ends(t, "s"@) {
        seq!['s']
    } else if ends(t, "m"@) {
        seq!['m']
    } else if ends(t, "h"@) {
        seq!['h']
    } else {
        Seq::empty()
    };
    let head = t.take(t.len() - unit.len());
    assert(t =~= head + unit) by {
        assert(unit.len() > 0 ==> t.skip(t.len() - unit.len()) == unit);
        assert(head + t.skip(t.len() - unit.len()) =~= t);
    }
    let (front, gap) = trimming_leaves_the_core(head);
    let num = trimmed(head);
    numerals_are_numbers(num, u64::MAX as nat);
    if unit.len() == 0 {
        assert(head =~= t);
        tight_text_is_kept(t);
        assert(gap.len() == 0) by {
            assert(front.len() + num.len() + gap.len() == head.len());
        }
    }
    assert(numeral(num));
    numerals_are_tight(num);
    assert(front.len() == 0) by {
        if front.len() > 0 {
            assert(white(front[0]));
            assert(t[0] == head[0]);
            assert(head[0] == front[0]);
        }
    }
    assert(head =~= num + gap);
    let m = Measure { before, num, gap, unit, after };
    assert(m.text() =~= s);
    durations_are_numbers_with_a_unit(m);
    m
}

// ---------------------------------------------------------------------
// Throttles
// ---------------------------------------------------------------------

/// A throttle is a count, a slash and a period: the name of a unit, or a duration.
/// A count of zero is refused, and so is an empty period.
pub proof fn throttles_are_counts_over_periods(count: Seq<char>, period: Seq<char>)
    requires
        !count.contains('/'),
    ensures
        ({
            let num = trimmed(count);
            let name = trimmed(period);
            let n = number(digits_of(num));
            let per = if name == seq!['s', 'e', 'c'] || name == seq!['s'] {
                Some(1_000_000_000int)
            } else if name == seq!['m', 'i', 'n'] || name == seq!['m'] {
                Some(60_000_000_000int)
            } else if name == seq!['h', 'o', 'u', 'r'] || name == seq!['h'] {
                Some(3_600_000_000_000int)
            } else {
                match duration_of(name) {
                    Some(d) => Some(d.nanos as int),
                    None => None,
                }
            };
            match throttle_of(count + seq!['/'] + period) {
                Some(t) => {
                    &&& numeral(num) && t.max == n && t.max > 0
                    &&& per == Some(t.per.nanos as int) && t.per.nanos > 0
                },
                None => {
                    ||| !numeral(num) || n == 0 || n > u32::MAX
                    ||| per is None || per == Some(0int)
                },
            }
        }),
        throttle_of(count) is None,
{
    let s = count + seq!['/'] + period;
    let k = count.len() as int;
    assert(s[k] == '/');
    first_index_finds(s, '/');
    first_index_finds(count, '/');
    let i = first_index(s, '/')->0;
    assert(i == k) by {
        if i < k {
            assert(count[i] == '/');
        }
        if i > k {
            assert(s.take(i)[k] == '/');
        }
    }
    assert(s.take(k) =~= count);
    assert(s.skip(k + 1) =~= period);
    numerals_are_numbers(trimmed(count), u32::MAX as nat);
    names_of_units();
}

proof fn names_of_units()
    ensures
        "sec"@ == seq!['s', 'e', 'c'],
        "min"@ == seq!['m', 'i', 'n'],
        "hour"@ == seq!['h', 'o', 'u', 'r'],
        "s"@ == seq!['s'],
        "m"@ == seq!['m'],
        "h"@ == seq!['h'],
{
    units_are_texts();
    reveal_strlit("sec");
    reveal_strlit("min");
    reveal_strlit("hour");
    assert("sec"@ =~= seq!['s', 'e', 'c']);
    assert("min"@ =~= seq!['m', 'i', 'n']);
    assert("hour"@ =~= seq!['h', 'o', 'u', 'r']);
}

// ---------------------------------------------------------------------
// Actions
// ---------------------------------------------------------------------

/// No white space.
pub open spec fn solid(s: Seq<char>) -> bool {
    forall|i: int| 0 <= i < s.len() ==> !white(#[trigger] s[i])
}

proof fn first_white_is_after(word: Seq<char>, tail: Seq<char>)
    requires
        solid(word),
        tail.len() > 0 ==> white(tail[0]),
    ensures
        first_white(word + tail) == if tail.len() == 0 {
            None
        } else {
            Some(word.len() as int)
        },
    decreases word.len(),
{
    let all = word + tail;
    if word.len() == 0 {
        assert(all =~= tail);
    } else {
        let rest = word.drop_first();
        assert(all[0] == word[0]);
        assert forall|i: int| 0 <= i < rest.len() implies !white(#[trigger] rest[i]) by {
            assert(!white(word[i + 1]));
        }
        assert(all.drop_first() =~= rest + tail);
        first_white_is_after(rest, tail);
    }
}

/// An action is known by the first word of its line. An alert has what follows the
/// word; after the other actions anything may follow. A line with any other first
/// word is refused.
pub proof fn actions_are_known_by_their_word(
    before: Seq<char>,
    word: Seq<char>,
    gap: Seq<char>,
    rest: Seq<char>,
    after: Seq<char>,
)
    requires
        blank(before),
        blank(gap),
        blank(after),
        word.len() > 0,
        solid(word),
        tight(rest),
        rest.len() > 0 ==> gap.len() > 0,
    ensures
        action_of(before + word + gap + rest + after) == if word == "log"@ {
            Ok::<ActionView, Seq<char>>(ActionView::Log)
        } else if word == "alert"@ {
            Ok(ActionView::Alert(alert_text(rest)))
        } else if word == "kill"@ || word == "killProcess"@ || word == "kill_process"@ {
            Ok(ActionView::KillProcess)
        } else {
            Err("unknown action '"@ + word + "'"@)
        },
{
    let all = before + word + gap + rest + after;
    let none = Seq::<char>::empty();
    assert(!white(word[0]) && !white(word[word.len() - 1]));
    if rest.len() == 0 {
        let tail = gap + after;
        assert forall|i: int| 0 <= i < tail.len() implies white(#[trigger] tail[i]) by {
            if i < gap.len() {
                assert(white(gap[i]));
            } else {
                assert(white(after[i - gap.len()]));
            }
        }
        trimming_takes_white_ends(before, word, tail);
        assert(all =~= before + word + tail);
        first_white_is_after(word, none);
        assert(word + none =~= word);
        assert(rest =~= none);
    } else {
        let core = word + gap + rest;
        let tail = gap + rest;
        assert(core[0] == word[0]);
        assert(core[core.len() - 1] == rest[rest.len() - 1]);
        trimming_takes_white_ends(before, core, after);
        assert(all =~= before + core + after);
        assert(core =~= word + tail);
        assert(white(gap[0]));
        assert(tail[0] == gap[0]);
        first_white_is_after(word, tail);
        let k = word.len() as int;
        assert(core.take(k) =~= word);
        let less = gap.skip(1);
        assert forall|i: int| 0 <= i < less.len() implies white(#[trigger] less[i]) by {
            assert(white(gap[i + 1]));
        }
        assert(core.skip(k + 1) =~= less + rest + none);
        trimming_takes_white_ends(less, rest, none);
    }
}

/// An alert has the text of its string literal; without quotes, what is written; and
/// with a quote at one end alone, what is written without it.
pub proof fn alerts_have_their_text(s: Seq<char>, rest: Seq<char>)
    ensures
        alert_text(seq!['"'] + escaped(s) + seq!['"'] + rest) == s,
        !s.contains('"') ==> alert_text(s) == s,
        !s.contains('"') ==> alert_text(seq!['"'] + s) == s,
        !s.contains('"') && s.len() > 0 ==> alert_text(s + seq!['"']) == s,
{
    literal_reads_what_is_written(s, rest);
    if !s.contains('"') {
        open_strings_are_refused(s);
        unquoted_ends(s);
        let left = seq!['"'] + s;
        assert(left.drop_first() =~= s);
        assert(left[0] == '"');
        assert(without_leading(left, '"') == without_leading(s, '"'));
        if s.len() > 0 {
            let right = s + seq!['"'];
            assert(s.contains(s[0]));
            assert(right[0] == s[0]);
            assert(right.drop_last() =~= s);
            assert(right.last() == '"');
            assert(without_trailing(right, '"') == without_trailing(s, '"'));
        }
    }
}

proof fn unquoted_ends(s: Seq<char>)
    requires
        !s.contains('"'),
    ensures
        without_leading(s, '"') == s,
        without_trailing(s, '"') == s,
{
    if s.len() > 0 {
        assert(s.contains(s[0]));
        assert(s.contains(s[s.len() - 1]));
    }
}

// ---------------------------------------------------------------------
// Paths
// ---------------------------------------------------------------------

/// A path has three parts with dots between them; only the middle one may hold
/// dots, and none is empty.
pub proof fn paths_have_three_parts(
    s: Seq<char>,
    module: Seq<char>,
    event_type: Seq<char>,
    field: Seq<char>,
)
    ensures
        path_of(s) == Some(PathView { module, event_type, field }) <==> {
            &&& s == module + seq!['.'] + event_type + seq!['.'] + field
            &&& module.len() > 0 && event_type.len() > 0 && field.len() > 0
            &&& !module.contains('.') && !field.contains('.')
        },
{
    path_reads_what_is_written(s, PathView { module, event_type, field });
}

} // verus!
