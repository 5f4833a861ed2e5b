//! Rules as they are written in a text, and that they are read back.

use crate::ast::{ActionView, CondView, RuleView, Throttle};
use crate::directive::{
    action_of, duration_of, duration_reads_what_is_written, first_white, millis, throttle_of,
    throttle_reads_what_is_written,
};
use crate::document::{
    actions_for, finished, groups_make_rules, has_group, has_list, line_of, rule_for, rules_of,
    DocView, GroupView, LineView, ListView, Section,
};
use crate::event::Scalar;
use crate::expr::expression_of;
use crate::floats::FloatsView;
use crate::grouping::parenthesised_text_is_the_same;
use crate::layout::{
    complete, complete_texts_join, directives_are_keywords, headers_are_names_with_a_colon,
    line_breaks_end_lines, one_line, other_lines_are_content, plain_text_is_complete,
    strings_are_complete, tight_text_is_kept,
};
use crate::lexer::{
    escape, escaped, literal_reads_what_is_written, number_char, word_char, TokenView,
};
use crate::parser::{doc_after, names_differ, source_rules, Paths, StopView, World};
use crate::text::{decimal, decimal_is_read_back, digit, ident_char, lines, lowered, trimmed, white};
use crate::time::Duration;
use crate::written::{
    expression_reads_what_is_written, integer_text, spellable, spellable_tokens, spelled,
    token_text, token_writable, tokens_for, tokens_writable, Place,
};
use vstd::prelude::*;

verus! {

// ---------------------------------------------------------------------
// Writing
// ---------------------------------------------------------------------

/// How the floats of a condition are spelled: what a message shows of each, and
/// the text of each token.
pub struct Spelling {
    pub shown: spec_fn(Scalar) -> Seq<char>,
    pub float: spec_fn(TokenView) -> Seq<char>,
}

/// A duration in milliseconds.
pub open spec fn ms_text(d: Duration) -> Seq<char> {
    decimal((d.nanos / 1_000_000) as nat) + "ms"@
}

/// A throttle: its count, a slash and its period.
pub open spec fn throttle_text(t: Throttle) -> Seq<char> {
    decimal(t.max as nat) + "/"@ + ms_text(t.per)
}

/// A condition, in parentheses.
pub open spec fn condition_text(c: CondView, sp: Spelling) -> Seq<char> {
    seq!['('] + spelled(tokens_for(c, Place::Or, sp.shown), sp.float) + seq![')']
}

/// An action.
pub open spec fn action_text(a: ActionView) -> Seq<char> {
    match a {
        ActionView::Log => "log"@,
        ActionView::KillProcess => "kill"@,
        ActionView::Alert(text) => "alert"@ + seq![' '] + (seq!['"'] + escaped(text) + seq!['"']),
    }
}

/// The lines of the Detection group of a rule.
pub open spec fn detection_lines(r: RuleView, sp: Spelling) -> Seq<Seq<char>> {
    let head = seq![
        r.name + seq![':'],
        "window"@ + seq![':', ' '] + ms_text(r.window),
    ];
    let throttle = match r.throttle {
        Some(t) => seq!["throttle"@ + seq![':', ' '] + throttle_text(t)],
        None => Seq::empty(),
    };
    head + throttle + r.conditions.map_values(|c: CondView| condition_text(c, sp))
}

/// The lines of the Action group of a rule.
pub open spec fn action_lines(r: RuleView) -> Seq<Seq<char>> {
    seq![r.name + seq![':']] + r.actions.map_values(|a: ActionView| action_text(a))
}

/// The lines of all Detection groups.
pub open spec fn all_detection_lines(rules: Seq<RuleView>, sp: Spelling) -> Seq<Seq<char>>
    decreases rules.len(),
{
    if rules.len() == 0 {
        Seq::empty()
    } else {
        all_detection_lines(rules.drop_last(), sp) + detection_lines(rules.last(), sp)
    }
}

/// The lines of all Action groups.
pub open spec fn all_action_lines(rules: Seq<RuleView>) -> Seq<Seq<char>>
    decreases rules.len(),
{
    if rules.len() == 0 {
        Seq::empty()
    } else {
        all_action_lines(rules.drop_last()) + action_lines(rules.last())
    }
}

/// The lines of a document.
pub open spec fn document_lines(rules: Seq<RuleView>, sp: Spelling) -> Seq<Seq<char>> {
    seq!["Detection"@ + seq![':']] + all_detection_lines(rules, sp) + (seq!["Action"@ + seq![':']]
        + all_action_lines(rules))
}

/// Lines as a text, a line break after each.
pub open spec fn text_of(ls: Seq<Seq<char>>) -> Seq<char>
    decreases ls.len(),
{
    if ls.len() == 0 {
        Seq::empty()
    } else {
        ls[0] + seq!['\n'] + text_of(ls.skip(1))
    }
}

/// A duration that can be written in milliseconds.
pub open spec fn whole_ms(d: Duration) -> bool {
    d.nanos % 1_000_000 == 0 && d.nanos / 1_000_000 <= u64::MAX
}

/// A rule that can be written: its name is a name and not that of a section, its
/// durations are whole milliseconds, its throttle is not empty, its conditions can
/// be spelled, and it has an action.
pub open spec fn rule_can_be_written(r: RuleView, sp: Spelling, floats: FloatsView) -> bool {
    &&& r.name.len() > 0
    &&& forall|i: int| 0 <= i < r.name.len() ==> ident_char(#[trigger] r.name[i])
    &&& lowered(r.name) != "detection"@
    &&& lowered(r.name) != "action"@
    &&& whole_ms(r.window)
    &&& r.throttle matches Some(t) ==> t.max > 0 && t.per.nanos > 0 && whole_ms(t.per)
    &&& forall|i: int|
        0 <= i < r.conditions.len() ==> spellable(
            #[trigger] r.conditions[i],
            sp.shown,
            sp.float,
            floats,
        )
    &&& r.actions.len() > 0
}

/// Rules that can be written in one document.
pub open spec fn rules_can_be_written(rules: Seq<RuleView>, sp: Spelling, floats: FloatsView) -> bool {
    &&& forall|i: int|
        0 <= i < rules.len() ==> rule_can_be_written(#[trigger] rules[i], sp, floats)
    &&& names_differ(rules)
}

// ---------------------------------------------------------------------
// Texts that fit on a line
// ---------------------------------------------------------------------

/// Complete, and without a line break.
spec fn fits(s: Seq<char>) -> bool {
    complete(s) && !s.contains('\n')
}

proof fn fitting_texts_join(a: Seq<char>, b: Seq<char>)
    requires
        fits(a),
        fits(b),
    ensures
        fits(a + b),
{
    complete_texts_join(a, b);
    let all = a + b;
    if all.contains('\n') {
        let i = choose|i: int| 0 <= i < all.len() && all[i] == '\n';
        if i < a.len() {
            assert(a[i] == '\n');
        } else {
            assert(b[i - a.len()] == '\n');
        }
    }
}

proof fn plain_text_fits(s: Seq<char>)
    requires
        forall|i: int|
            0 <= i < s.len() ==> #[trigger] s[i] != '"' && s[i] != '#' && s[i] != '\n',
    ensures
        fits(s),
{
    plain_text_is_complete(s);
}

proof fn strings_fit(s: Seq<char>)
    ensures
        fits(seq!['"'] + escaped(s) + seq!['"']),
{
    strings_are_complete(s);
    escaped_on_one_line(s);
    let all = seq!['"'] + escaped(s) + seq!['"'];
    if all.contains('\n') {
        let i = choose|i: int| 0 <= i < all.len() && all[i] == '\n';
        assert(escaped(s)[i - 1] == '\n');
    }
}

proof fn escaped_on_one_line(s: Seq<char>)
    ensures
        !escaped(s).contains('\n'),
    decreases s.len(),
{
    if s.len() > 0 {
        escaped_on_one_line(s.skip(1));
        let e = escape(s[0]);
        let rest = escaped(s.skip(1));
        let all = escaped(s);
        if all.contains('\n') {
            let i = choose|i: int| 0 <= i < all.len() && all[i] == '\n';
            if i >= e.len() {
                assert(rest[i - e.len()] == '\n');
            }
        }
    }
}

proof fn numbers_fit(n: nat)
    ensures
        fits(decimal(n)),
        decimal(n).len() > 0,
        digit(decimal(n)[0]),
        digit(decimal(n)[decimal(n).len() - 1]),
{
    decimal_is_read_back(n);
    let s = decimal(n);
    assert forall|i: int| 0 <= i < s.len() implies #[trigger] s[i] != '"' && s[i] != '#' && s[i]
        != '\n' by {
        assert(digit(s[i]));
    }
    plain_text_fits(s);
    assert(digit(s[0]) && digit(s[s.len() - 1]));
}

proof fn tokens_fit(t: TokenView, sp: Spelling, floats: FloatsView)
    requires
        token_writable(t, sp.float, floats),
    ensures
        fits(token_text(t, sp.float)),
{
    let s = token_text(t, sp.float);
    if let TokenView::Str(text) = t {
        strings_fit(text);
    } else {
        reveal_strlit("==");
        reveal_strlit("!=");
        reveal_strlit("<");
        reveal_strlit(">");
        reveal_strlit("<=");
        reveal_strlit(">=");
        reveal_strlit("contains");
        reveal_strlit("startsWith");
        reveal_strlit("true");
        reveal_strlit("false");
        reveal_strlit("&&");
        reveal_strlit("||");
        reveal_strlit("!");
        reveal_strlit("(");
        reveal_strlit(")");
        if let TokenView::Int(n) = t {
            integer_text(n);
        }
        assert forall|i: int| 0 <= i < s.len() implies #[trigger] s[i] != '"' && s[i] != '#' && s[i]
            != '\n' by {
            match t {
                TokenView::Path(p) => {
                    assert(word_char(p[i]));
                },
                TokenView::Int(_) => {
                    assert(i == 0 || number_char(s[i]));
                },
                TokenView::Float(_, _) => {
                    assert(i == 0 || number_char(s[i]));
                },
                _ => {},
            }
        }
        plain_text_fits(s);
    }
}

proof fn spelled_tokens_fit(ts: Seq<TokenView>, sp: Spelling, floats: FloatsView)
    requires
        tokens_writable(ts, sp.float, floats),
    ensures
        fits(spelled(ts, sp.float)),
    decreases ts.len(),
{
    if ts.len() == 0 {
        plain_text_fits(Seq::empty());
    } else {
        let rest = ts.skip(1);
        assert(tokens_writable(rest, sp.float, floats)) by {
            assert forall|i: int| 0 <= i < rest.len() implies token_writable(
                #[trigger] rest[i],
                sp.float,
                floats,
            ) by {
                assert(rest[i] == ts[i + 1]);
            }
        }
        let first = token_text(ts[0], sp.float);
        tokens_fit(ts[0], sp, floats);
        plain_text_fits(seq![' ']);
        fitting_texts_join(first, seq![' ']);
        spelled_tokens_fit(rest, sp, floats);
        fitting_texts_join(first + seq![' '], spelled(rest, sp.float));
    }
}

// ---------------------------------------------------------------------
// Single lines
// ---------------------------------------------------------------------

/// A condition line is the condition.
proof fn condition_line(c: CondView, sp: Spelling, floats: FloatsView)
    requires
        spellable(c, sp.shown, sp.float, floats),
    ensures
        ({
            let text = condition_text(c, sp);
            &&& line_of(text) == LineView::Content(text)
            &&& expression_of(text, floats) == Ok::<CondView, Seq<char>>(c)
            &&& one_line(text)
        }),
{
    let ts = tokens_for(c, Place::Or, sp.shown);
    let inner = spelled(ts, sp.float);
    let text = condition_text(c, sp);
    expression_reads_what_is_written(c, sp.shown, sp.float, floats);
    parenthesised_text_is_the_same(inner, c, floats);
    spellable_tokens(c, Place::Or, sp.shown, sp.float, floats);
    spelled_tokens_fit(ts, sp, floats);
    plain_text_fits(seq!['(']);
    plain_text_fits(seq![')']);
    fitting_texts_join(seq!['('], inner);
    fitting_texts_join(seq!['('] + inner, seq![')']);
    assert(text[0] == '(' && text[text.len() - 1] == ')');
    other_lines_are_content(text);
}

/// A line of one word is that word, with nothing after it.
proof fn single_word(s: Seq<char>)
    requires
        s.len() > 0,
        forall|i: int| 0 <= i < s.len() ==> !white(#[trigger] s[i]),
    ensures
        trimmed(s) == s,
        first_white(s) is None,
    decreases s.len(),
{
    assert(!white(s[0]) && !white(s[s.len() - 1]));
    tight_text_is_kept(s);
    no_white(s);
}

proof fn no_white(s: Seq<char>)
    requires
        forall|i: int| 0 <= i < s.len() ==> !white(#[trigger] s[i]),
    ensures
        first_white(s) is None,
    decreases s.len(),
{
    if s.len() > 0 {
        let rest = s.drop_first();
        assert forall|i: int| 0 <= i < rest.len() implies !white(#[trigger] rest[i]) by {
            assert(!white(s[i + 1]));
        }
        no_white(rest);
    }
}

proof fn first_blank(word: Seq<char>, rest: Seq<char>)
    requires
        forall|i: int| 0 <= i < word.len() ==> !white(#[trigger] word[i]),
    ensures
        first_white(word + seq![' '] + rest) == Some(word.len() as int),
    decreases word.len(),
{
    let all = word + seq![' '] + rest;
    if word.len() == 0 {
        assert(all[0] == ' ');
    } else {
        let tail = word.drop_first();
        assert forall|i: int| 0 <= i < tail.len() implies !white(#[trigger] tail[i]) by {
            assert(!white(word[i + 1]));
        }
        assert(all[0] == word[0]);
        assert(all.drop_first() =~= tail + seq![' '] + rest);
        first_blank(tail, rest);
    }
}

/// An action line is the action.
pub proof fn actions_read_what_is_written(a: ActionView)
    ensures
        ({
            let text = action_text(a);
            &&& line_of(text) == LineView::Content(text)
            &&& action_of(text) == Ok::<ActionView, Seq<char>>(a)
            &&& one_line(text)
        }),
{
    let text = action_text(a);
    reveal_strlit("log");
    reveal_strlit("kill");
    reveal_strlit("alert");
    reveal_strlit("killProcess");
    reveal_strlit("kill_process");
    match a {
        ActionView::Alert(t) => {
            let word = "alert"@;
            let lit = seq!['"'] + escaped(t) + seq!['"'];
            let none = Seq::<char>::empty();
            strings_fit(t);
            plain_text_fits(word + seq![' ']);
            fitting_texts_join(word + seq![' '], lit);
            assert(text[0] == 'a' && text[text.len() - 1] == '"');
            other_lines_are_content(text);
            tight_text_is_kept(text);
            first_blank(word, lit);
            assert(text.take(5) =~= word);
            assert(text.skip(6) =~= lit);
            assert(lit[0] == '"' && lit[lit.len() - 1] == '"');
            tight_text_is_kept(lit);
            literal_reads_what_is_written(t, none);
            assert(seq!['"'] + escaped(t) + seq!['"'] + none =~= lit);
            assert("log"@[0] == 'l' && word[0] == 'a');
        },
        _ => {
            plain_text_fits(text);
            single_word(text);
            other_lines_are_content(text);
            assert("log"@[0] == 'l' && "alert"@[0] == 'a' && "kill"@[0] == 'k');
        },
    }
}

/// The other names of the kill action mean the same; an unknown word is refused.
pub proof fn kill_has_three_names(word: Seq<char>)
    requires
        word.len() > 0,
        forall|i: int| 0 <= i < word.len() ==> !white(#[trigger] word[i]),
    ensures
        word == "kill"@ || word == "killProcess"@ || word == "kill_process"@ ==> action_of(word)
            == Ok::<ActionView, Seq<char>>(ActionView::KillProcess),
        word != "kill"@ && word != "killProcess"@ && word != "kill_process"@ && word != "log"@
            && word != "alert"@ ==> action_of(word) == Err::<ActionView, Seq<char>>(
            "unknown action '"@ + word + "'"@,
        ),
{
    single_word(word);
    reveal_strlit("log");
    reveal_strlit("alert");
    reveal_strlit("kill");
    reveal_strlit("killProcess");
    reveal_strlit("kill_process");
    assert("log"@[0] == 'l' && "alert"@[0] == 'a' && "kill"@[0] == 'k');
    assert("killProcess"@[0] == 'k' && "kill_process"@[0] == 'k');
}

proof fn ms_is_read_back(d: Duration)
    requires
        whole_ms(d),
    ensures
        ({
            let text = ms_text(d);
            &&& duration_of(text) == Some(d)
            &&& fits(text)
            &&& text.len() > 0
            &&& digit(text[0])
            &&& text[text.len() - 1] == 's'
        }),
{
    let n = (d.nanos / 1_000_000) as u64;
    duration_reads_what_is_written(n);
    numbers_fit(n as nat);
    reveal_strlit("ms");
    plain_text_fits("ms"@);
    fitting_texts_join(decimal(n as nat), "ms"@);
    assert(millis(n as nat).nanos == d.nanos);
    let text = ms_text(d);
    assert(text[0] == decimal(n as nat)[0]);
    assert("ms"@[1] == 's');
}

proof fn throttle_text_is_read(t: Throttle)
    requires
        t.max > 0,
        t.per.nanos > 0,
        whole_ms(t.per),
    ensures
        throttle_of(throttle_text(t)) == Some(t),
{
    let n = (t.per.nanos / 1_000_000) as u64;
    throttle_reads_what_is_written(t.max, n);
    assert(millis(n as nat).nanos == t.per.nanos) by {
        duration_reads_what_is_written(n);
    }
}

proof fn throttle_text_fits(t: Throttle)
    requires
        whole_ms(t.per),
    ensures
        ({
            let text = throttle_text(t);
            &&& fits(text)
            &&& text.len() > 0
            &&& digit(text[0])
            &&& text[text.len() - 1] == 's'
        }),
{
    ms_is_read_back(t.per);
    numbers_fit(t.max as nat);
    assert("/"@ =~= seq!['/']) by {
        reveal_strlit("/");
    }
    plain_text_fits("/"@);
    fitting_texts_join(decimal(t.max as nat), "/"@);
    fitting_texts_join(decimal(t.max as nat) + "/"@, ms_text(t.per));
    let text = throttle_text(t);
    assert(text[0] == decimal(t.max as nat)[0]);
    assert(text[text.len() - 1] == ms_text(t.per)[ms_text(t.per).len() - 1]);
}

proof fn throttle_is_read_back(t: Throttle)
    requires
        t.max > 0,
        t.per.nanos > 0,
        whole_ms(t.per),
    ensures
        ({
            let text = throttle_text(t);
            &&& throttle_of(text) == Some(t)
            &&& fits(text)
            &&& text.len() > 0
            &&& digit(text[0])
            &&& text[text.len() - 1] == 's'
        }),
{
    throttle_text_is_read(t);
    throttle_text_fits(t);
}

// ---------------------------------------------------------------------
// Lines one after the other
// ---------------------------------------------------------------------

/// The document after some lines, where they are right and include no file.
spec fn steps(doc: DocView, ls: Seq<Seq<char>>, floats: FloatsView) -> Option<DocView>
    decreases ls.len(),
{
    if ls.len() == 0 {
        Some(doc)
    } else {
        match steps(doc, ls.drop_last(), floats) {
            None => None,
            Some(d) => if line_of(ls.last()) is Include {
                None
            } else {
                match d.after_line(0, line_of(ls.last()), floats) {
                    Ok(next) => Some(next),
                    Err(_) => None,
                }
            },
        }
    }
}

proof fn steps_join(doc: DocView, a: Seq<Seq<char>>, b: Seq<Seq<char>>, floats: FloatsView)
    requires
        steps(doc, a, floats) is Some,
    ensures
        steps(doc, a + b, floats) == steps(steps(doc, a, floats)->0, b, floats),
    decreases b.len(),
{
    if b.len() == 0 {
        assert(a + b =~= a);
    } else {
        steps_join(doc, a, b.drop_last(), floats);
        assert((a + b).drop_last() =~= a + b.drop_last());
    }
}

proof fn one_step(doc: DocView, line: Seq<char>, floats: FloatsView)
    ensures
        steps(doc, seq![line], floats) == if line_of(line) is Include {
            None
        } else {
            match doc.after_line(0, line_of(line), floats) {
                Ok(next) => Some(next),
                Err(_) => None,
            }
        },
{
    assert(seq![line].drop_last() =~= Seq::empty());
    assert(steps(doc, Seq::empty(), floats) == Some(doc));
}

/// A right line is right wherever it stands.
proof fn numbers_only_matter_in_messages(doc: DocView, n: nat, line: LineView, floats: FloatsView)
    ensures
        doc.after_line(0, line, floats) is Ok ==> doc.after_line(n, line, floats)
            == doc.after_line(0, line, floats),
{
}

proof fn reading_is_stepping(w: World, ls: Seq<Seq<char>>, n: int, stack: Paths, done: Paths)
    requires
        0 <= n <= ls.len(),
        steps(DocView::empty(), ls.take(n), w.floats) is Some,
    ensures
        doc_after(w, None, ls, 0, DocView::empty(), stack, done) == doc_after(
            w,
            None,
            ls,
            n,
            steps(DocView::empty(), ls.take(n), w.floats)->0,
            stack,
            done,
        ),
    decreases n,
{
    if n > 0 {
        assert(ls.take(n).drop_last() =~= ls.take(n - 1));
        assert(ls.take(n).last() == ls[n - 1]);
        reading_is_stepping(w, ls, n - 1, stack, done);
        let before = steps(DocView::empty(), ls.take(n - 1), w.floats)->0;
        numbers_only_matter_in_messages(before, n as nat, line_of(ls[n - 1]), w.floats);
    }
}

// ---------------------------------------------------------------------
// Groups
// ---------------------------------------------------------------------

/// The Detection group of a rule.
spec fn group_of(r: RuleView) -> GroupView {
    GroupView {
        name: r.name,
        window: Some(r.window),
        throttle: r.throttle,
        conditions: r.conditions,
    }
}

/// The Action group of a rule.
spec fn list_of(r: RuleView) -> ListView {
    ListView { name: r.name, actions: r.actions }
}

spec fn group_list(rules: Seq<RuleView>) -> Seq<GroupView> {
    rules.map_values(|r: RuleView| group_of(r))
}

spec fn action_list(rules: Seq<RuleView>) -> Seq<ListView> {
    rules.map_values(|r: RuleView| list_of(r))
}

proof fn conditions_are_added(
    doc: DocView,
    cs: Seq<CondView>,
    sp: Spelling,
    floats: FloatsView,
)
    requires
        doc.detecting(),
        doc.groups.len() > 0,
        forall|i: int|
            0 <= i < cs.len() ==> spellable(#[trigger] cs[i], sp.shown, sp.float, floats),
    ensures
        steps(doc, cs.map_values(|c: CondView| condition_text(c, sp)), floats) == Some(
            doc.with_group(
                GroupView {
                    conditions: doc.groups.last().conditions + cs,
                    ..doc.groups.last()
                },
            ),
        ),
    decreases cs.len(),
{
    let texts = cs.map_values(|c: CondView| condition_text(c, sp));
    let last = doc.groups.last();
    if cs.len() == 0 {
        assert(last.conditions + cs =~= last.conditions);
        assert(doc.groups.drop_last().push(last) =~= doc.groups);
    } else {
        let rest = cs.drop_last();
        conditions_are_added(doc, rest, sp, floats);
        assert(texts.drop_last() =~= rest.map_values(|c: CondView| condition_text(c, sp)));
        let c = cs[cs.len() - 1];
        assert(spellable(c, sp.shown, sp.float, floats));
        condition_line(c, sp, floats);
        assert(texts.last() == condition_text(c, sp));
        let mid = doc.with_group(GroupView { conditions: last.conditions + rest, ..last });
        let group = GroupView { conditions: last.conditions + cs, ..last };
        assert((last.conditions + rest).push(c) =~= last.conditions + cs);
        assert(mid.groups.drop_last().push(group) =~= doc.groups.drop_last().push(group));
    }
}

proof fn actions_are_added(doc: DocView, actions: Seq<ActionView>, floats: FloatsView)
    requires
        doc.open,
        doc.section == Section::Action,
        doc.lists.len() > 0,
    ensures
        steps(doc, actions.map_values(|a: ActionView| action_text(a)), floats) == Some(
            DocView {
                lists: doc.lists.drop_last().push(
                    ListView { actions: doc.lists.last().actions + actions, ..doc.lists.last() },
                ),
                ..doc
            },
        ),
    decreases actions.len(),
{
    let texts = actions.map_values(|a: ActionView| action_text(a));
    let last = doc.lists.last();
    if actions.len() == 0 {
        assert(last.actions + actions =~= last.actions);
        assert(doc.lists.drop_last().push(last) =~= doc.lists);
    } else {
        let rest = actions.drop_last();
        actions_are_added(doc, rest, floats);
        assert(texts.drop_last() =~= rest.map_values(|a: ActionView| action_text(a)));
        let a = actions[actions.len() - 1];
        actions_read_what_is_written(a);
        assert(texts.last() == action_text(a));
        let list = ListView { actions: last.actions + actions, ..last };
        let before = ListView { actions: last.actions + rest, ..last };
        assert((last.actions + rest).push(a) =~= last.actions + actions);
        assert(doc.lists.drop_last().push(before).drop_last().push(list)
            =~= doc.lists.drop_last().push(list));
    }
}

proof fn name_line_is_read(doc: DocView, name: Seq<char>, floats: FloatsView)
    requires
        doc.section == Section::Detection,
        !has_group(doc.groups, name),
        name.len() > 0,
        forall|i: int| 0 <= i < name.len() ==> ident_char(#[trigger] name[i]),
        lowered(name) != "detection"@,
        lowered(name) != "action"@,
    ensures
        steps(doc, seq![name + seq![':']], floats) == Some(
            DocView {
                open: true,
                groups: doc.groups.push(
                    GroupView { name, window: None, throttle: None, conditions: Seq::empty() },
                ),
                ..doc
            },
        ),
{
    headers_are_names_with_a_colon(name);
    one_step(doc, name + seq![':'], floats);
}

proof fn window_line_is_read(doc: DocView, d: Duration, floats: FloatsView)
    requires
        doc.detecting(),
        whole_ms(d),
    ensures
        steps(doc, seq!["window"@ + seq![':', ' '] + ms_text(d)], floats) == Some(
            doc.with_group(GroupView { window: Some(d), ..doc.groups.last() }),
        ),
{
    ms_is_read_back(d);
    directives_are_keywords(ms_text(d));
    one_step(doc, "window"@ + seq![':', ' '] + ms_text(d), floats);
}

/// The line of a throttle, where there is one.
spec fn throttle_lines(throttle: Option<Throttle>) -> Seq<Seq<char>> {
    match throttle {
        Some(t) => seq!["throttle"@ + seq![':', ' '] + throttle_text(t)],
        None => Seq::empty(),
    }
}

proof fn throttle_line_is_read(doc: DocView, throttle: Option<Throttle>, floats: FloatsView)
    requires
        doc.detecting(),
        doc.groups.len() > 0,
        doc.groups.last().throttle is None,
        throttle matches Some(t) ==> t.max > 0 && t.per.nanos > 0 && whole_ms(t.per),
    ensures
        steps(doc, throttle_lines(throttle), floats) == Some(
            doc.with_group(GroupView { throttle, ..doc.groups.last() }),
        ),
{
    match throttle {
        Some(t) => {
            throttle_is_read_back(t);
            directives_are_keywords(throttle_text(t));
            one_step(doc, "throttle"@ + seq![':', ' '] + throttle_text(t), floats);
        },
        None => {
            assert(doc.groups.drop_last().push(doc.groups.last()) =~= doc.groups);
        },
    }
}

proof fn detection_group_is_read(doc: DocView, r: RuleView, sp: Spelling, floats: FloatsView)
    requires
        doc.section == Section::Detection,
        !has_group(doc.groups, r.name),
        rule_can_be_written(r, sp, floats),
    ensures
        steps(doc, detection_lines(r, sp), floats) == Some(
            DocView { open: true, groups: doc.groups.push(group_of(r)), ..doc },
        ),
{
    let name_line = r.name + seq![':'];
    let window_line = "window"@ + seq![':', ' '] + ms_text(r.window);
    let texts = r.conditions.map_values(|c: CondView| condition_text(c, sp));
    let (g0, g1) = (
        GroupView { name: r.name, window: None, throttle: None, conditions: Seq::empty() },
        GroupView {
            name: r.name,
            window: Some(r.window),
            throttle: None,
            conditions: Seq::empty(),
        },
    );
    let g2 = GroupView { throttle: r.throttle, ..g1 };
    let d0 = DocView { open: true, groups: doc.groups.push(g0), ..doc };
    let d1 = DocView { open: true, groups: doc.groups.push(g1), ..doc };
    let d2 = DocView { open: true, groups: doc.groups.push(g2), ..doc };
    name_line_is_read(doc, r.name, floats);
    window_line_is_read(d0, r.window, floats);
    assert(d0.groups.drop_last() =~= doc.groups);
    steps_join(doc, seq![name_line], seq![window_line], floats);
    let head = seq![name_line, window_line];
    assert(head =~= seq![name_line] + seq![window_line]);
    throttle_line_is_read(d1, r.throttle, floats);
    assert(d1.groups.drop_last() =~= doc.groups);
    steps_join(doc, head, throttle_lines(r.throttle), floats);
    conditions_are_added(d2, r.conditions, sp, floats);
    assert(d2.groups.drop_last() =~= doc.groups);
    assert(Seq::<CondView>::empty() + r.conditions =~= r.conditions);
    steps_join(doc, head + throttle_lines(r.throttle), texts, floats);
    assert(detection_lines(r, sp) == head + throttle_lines(r.throttle) + texts);
}

proof fn action_group_is_read(doc: DocView, r: RuleView, sp: Spelling, floats: FloatsView)
    requires
        doc.section == Section::Action,
        !has_list(doc.lists, r.name),
        rule_can_be_written(r, sp, floats),
    ensures
        steps(doc, action_lines(r), floats) == Some(
            DocView { open: true, lists: doc.lists.push(list_of(r)), ..doc },
        ),
{
    let name_line = r.name + seq![':'];
    let texts = r.actions.map_values(|a: ActionView| action_text(a));
    headers_are_names_with_a_colon(r.name);
    let l0 = ListView { name: r.name, actions: Seq::empty() };
    let d0 = DocView { open: true, lists: doc.lists.push(l0), ..doc };
    one_step(doc, name_line, floats);
    actions_are_added(d0, r.actions, floats);
    assert(Seq::<ActionView>::empty() + r.actions =~= r.actions);
    assert(d0.lists.drop_last().push(list_of(r)) =~= doc.lists.push(list_of(r)));
    steps_join(doc, seq![name_line], texts, floats);
}

proof fn all_detection_groups_are_read(
    doc: DocView,
    rules: Seq<RuleView>,
    sp: Spelling,
    floats: FloatsView,
)
    requires
        rules_can_be_written(rules, sp, floats),
        doc.section == Section::Detection,
        doc.groups.len() == 0,
    ensures
        steps(doc, all_detection_lines(rules, sp), floats) == Some(
            DocView { open: doc.open || rules.len() > 0, groups: group_list(rules), ..doc },
        ),
    decreases rules.len(),
{
    if rules.len() == 0 {
        assert(group_list(rules) =~= doc.groups);
    } else {
        let rest = rules.drop_last();
        let r = rules[rules.len() - 1];
        parts_can_be_written(rules, sp, floats);
        all_detection_groups_are_read(doc, rest, sp, floats);
        let mid = steps(doc, all_detection_lines(rest, sp), floats)->0;
        assert(!has_group(mid.groups, r.name)) by {
            if has_group(mid.groups, r.name) {
                let i = choose|i: int|
                    0 <= i < mid.groups.len() && (#[trigger] mid.groups[i]).name == r.name;
                assert(rules[i].name != rules[rules.len() - 1].name);
            }
        }
        detection_group_is_read(mid, r, sp, floats);
        steps_join(doc, all_detection_lines(rest, sp), detection_lines(r, sp), floats);
        assert(group_list(rest).push(group_of(r)) =~= group_list(rules));
    }
}

proof fn all_action_groups_are_read(
    doc: DocView,
    rules: Seq<RuleView>,
    sp: Spelling,
    floats: FloatsView,
)
    requires
        rules_can_be_written(rules, sp, floats),
        doc.section == Section::Action,
        doc.lists.len() == 0,
    ensures
        steps(doc, all_action_lines(rules), floats) == Some(
            DocView { open: doc.open || rules.len() > 0, lists: action_list(rules), ..doc },
        ),
    decreases rules.len(),
{
    if rules.len() == 0 {
        assert(action_list(rules) =~= doc.lists);
    } else {
        let rest = rules.drop_last();
        let r = rules[rules.len() - 1];
        parts_can_be_written(rules, sp, floats);
        all_action_groups_are_read(doc, rest, sp, floats);
        let mid = steps(doc, all_action_lines(rest), floats)->0;
        assert(!has_list(mid.lists, r.name)) by {
            if has_list(mid.lists, r.name) {
                let i = choose|i: int|
                    0 <= i < mid.lists.len() && (#[trigger] mid.lists[i]).name == r.name;
                assert(rules[i].name != rules[rules.len() - 1].name);
            }
        }
        action_group_is_read(mid, r, sp, floats);
        steps_join(doc, all_action_lines(rest), action_lines(r), floats);
        assert(action_list(rest).push(list_of(r)) =~= action_list(rules));
    }
}

proof fn parts_can_be_written(rules: Seq<RuleView>, sp: Spelling, floats: FloatsView)
    requires
        rules.len() > 0,
        rules_can_be_written(rules, sp, floats),
    ensures
        rules_can_be_written(rules.drop_last(), sp, floats),
        rule_can_be_written(rules[rules.len() - 1], sp, floats),
{
    let rest = rules.drop_last();
    assert forall|i: int| 0 <= i < rest.len() implies rest[i] == rules[i] by {}
    assert forall|i: int| 0 <= i < rest.len() implies rule_can_be_written(
        #[trigger] rest[i],
        sp,
        floats,
    ) by {
        assert(rule_can_be_written(rules[i], sp, floats));
    }
    assert forall|i: int, j: int| 0 <= i < j < rest.len() implies (#[trigger] rest[i]).name != (
    #[trigger] rest[j]).name by {
        assert(rules[i].name != rules[j].name);
    }
}

/// Where names differ, an Action group is found by its name.
proof fn actions_are_found(rules: Seq<RuleView>, i: int)
    requires
        names_differ(rules),
        0 <= i < rules.len(),
    ensures
        actions_for(action_list(rules), rules[i].name) == rules[i].actions,
    decreases rules.len(),
{
    let lists = action_list(rules);
    assert(lists[0] == list_of(rules[0]));
    if i > 0 {
        let rest = rules.drop_first();
        assert(rules[0].name != rules[i].name);
        assert forall|a: int, b: int| 0 <= a < b < rest.len() implies (#[trigger] rest[a]).name != (
        #[trigger] rest[b]).name by {
            assert(rules[a + 1].name != rules[b + 1].name);
        }
        actions_are_found(rest, i - 1);
        assert(lists.drop_first() =~= action_list(rest));
        assert(rest[i - 1] == rules[i]);
    }
}

// ---------------------------------------------------------------------
// The text
// ---------------------------------------------------------------------

proof fn lines_of_text(ls: Seq<Seq<char>>)
    requires
        forall|i: int| 0 <= i < ls.len() ==> one_line(#[trigger] ls[i]),
    ensures
        lines(text_of(ls)) == ls,
    decreases ls.len(),
{
    if ls.len() == 0 {
        line_breaks_end_lines(Seq::empty(), Seq::empty());
        assert(lines(text_of(ls)) =~= ls);
    } else {
        let rest = ls.skip(1);
        assert forall|i: int| 0 <= i < rest.len() implies one_line(#[trigger] rest[i]) by {
            assert(one_line(ls[i + 1]));
        }
        lines_of_text(rest);
        assert(one_line(ls[0]));
        line_breaks_end_lines(ls[0], text_of(rest));
        assert(seq![ls[0]] + rest =~= ls);
    }
}

/// Each of the lines is one line.
spec fn each_is_one(ls: Seq<Seq<char>>) -> bool {
    forall|i: int| 0 <= i < ls.len() ==> one_line(#[trigger] ls[i])
}

proof fn each_of_both(a: Seq<Seq<char>>, b: Seq<Seq<char>>)
    requires
        each_is_one(a),
        each_is_one(b),
    ensures
        each_is_one(a + b),
{
    let all = a + b;
    assert forall|i: int| 0 <= i < all.len() implies one_line(#[trigger] all[i]) by {
        if i < a.len() {
            assert(one_line(a[i]));
        } else {
            assert(one_line(b[i - a.len()]));
        }
    }
}

proof fn each_of_one(line: Seq<char>)
    requires
        one_line(line),
    ensures
        each_is_one(seq![line]),
{
}

proof fn header_is_one(name: Seq<char>)
    requires
        forall|i: int| 0 <= i < name.len() ==> ident_char(#[trigger] name[i]),
    ensures
        one_line(name + seq![':']),
{
    let s = name + seq![':'];
    if s.contains('\n') {
        let i = choose|i: int| 0 <= i < s.len() && s[i] == '\n';
        assert(ident_char(name[i]));
    }
}

proof fn directive_is_one(word: Seq<char>, text: Seq<char>)
    requires
        forall|i: int| 0 <= i < word.len() ==> ident_char(#[trigger] word[i]),
        fits(text),
        text.len() > 0,
        text[text.len() - 1] == 's',
    ensures
        one_line(word + seq![':', ' '] + text),
{
    let s = word + seq![':', ' '] + text;
    if s.contains('\n') {
        let i = choose|i: int| 0 <= i < s.len() && s[i] == '\n';
        if i < word.len() {
            assert(ident_char(word[i]));
        } else if i >= word.len() + 2 {
            assert(text[i - word.len() - 2] == '\n');
        }
    }
    assert(s[s.len() - 1] == 's');
}

proof fn rule_lines_are_lines(r: RuleView, sp: Spelling, floats: FloatsView)
    requires
        rule_can_be_written(r, sp, floats),
    ensures
        each_is_one(detection_lines(r, sp)),
        each_is_one(action_lines(r)),
{
    let name_line = r.name + seq![':'];
    let window_line = "window"@ + seq![':', ' '] + ms_text(r.window);
    reveal_strlit("window");
    reveal_strlit("throttle");
    header_is_one(r.name);
    ms_is_read_back(r.window);
    directive_is_one("window"@, ms_text(r.window));
    let head = seq![name_line, window_line];
    assert(each_is_one(head));
    let throttle_lines = match r.throttle {
        Some(t) => seq!["throttle"@ + seq![':', ' '] + throttle_text(t)],
        None => Seq::empty(),
    };
    if let Some(t) = r.throttle {
        throttle_is_read_back(t);
        directive_is_one("throttle"@, throttle_text(t));
        each_of_one("throttle"@ + seq![':', ' '] + throttle_text(t));
    }
    each_of_both(head, throttle_lines);
    let texts = r.conditions.map_values(|c: CondView| condition_text(c, sp));
    assert forall|i: int| 0 <= i < texts.len() implies one_line(#[trigger] texts[i]) by {
        assert(spellable(r.conditions[i], sp.shown, sp.float, floats));
        condition_line(r.conditions[i], sp, floats);
    }
    each_of_both(head + throttle_lines, texts);
    let acts = r.actions.map_values(|a: ActionView| action_text(a));
    assert forall|i: int| 0 <= i < acts.len() implies one_line(#[trigger] acts[i]) by {
        actions_read_what_is_written(r.actions[i]);
    }
    each_of_one(name_line);
    each_of_both(seq![name_line], acts);
}

proof fn all_lines_are_lines(rules: Seq<RuleView>, sp: Spelling, floats: FloatsView)
    requires
        rules_can_be_written(rules, sp, floats),
    ensures
        each_is_one(all_detection_lines(rules, sp)),
        each_is_one(all_action_lines(rules)),
    decreases rules.len(),
{
    if rules.len() > 0 {
        parts_can_be_written(rules, sp, floats);
        all_lines_are_lines(rules.drop_last(), sp, floats);
        rule_lines_are_lines(rules[rules.len() - 1], sp, floats);
        each_of_both(
            all_detection_lines(rules.drop_last(), sp),
            detection_lines(rules.last(), sp),
        );
        each_of_both(all_action_lines(rules.drop_last()), action_lines(rules.last()));
    }
}

proof fn section_headers()
    ensures
        line_of("Detection"@ + seq![':']) == LineView::Section(Section::Detection),
        line_of("Action"@ + seq![':']) == LineView::Section(Section::Action),
        one_line("Detection"@ + seq![':']),
        one_line("Action"@ + seq![':']),
{
    reveal_strlit("Detection");
    reveal_strlit("Action");
    reveal_strlit("detection");
    reveal_strlit("action");
    headers_are_names_with_a_colon("Detection"@);
    headers_are_names_with_a_colon("Action"@);
    header_is_one("Detection"@);
    header_is_one("Action"@);
    assert(lowered("Detection"@) =~= "detection"@);
    assert(lowered("Action"@) =~= "action"@);
    assert("action"@ != "detection"@) by {
        assert("action"@[0] == 'a' && "detection"@[0] == 'd');
    }
}

/// Rules written out as a text are read back as those rules: names, windows,
/// throttles, conditions and actions, in order, whatever the default window.
pub proof fn document_reads_what_is_written(
    rules: Seq<RuleView>,
    sp: Spelling,
    window: Duration,
    floats: FloatsView,
)
    requires
        rules_can_be_written(rules, sp, floats),
    ensures
        source_rules(text_of(document_lines(rules, sp)), window, floats) == Ok::<
            Seq<RuleView>,
            Seq<char>,
        >(rules),
{
    let ls = document_lines(rules, sp);
    let (h1, h2) = (seq!["Detection"@ + seq![':']], seq!["Action"@ + seq![':']]);
    let (b1, b2) = (all_detection_lines(rules, sp), all_action_lines(rules));
    section_headers();
    all_lines_are_lines(rules, sp, floats);
    each_of_one("Detection"@ + seq![':']);
    each_of_one("Action"@ + seq![':']);
    each_of_both(h1, b1);
    each_of_both(h2, b2);
    each_of_both(h1 + b1, h2 + b2);
    lines_of_text(ls);

    let d0 = DocView::empty();
    one_step(d0, "Detection"@ + seq![':'], floats);
    let d1 = DocView { section: Section::Detection, ..d0 };
    assert(steps(d0, h1, floats) == Some(d1));
    all_detection_groups_are_read(d1, rules, sp, floats);
    steps_join(d0, h1, b1, floats);
    let d2 = steps(d0, h1 + b1, floats)->0;
    one_step(d2, "Action"@ + seq![':'], floats);
    let d3 = DocView { section: Section::Action, open: false, ..d2 };
    assert(steps(d2, h2, floats) == Some(d3));
    all_action_groups_are_read(d3, rules, sp, floats);
    steps_join(d2, h2, b2, floats);
    steps_join(d0, h1 + b1, h2 + b2, floats);
    let end = steps(d0, ls, floats)->0;

    let w = World { files: Seq::empty(), floats, window };
    let none: Paths = Set::empty();
    assert(ls.take(ls.len() as int) =~= ls);
    reading_is_stepping(w, ls, ls.len() as int, none, none);
    assert(doc_after(w, None, ls, 0, d0, none, none) == (
        Ok::<DocView, StopView>(end),
        none,
    ));

    groups_make_rules(end.groups, end.lists, window);
    assert forall|i: int| 0 <= i < rules.len() implies actions_for(
        end.lists,
        (#[trigger] end.groups[i]).name,
    ) == rules[i].actions && rules[i].actions.len() > 0 by {
        actions_are_found(rules, i);
        assert(rule_can_be_written(rules[i], sp, floats));
    }
    let own = rules_of(end.groups, end.lists, window)->Ok_0;
    assert forall|i: int| 0 <= i < rules.len() implies own[i] == rules[i] by {
        assert(own[i] == rule_for(end.groups[i], end.lists, window));
        assert(end.groups[i] == group_of(rules[i]));
    }
    assert(own =~= rules);
    assert(own + end.included =~= rules);
    assert(finished(end, window) == Ok::<Seq<RuleView>, Seq<char>>(rules));
}

} // verus!
