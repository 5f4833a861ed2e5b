//! White space, lines and comments: what of a text counts.

use crate::document::{after_keyword, argument, core_of, line_of, LineView, Section};
use crate::lexer::{
    comment_starts_outside_strings, escape, escaped, literal_reads_what_is_written, open_after,
    uncommented,
};
use crate::text::{
    first_index, first_index_finds, ident_char, letter, lines, lowered, starts, trimmed,
    trimmed_end, trimmed_start, white, without_leading, without_trailing,
};
use vstd::prelude::*;

verus! {

// ---------------------------------------------------------------------
// White space
// ---------------------------------------------------------------------

/// Nothing but white space.
pub open spec fn blank(s: Seq<char>) -> bool {
    forall|i: int| 0 <= i < s.len() ==> white(#[trigger] s[i])
}

/// A text that neither starts nor ends with white space.
pub open spec fn tight(s: Seq<char>) -> bool {
    s.len() > 0 ==> !white(s[0]) && !white(s[s.len() - 1])
}

proof fn trimmed_start_of(before: Seq<char>, core: Seq<char>)
    requires
        blank(before),
        core.len() > 0 ==> !white(core[0]),
    ensures
        trimmed_start(before + core) == core,
    decreases before.len(),
{
    let all = before + core;
    if before.len() == 0 {
        assert(all =~= core);
    } else {
        assert(white(before[0]));
        assert(all[0] == before[0]);
        let rest = before.drop_first();
        assert forall|i: int| 0 <= i < rest.len() implies white(#[trigger] rest[i]) by {
            assert(white(before[i + 1]));
        }
        assert(all.drop_first() =~= rest + core);
        trimmed_start_of(rest, core);
    }
}

proof fn trimmed_end_of(core: Seq<char>, after: Seq<char>)
    requires
        blank(after),
        core.len() > 0 ==> !white(core[core.len() - 1]),
    ensures
        trimmed_end(core + after) == core,
    decreases after.len(),
{
    let all = core + after;
    if after.len() == 0 {
        assert(all =~= core);
    } else {
        assert(white(after[after.len() - 1]));
        let rest = after.drop_last();
        assert forall|i: int| 0 <= i < rest.len() implies white(#[trigger] rest[i]) by {
            assert(white(after[i]));
        }
        assert(all.drop_last() =~= core + rest);
        trimmed_end_of(core, rest);
    }
}

/// Trimming takes the white space at the two ends, all of it, and nothing else.
pub proof fn trimming_takes_white_ends(before: Seq<char>, core: Seq<char>, after: Seq<char>)
    requires
        blank(before),
        blank(after),
        tight(core),
    ensures
        trimmed(before + core + after) == core,
{
    let all = before + core + after;
    assert(all =~= before + (core + after));
    if core.len() == 0 {
        let white_all = before + after;
        assert(all =~= white_all + core);
        assert forall|i: int| 0 <= i < white_all.len() implies white(#[trigger] white_all[i]) by {
            if i < before.len() {
                assert(white(before[i]));
            } else {
                assert(white(after[i - before.len()]));
            }
        }
        trimmed_start_of(white_all, core);
        assert(trimmed_end(core) == core);
    } else {
        assert((core + after)[0] == core[0]);
        trimmed_start_of(before, core + after);
        trimmed_end_of(core, after);
    }
}

/// A text without white space at its ends is left as it is.
pub proof fn tight_text_is_kept(core: Seq<char>)
    requires
        tight(core),
    ensures
        trimmed(core) == core,
{
    let none = Seq::<char>::empty();
    trimming_takes_white_ends(none, core, none);
    assert(none + core + none =~= core);
}

// ---------------------------------------------------------------------
// Lines
// ---------------------------------------------------------------------

/// A text without a line break in it, and without a carriage return at its end.
pub open spec fn one_line(s: Seq<char>) -> bool {
    !s.contains('\n') && (s.len() > 0 ==> s[s.len() - 1] != '\r')
}

/// A line break ends a line, alone or after a carriage return; what follows it are
/// the further lines.
pub proof fn line_breaks_end_lines(line: Seq<char>, rest: Seq<char>)
    requires
        one_line(line),
    ensures
        lines(line + seq!['\n'] + rest) == seq![line] + lines(rest),
        lines(line + seq!['\r', '\n'] + rest) == seq![line] + lines(rest),
        line.len() > 0 ==> lines(line) == seq![line],
        lines(Seq::empty()).len() == 0,
{
    first_break(line, rest);
    let n = line.len() as int;
    let all = line + seq!['\n'] + rest;
    assert(all.take(n) =~= line);
    assert(all.skip(n + 1) =~= rest);
    let with = line + seq!['\r'];
    assert(!with.contains('\n')) by {
        if with.contains('\n') {
            let i = choose|i: int| 0 <= i < with.len() && with[i] == '\n';
            assert(line[i] == '\n');
        }
    }
    first_break(with, rest);
    let all = line + seq!['\r', '\n'] + rest;
    assert(all =~= with + seq!['\n'] + rest);
    assert(all.take(n + 1) =~= with);
    assert(with.drop_last() =~= line);
    assert(all.skip(n + 2) =~= rest);
    if n > 0 {
        first_index_finds(line, '\n');
    }
}

proof fn first_break(line: Seq<char>, rest: Seq<char>)
    requires
        !line.contains('\n'),
    ensures
        first_index(line + seq!['\n'] + rest, '\n') == Some(line.len() as int),
{
    let all = line + seq!['\n'] + rest;
    let n = line.len() as int;
    assert(all[n] == '\n');
    first_index_finds(all, '\n');
    let i = first_index(all, '\n')->0;
    if i < n {
        assert(line[i] == '\n');
    }
    if i > n {
        assert(all.take(i)[n] == '\n');
    }
}

// ---------------------------------------------------------------------
// Comments
// ---------------------------------------------------------------------

/// A text with no comment in it and no string left open.
pub open spec fn complete(s: Seq<char>) -> bool {
    uncommented(s, false) == s && open_after(s, false) == Some(false)
}

proof fn open_goes_on(s: Seq<char>, in_string: bool, rest: Seq<char>)
    ensures
        open_after(s, in_string) matches Some(open) ==> open_after(s + rest, in_string)
            == open_after(rest, open),
    decreases s.len(),
{
    let all = s + rest;
    if s.len() == 0 {
        assert(all =~= rest);
    } else {
        assert(all[0] == s[0]);
        if in_string && s[0] == '\\' {
            if s.len() >= 2 {
                assert(all.skip(2) =~= s.skip(2) + rest);
                open_goes_on(s.skip(2), true, rest);
            }
        } else {
            assert(all.skip(1) =~= s.skip(1) + rest);
            let open = if s[0] == '"' {
                !in_string
            } else {
                in_string
            };
            open_goes_on(s.skip(1), open, rest);
        }
    }
}

/// Complete texts one after the other are complete.
pub proof fn complete_texts_join(a: Seq<char>, b: Seq<char>)
    requires
        complete(a),
        complete(b),
    ensures
        complete(a + b),
{
    comment_starts_outside_strings(a, false, b);
    open_goes_on(a, false, b);
}

/// A text without a quote and without a `#` is complete.
pub proof fn plain_text_is_complete(s: Seq<char>)
    requires
        forall|i: int| 0 <= i < s.len() ==> #[trigger] s[i] != '"' && s[i] != '#',
    ensures
        complete(s),
    decreases s.len(),
{
    if s.len() > 0 {
        let rest = s.skip(1);
        assert forall|i: int| 0 <= i < rest.len() implies #[trigger] rest[i] != '"' && rest[i]
            != '#' by {
            assert(s[i + 1] != '"' && s[i + 1] != '#');
        }
        plain_text_is_complete(rest);
        assert(s[0] != '"' && s[0] != '#');
        assert(s.take(1) + rest =~= s);
    }
}

/// A string literal is complete, whatever is in it.
pub proof fn strings_are_complete(s: Seq<char>)
    ensures
        complete(seq!['"'] + escaped(s) + seq!['"']),
{
    let body = escaped(s) + seq!['"'];
    let all = seq!['"'] + escaped(s) + seq!['"'];
    string_body_is_complete(s);
    assert(all[0] == '"');
    assert(all.skip(1) =~= body);
    assert(all.take(1) + body =~= all);
}

proof fn string_body_is_complete(s: Seq<char>)
    ensures
        uncommented(escaped(s) + seq!['"'], true) == escaped(s) + seq!['"'],
        open_after(escaped(s) + seq!['"'], true) == Some(false),
    decreases s.len(),
{
    let all = escaped(s) + seq!['"'];
    if s.len() == 0 {
        assert(all =~= seq!['"']);
        assert(all.skip(1) =~= Seq::empty());
        assert(all.take(1) + Seq::<char>::empty() =~= all);
        assert(uncommented(Seq::empty(), false) == Seq::<char>::empty());
        assert(open_after(Seq::empty(), false) == Some(false));
    } else {
        let rest = escaped(s.skip(1)) + seq!['"'];
        string_body_is_complete(s.skip(1));
        assert(all =~= escape(s[0]) + rest);
        let k = escape(s[0]).len() as int;
        assert(all[0] == escape(s[0])[0]);
        assert(all.skip(k) =~= rest);
        assert(all.take(k) + rest =~= all);
    }
}

// ---------------------------------------------------------------------
// What a line is
// ---------------------------------------------------------------------

/// A line with white space, and perhaps a dash, before its text, and white space
/// and a comment after it, is what the text is alone.
pub proof fn dressing_means_nothing(
    indent: Seq<char>,
    dash: bool,
    gap: Seq<char>,
    core: Seq<char>,
    after: Seq<char>,
    comment: Seq<char>,
)
    requires
        blank(indent),
        blank(gap),
        blank(after),
        complete(core),
        tight(core),
        core.len() > 0,
        core[0] != '-',
    ensures
        ({
            let lead = if dash {
                indent + seq!['-'] + gap
            } else {
                indent
            };
            &&& core_of(lead + core + after) == core
            &&& core_of(lead + core + after + (seq!['#'] + comment)) == core
            &&& line_of(lead + core + after + (seq!['#'] + comment)) == line_of(core)
        }),
{
    let lead = if dash {
        indent + seq!['-'] + gap
    } else {
        indent
    };
    let raw = lead + core + after;
    assert forall|i: int| 0 <= i < lead.len() implies #[trigger] lead[i] != '"' && lead[i]
        != '#' by {
        if i < indent.len() {
            assert(white(indent[i]));
        } else if i > indent.len() {
            assert(white(gap[i - indent.len() - 1]));
        }
    }
    assert forall|i: int| 0 <= i < after.len() implies #[trigger] after[i] != '"' && after[i]
        != '#' by {
        assert(white(after[i]));
    }
    plain_text_is_complete(lead);
    plain_text_is_complete(after);
    complete_texts_join(lead, core);
    complete_texts_join(lead + core, after);
    comment_starts_outside_strings(raw, false, comment);
    let none = Seq::<char>::empty();
    if dash {
        let line = seq!['-'] + gap + core;
        assert(raw =~= indent + line + after);
        assert(line[0] == '-' && line[line.len() - 1] == core[core.len() - 1]);
        trimming_takes_white_ends(indent, line, after);
        assert(line.skip(1) =~= gap + core + none);
        trimming_takes_white_ends(gap, core, none);
    } else {
        trimming_takes_white_ends(indent, core, after);
    }
    tight_text_is_kept(core);
    assert(core_of(core) == core);
}

/// A name with a colon behind it is the header of a group, unless the name is that
/// of a section, in capitals or not; then it is the header of the section.
pub proof fn headers_are_names_with_a_colon(name: Seq<char>)
    requires
        name.len() > 0,
        forall|i: int| 0 <= i < name.len() ==> ident_char(#[trigger] name[i]),
    ensures
        line_of(name + seq![':']) == if lowered(name) == "detection"@ {
            LineView::Section(Section::Detection)
        } else if lowered(name) == "action"@ {
            LineView::Section(Section::Action)
        } else {
            LineView::Group(name)
        },
{
    let core = name + seq![':'];
    assert(ident_char(name[0]) && ident_char(name[name.len() - 1]));
    assert(core[0] == name[0]);
    assert forall|i: int| 0 <= i < core.len() implies #[trigger] core[i] != '"' && core[i]
        != '#' by {
        if i < name.len() {
            assert(ident_char(name[i]));
        }
    }
    plain_text_is_complete(core);
    tight_text_is_kept(core);
    assert(core_of(core) == core);
    assert(core.drop_last() =~= name);
    assert(without_trailing(name, ':') == name);
    assert(without_trailing(core, ':') == name);
    tight_text_is_kept(name);
}

/// A directive is given what stands behind its colon.
proof fn directive_argument(word: Seq<char>, text: Seq<char>)
    requires
        tight(text),
        text.len() > 0,
        text[0] != ':',
    ensures
        after_keyword(word + seq![':', ' '] + text, word) == Some(seq![':', ' '] + text),
        argument(seq![':', ' '] + text) == text,
{
    let all = word + seq![':', ' '] + text;
    assert(all.take(word.len() as int) =~= word);
    let rest = all.skip(word.len() as int);
    assert(rest =~= seq![':', ' '] + text);
    assert(rest[0] == ':');
    let behind = seq![' '] + text;
    assert(rest.drop_first() =~= behind);
    assert(behind[0] == ' ');
    assert(without_leading(behind, ':') == behind);
    assert(without_leading(rest, ':') == behind);
    let none = Seq::<char>::empty();
    assert(behind =~= seq![' '] + text + none);
    trimming_takes_white_ends(seq![' '], text, none);
}

/// `window: ` and `throttle: ` before a text make the directive with that text.
pub proof fn directives_are_keywords(text: Seq<char>)
    requires
        tight(text),
        text.len() > 0,
        text[0] != ':',
        text[text.len() - 1] != ':',
        complete(text),
    ensures
        line_of("window"@ + seq![':', ' '] + text) == LineView::Window(text),
        line_of("throttle"@ + seq![':', ' '] + text) == LineView::Throttle(text),
{
    reveal_strlit("window");
    reveal_strlit("throttle");
    keyword_line("window"@, text);
    keyword_line("throttle"@, text);
    directive_argument("window"@, text);
    directive_argument("throttle"@, text);
    let t = "throttle"@ + seq![':', ' '] + text;
    assert(t[0] == 't');
    assert(!starts(t, "window"@)) by {
        if starts(t, "window"@) {
            assert(t.take("window"@.len() as int)[0] == t[0]);
            assert("window"@[0] == 'w');
        }
    }
}

proof fn keyword_line(word: Seq<char>, text: Seq<char>)
    requires
        word.len() > 0,
        forall|i: int| 0 <= i < word.len() ==> letter(#[trigger] word[i]),
        tight(text),
        text.len() > 0,
        text[text.len() - 1] != ':',
        complete(text),
    ensures
        core_of(word + seq![':', ' '] + text) == word + seq![':', ' '] + text,
        (word + seq![':', ' '] + text).last() != ':',
{
    let head = word + seq![':', ' '];
    let all = head + text;
    assert forall|i: int| 0 <= i < head.len() implies #[trigger] head[i] != '"' && head[i]
        != '#' by {
        if i < word.len() {
            assert(letter(word[i]));
        }
    }
    plain_text_is_complete(head);
    complete_texts_join(head, text);
    assert(letter(word[0]));
    assert(all[0] == word[0]);
    tight_text_is_kept(all);
}

/// `include` before a string makes a reference to the file that the string names.
pub proof fn includes_name_a_file(path: Seq<char>)
    ensures
        line_of("include"@ + seq![' '] + (seq!['"'] + escaped(path) + seq!['"']))
            == LineView::Include(Some(path)),
{
    reveal_strlit("include");
    reveal_strlit("window");
    reveal_strlit("throttle");
    let word = "include"@;
    let text = seq!['"'] + escaped(path) + seq!['"'];
    let head = word + seq![' '];
    let all = head + text;
    strings_are_complete(path);
    assert forall|i: int| 0 <= i < head.len() implies #[trigger] head[i] != '"' && head[i]
        != '#' by {
        if i < word.len() {
            assert(head[i] == word[i]);
        }
    }
    plain_text_is_complete(head);
    complete_texts_join(head, text);
    assert(all[0] == 'i');
    assert(all[all.len() - 1] == '"');
    tight_text_is_kept(all);
    assert(core_of(all) == all);
    assert(all.take(word.len() as int) =~= word);
    let rest = all.skip(word.len() as int);
    assert(rest =~= seq![' '] + text);
    assert(rest[0] == ' ');
    let none = Seq::<char>::empty();
    assert(rest =~= seq![' '] + text + none);
    assert(text[0] == '"' && text[text.len() - 1] == '"');
    trimming_takes_white_ends(seq![' '], text, none);
    literal_reads_what_is_written(path, none);
    assert(seq!['"'] + escaped(path) + seq!['"'] + none =~= text);
    assert(!starts(all, "window"@)) by {
        if starts(all, "window"@) {
            assert(all.take("window"@.len() as int)[0] == all[0]);
            assert("window"@[0] == 'w');
        }
    }
    assert(!starts(all, "throttle"@)) by {
        if starts(all, "throttle"@) {
            assert(all.take("throttle"@.len() as int)[0] == all[0]);
            assert("throttle"@[0] == 't');
        }
    }
}

/// A line that starts with none of the letters of the keywords, and ends with no
/// colon, is a condition or an action.
pub proof fn other_lines_are_content(core: Seq<char>)
    requires
        complete(core),
        tight(core),
        core.len() > 0,
        core[0] != '-',
        core[0] != 'w',
        core[0] != 't',
        core[0] != 'i',
        core[core.len() - 1] != ':',
    ensures
        line_of(core) == LineView::Content(core),
{
    reveal_strlit("window");
    reveal_strlit("throttle");
    reveal_strlit("include");
    tight_text_is_kept(core);
    assert(core_of(core) == core);
    assert forall|word: Seq<char>| word.len() > 0 && word[0] != core[0] implies !(
    #[trigger] starts(core, word)) by {
        if starts(core, word) {
            assert(core.take(word.len() as int)[0] == core[0]);
        }
    }
    assert("window"@[0] == 'w' && "throttle"@[0] == 't' && "include"@[0] == 'i');
}

} // verus!
