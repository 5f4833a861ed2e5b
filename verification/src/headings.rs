//! Which lines are headers, directives, references to files and content, for any
//! spacing that the language allows.

use crate::document::{after_keyword, argument, core_of, line_of, LineView, Section};
use crate::layout::{
    blank, complete, complete_texts_join, plain_text_is_complete, strings_are_complete, tight,
    tight_text_is_kept, trimming_takes_white_ends,
};
use crate::lexer::{
    comment_starts_outside_strings, escaped, literal, literal_reads_what_is_written, uncommented,
};
use crate::text::{
    ident_char, letter, lower, lowered, trimmed, white, without_leading, without_trailing,
};
use vstd::prelude::*;

verus! {

/// Nothing but colons.
pub open spec fn colons(s: Seq<char>) -> bool {
    forall|i: int| 0 <= i < s.len() ==> #[trigger] s[i] == ':'
}

/// A word of the language: letters, digits and underscores.
pub open spec fn name(s: Seq<char>) -> bool {
    s.len() > 0 && forall|i: int| 0 <= i < s.len() ==> ident_char(#[trigger] s[i])
}

/// A text of a line: strings closed, no comment, no white space around, no dash
/// before it.
pub open spec fn bare(s: Seq<char>) -> bool {
    s.len() > 0 && complete(s) && tight(s) && s[0] != '-'
}

/// A text starts with a word, and the word ends there.
pub open spec fn led_by(s: Seq<char>, word: Seq<char>) -> bool {
    &&& word.len() <= s.len()
    &&& s.take(word.len() as int) == word
    &&& s.len() == word.len() || !(ident_char(s[word.len() as int]) || s[word.len() as int] == '.')
}

proof fn bare_is_core(s: Seq<char>)
    requires
        bare(s),
    ensures
        core_of(s) == s,
{
    tight_text_is_kept(s);
}

proof fn no_colon_left(stem: Seq<char>, cs: Seq<char>)
    requires
        colons(cs),
        stem.len() > 0,
        stem[stem.len() - 1] != ':',
    ensures
        without_trailing(stem + cs, ':') == stem,
    decreases cs.len(),
{
    let s = stem + cs;
    if cs.len() == 0 {
        assert(s =~= stem);
    } else {
        let less = cs.drop_last();
        assert forall|i: int| 0 <= i < less.len() implies #[trigger] less[i] == ':' by {
            assert(cs[i] == ':');
        }
        assert(cs[cs.len() - 1] == ':');
        assert(s.drop_last() =~= stem + less);
        no_colon_left(stem, less);
    }
}

proof fn no_colon_before(cs: Seq<char>, rest: Seq<char>)
    requires
        colons(cs),
        rest.len() > 0 ==> rest[0] != ':',
    ensures
        without_leading(cs + rest, ':') == rest,
    decreases cs.len(),
{
    let s = cs + rest;
    if cs.len() == 0 {
        assert(s =~= rest);
    } else {
        let less = cs.drop_first();
        assert forall|i: int| 0 <= i < less.len() implies #[trigger] less[i] == ':' by {
            assert(cs[i + 1] == ':');
        }
        assert(cs[0] == ':');
        assert(s.drop_first() =~= less + rest);
        no_colon_before(less, rest);
    }
}

proof fn stem_of(stem: Seq<char>, gap: Seq<char>, cs: Seq<char>)
    requires
        stem.len() > 0,
        tight(stem),
        stem[stem.len() - 1] != ':',
        blank(gap),
        colons(cs),
    ensures
        trimmed(without_trailing(stem + gap + cs, ':')) == stem,
{
    let head = stem + gap;
    assert(head[head.len() - 1] != ':') by {
        if gap.len() > 0 {
            assert(white(gap[gap.len() - 1]));
        }
    }
    no_colon_left(head, cs);
    let none = Seq::<char>::empty();
    trimming_takes_white_ends(none, stem, gap);
    assert(none + stem + gap =~= head);
}

/// A name with colons behind it is the header of a group, or of a section where it
/// is the name of one, in capitals or not; white space may stand between.
pub proof fn headers_end_with_colons(word: Seq<char>, gap: Seq<char>, cs: Seq<char>)
    requires
        name(word),
        blank(gap),
        colons(cs),
        cs.len() > 0,
    ensures
        line_of(word + gap + cs) == if lowered(word) == "detection"@ {
            LineView::Section(Section::Detection)
        } else if lowered(word) == "action"@ {
            LineView::Section(Section::Action)
        } else {
            LineView::Group(word)
        },
{
    let core = word + gap + cs;
    assert(ident_char(word[0]) && ident_char(word[word.len() - 1]));
    assert(core[0] == word[0]);
    assert(cs[cs.len() - 1] == ':');
    assert(core[core.len() - 1] == ':');
    assert forall|i: int| 0 <= i < core.len() implies #[trigger] core[i] != '"' && core[i]
        != '#' by {
        if i < word.len() {
            assert(ident_char(word[i]));
        } else if i < word.len() + gap.len() {
            assert(white(gap[i - word.len()]));
        } else {
            assert(cs[i - word.len() - gap.len()] == ':');
        }
    }
    plain_text_is_complete(core);
    bare_is_core(core);
    stem_of(word, gap, cs);
}

proof fn led_is_after(s: Seq<char>, word: Seq<char>)
    ensures
        after_keyword(s, word) is Some <==> led_by(s, word),
        led_by(s, word) ==> after_keyword(s, word) == Some(s.skip(word.len() as int)),
{
    let n = word.len() as int;
    if n < s.len() {
        assert(s.skip(n)[0] == s[n]);
    }
}

proof fn words_of_lines()
    ensures
        "window"@.len() == 6,
        "throttle"@.len() == 8,
        "include"@.len() == 7,
        "window"@[0] == 'w',
        "throttle"@[0] == 't',
        "include"@[0] == 'i',
        name("window"@),
        name("throttle"@),
        name("include"@),
{
    reveal_strlit("window");
    reveal_strlit("throttle");
    reveal_strlit("include");
}

proof fn led_by_one(s: Seq<char>, word: Seq<char>, other: Seq<char>)
    requires
        led_by(s, word),
        word.len() > 0,
        other.len() > 0,
        word[0] != other[0],
    ensures
        !led_by(s, other),
{
    assert(s.take(word.len() as int)[0] == s[0]);
    if led_by(s, other) {
        assert(s.take(other.len() as int)[0] == s[0]);
    }
}

proof fn keyword_core(word: Seq<char>, cs: Seq<char>, gap: Seq<char>, text: Seq<char>)
    requires
        name(word),
        colons(cs),
        blank(gap),
        text.len() > 0,
        cs.len() + gap.len() > 0 || !(ident_char(text[0]) || text[0] == '.'),
        tight(text),
        complete(text),
    ensures
        core_of(word + cs + gap + text) == word + cs + gap + text,
        led_by(word + cs + gap + text, word),
        (word + cs + gap + text).skip(word.len() as int) == cs + (gap + text),
        (word + cs + gap + text).last() == text[text.len() - 1],
{
    let head = word + cs + gap;
    let all = head + text;
    let k = word.len() as int;
    assert forall|i: int| 0 <= i < head.len() implies #[trigger] head[i] != '"' && head[i]
        != '#' by {
        if i < k {
            assert(ident_char(word[i]));
        } else if i < k + cs.len() {
            assert(cs[i - k] == ':');
        } else {
            assert(white(gap[i - k - cs.len()]));
        }
    }
    plain_text_is_complete(head);
    complete_texts_join(head, text);
    assert(ident_char(word[0]));
    assert(all[0] == word[0]);
    bare_is_core(all);
    assert(all.take(k) =~= word);
    assert(all.skip(k) =~= cs + (gap + text));
    if cs.len() > 0 {
        assert(cs[0] == ':');
        assert(all[k] == ':');
    } else if gap.len() > 0 {
        assert(white(gap[0]));
        assert(all[k] == gap[0]);
    } else {
        assert(all[k] == text[0]);
    }
}

/// `window` and `throttle` make a directive with what follows them, after any colons
/// and white space.
pub proof fn directives_have_arguments(cs: Seq<char>, gap: Seq<char>, text: Seq<char>)
    requires
        colons(cs),
        blank(gap),
        cs.len() + gap.len() > 0,
        text.len() > 0,
        tight(text),
        complete(text),
        gap.len() == 0 ==> text[0] != ':',
        text[text.len() - 1] != ':',
    ensures
        line_of("window"@ + cs + gap + text) == LineView::Window(text),
        line_of("throttle"@ + cs + gap + text) == LineView::Throttle(text),
{
    words_of_lines();
    let (w, t) = ("window"@ + cs + gap + text, "throttle"@ + cs + gap + text);
    keyword_core("window"@, cs, gap, text);
    keyword_core("throttle"@, cs, gap, text);
    led_is_after(w, "window"@);
    led_is_after(t, "throttle"@);
    led_is_after(t, "window"@);
    led_by_one(t, "throttle"@, "window"@);
    let rest = gap + text;
    if gap.len() > 0 {
        assert(white(gap[0]));
        assert(rest[0] == gap[0]);
    } else {
        assert(rest[0] == text[0]);
    }
    no_colon_before(cs, rest);
    let none = Seq::<char>::empty();
    trimming_takes_white_ends(gap, text, none);
    assert(gap + text + none =~= rest);
    assert(argument(cs + rest) == text);
}

/// `include` makes a reference to the file that the string behind it names.
pub proof fn references_name_their_file(gap: Seq<char>, path: Seq<char>, tail: Seq<char>)
    requires
        blank(gap),
        tight(seq!['"'] + escaped(path) + seq!['"'] + tail),
        complete(tail),
        tail.len() > 0 ==> tail[tail.len() - 1] != ':',
    ensures
        line_of("include"@ + gap + (seq!['"'] + escaped(path) + seq!['"'] + tail))
            == LineView::Include(Some(path)),
{
    let text = seq!['"'] + escaped(path) + seq!['"'] + tail;
    strings_are_complete(path);
    complete_texts_join(seq!['"'] + escaped(path) + seq!['"'], tail);
    assert(text[0] == '"');
    reference_line(gap, text);
    literal_reads_what_is_written(path, tail);
}

/// `include` before a text that is no string names no file.
pub proof fn references_need_a_string(gap: Seq<char>, text: Seq<char>)
    requires
        blank(gap),
        gap.len() > 0,
        text.len() > 0,
        tight(text),
        complete(text),
        text[0] != '"',
        text[text.len() - 1] != ':',
    ensures
        line_of("include"@ + gap + text) == LineView::Include(None),
{
    reference_line(gap, text);
}

proof fn reference_line(gap: Seq<char>, text: Seq<char>)
    requires
        blank(gap),
        text.len() > 0,
        gap.len() > 0 || !(ident_char(text[0]) || text[0] == '.'),
        tight(text),
        complete(text),
        text[text.len() - 1] != ':',
    ensures
        line_of("include"@ + gap + text) == LineView::Include(
            match literal(text) {
                Some((path, _)) => Some(path),
                None => None,
            },
        ),
{
    words_of_lines();
    let none = Seq::<char>::empty();
    let all = "include"@ + gap + text;
    keyword_core("include"@, none, gap, text);
    assert("include"@ + none + gap + text =~= all);
    led_is_after(all, "include"@);
    led_is_after(all, "window"@);
    led_is_after(all, "throttle"@);
    led_by_one(all, "include"@, "window"@);
    led_by_one(all, "include"@, "throttle"@);
    assert(none + (gap + text) =~= gap + text);
    trimming_takes_white_ends(gap, text, none);
    assert(gap + text + none =~= gap + text);
}

/// A line that no keyword leads, and that is no header, is a condition or an action;
/// so is one whose keyword goes on with further letters or a dot. A line that ends
/// with a colon is a header only where a name stands before it.
pub proof fn anything_else_is_content(core: Seq<char>, stem: Seq<char>, gap: Seq<char>, cs: Seq<char>)
    requires
        bare(core),
        !led_by(core, "window"@),
        !led_by(core, "throttle"@),
        !led_by(core, "include"@),
        core == stem + gap + cs,
        blank(gap),
        colons(cs),
        stem.len() > 0,
        tight(stem),
        stem[stem.len() - 1] != ':',
        cs.len() > 0 ==> !name(stem),
    ensures
        line_of(core) == LineView::Content(core),
{
    bare_is_core(core);
    led_is_after(core, "window"@);
    led_is_after(core, "throttle"@);
    led_is_after(core, "include"@);
    stem_of(stem, gap, cs);
    if cs.len() == 0 {
        assert(core =~= stem + gap);
        if gap.len() > 0 {
            assert(white(gap[gap.len() - 1]));
        }
        assert(core[core.len() - 1] != ':');
    } else {
        section_names_are_names(stem);
    }
}

proof fn section_names_are_names(stem: Seq<char>)
    ensures
        lowered(stem) == "detection"@ || lowered(stem) == "action"@ ==> name(stem),
{
    reveal_strlit("detection");
    reveal_strlit("action");
    let low = lowered(stem);
    assert(low.len() == stem.len());
    if low == "detection"@ || low == "action"@ {
        assert forall|i: int| 0 <= i < stem.len() implies ident_char(#[trigger] stem[i]) by {
            assert(low[i] == lower(stem[i]));
            assert(letter(low[i]));
        }
    }
}

/// White space, a dash and a comment make no line.
pub proof fn empty_lines_are_blank(
    indent: Seq<char>,
    dash: bool,
    after: Seq<char>,
    comment: Seq<char>,
)
    requires
        blank(indent),
        blank(after),
    ensures
        ({
            let lead = if dash {
                indent + seq!['-'] + after
            } else {
                indent
            };
            &&& line_of(lead) == LineView::Blank
            &&& line_of(lead + (seq!['#'] + comment)) == LineView::Blank
        }),
{
    let lead = if dash {
        indent + seq!['-'] + after
    } else {
        indent
    };
    let none = Seq::<char>::empty();
    assert forall|i: int| 0 <= i < lead.len() implies #[trigger] lead[i] != '"' && lead[i]
        != '#' by {
        if i < indent.len() {
            assert(white(indent[i]));
        } else if i > indent.len() {
            assert(white(after[i - indent.len() - 1]));
        }
    }
    plain_text_is_complete(lead);
    comment_starts_outside_strings(lead, false, comment);
    assert(uncommented(lead, false) == lead);
    if dash {
        trimming_takes_white_ends(indent, seq!['-'], after);
        assert(seq!['-'].skip(1) =~= none);
        tight_text_is_kept(none);
    } else {
        trimming_takes_white_ends(indent, none, none);
        assert(indent + none + none =~= indent);
    }
}

} // verus!
